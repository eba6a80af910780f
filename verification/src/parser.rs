//! The parser: a byte source read with one byte of lookahead.

use crate::error::ParseError;
use crate::grammar::{
    is_label, is_value, label_byte, run_len, value_byte, whitespace_byte, ByteClass, COLON, CR,
    LF, TAB,
};
use crate::record::{Field, FieldModel, Record, RecordModel};
use crate::stream::ByteSource;
use crate::syntax::{
    advance, document_at, document_from, document_model, field_at, label_at,
    lemma_document_from, lemma_field_at, lemma_label_at, lemma_record_from, lemma_value_at,
    record_at, record_from, skip_whitespace, valid_document, valid_record, value_at, Delimiter,
    DocumentModel,
};
use vstd::prelude::*;

verus! {

/// The outcome of parsing a label, as mathematics.
pub open spec fn label_outcome(res: Result<Vec<u8>, ParseError>) -> Result<Seq<u8>, ParseError> {
    match res {
        Ok(label) => Ok(label@),
        Err(e) => Err(e),
    }
}

/// The outcome of parsing a value, as mathematics.
pub open spec fn value_outcome(res: Result<(Vec<u8>, Delimiter), ParseError>) -> Result<
    (Seq<u8>, Delimiter),
    ParseError,
> {
    match res {
        Ok((value, d)) => Ok((value@, d)),
        Err(e) => Err(e),
    }
}

/// The outcome of parsing a field, as mathematics.
pub open spec fn field_outcome(res: Result<(Field, Delimiter), ParseError>) -> Result<
    (FieldModel, Delimiter),
    ParseError,
> {
    match res {
        Ok((field, d)) => Ok((field@, d)),
        Err(e) => Err(e),
    }
}

/// The outcome of parsing a record, as mathematics.
pub open spec fn record_outcome(res: Result<(Record, Delimiter), ParseError>) -> Result<
    (RecordModel, Delimiter),
    ParseError,
> {
    match res {
        Ok((record, d)) => Ok((record.entries(), d)),
        Err(e) => Err(e),
    }
}

/// The outcome of parsing a document, as mathematics.
pub open spec fn document_outcome(res: Result<Vec<Record>, ParseError>) -> Result<
    DocumentModel,
    ParseError,
> {
    match res {
        Ok(records) => Ok(document_model(records@)),
        Err(e) => Err(e),
    }
}

/// A parser over the byte source `R`. It holds the source and the one byte
/// that it has read ahead of what it has parsed.
pub struct LTSVParser<R: ByteSource> {
    rd: R,
    cur: Option<u8>,
}

impl<R: ByteSource> LTSVParser<R> {
    /// The bytes that are not parsed yet: the byte read ahead, then what the
    /// source has yet to hand out.
    pub closed spec fn pending(&self) -> Seq<u8> {
        match self.cur {
            Some(b) => seq![b] + self.rd.remaining(),
            None => Seq::empty(),
        }
    }

    /// A parser that is about to parse what `rd` has yet to hand out.
    pub fn new(rd: R) -> (parser: Self)
        ensures
            parser.pending() == rd.remaining(),
    {
        let mut rd = rd;
        let ghost all = rd.remaining();
        let cur = rd.read_byte();
        let parser = LTSVParser { rd, cur };
        assert(parser.pending() =~= all);
        parser
    }

    /// Whether nothing is left to parse.
    pub fn eof(&self) -> (at_end: bool)
        ensures
            at_end == (self.pending().len() == 0),
    {
        self.cur.is_none()
    }

    /// Passes one byte, if one is left.
    pub fn bump(&mut self)
        ensures
            final(self).pending() == advance(old(self).pending()),
    {
        if !self.eof() {
            let ghost before = self.pending();
            self.cur = self.rd.read_byte();
            assert(self.pending() =~= before.skip(1));
        }
    }

    /// Passes the whitespace at the front of what is left.
    pub fn skip_whitespaces(&mut self)
        ensures
            final(self).pending() == skip_whitespace(old(self).pending()),
    {
        let ghost all = self.pending();
        let ghost mut passed: int = 0;
        assert(all.skip(0) =~= all);
        loop
            invariant
                0 <= passed <= all.len(),
                self.pending() == all.skip(passed),
                run_len(ByteClass::Whitespace, all) == passed + run_len(
                    ByteClass::Whitespace,
                    self.pending(),
                ),
            ensures
                self.pending() == skip_whitespace(all),
            decreases self.pending().len(),
        {
            match self.cur {
                Some(b) if whitespace_byte(b) => {},
                _ => {
                    break;
                },
            }
            self.bump();
            proof {
                assert(all.skip(passed).skip(1) =~= all.skip(passed + 1));
                passed = passed + 1;
            }
        }
    }

    /// Parses the whole of what is left into the records of its lines, in
    /// order. Where nothing is left there is no record. The first violation
    /// of the grammar ends the parse, and no record is handed out.
    pub fn parse_ltsv(&mut self) -> (res: Result<Vec<Record>, ParseError>)
        ensures
            document_outcome(res) == document_at(old(self).pending()).0,
            final(self).pending() == document_at(old(self).pending()).1,
            res matches Ok(records) ==> valid_document(document_model(records@)),
            res.is_ok() ==> final(self).pending().len() == 0,
    {
        proof {
            lemma_document_from(Seq::empty(), self.pending());
        }
        let mut records: Vec<Record> = Vec::new();
        assert(document_model(records@) =~= Seq::empty());
        while !self.eof()
            invariant
                document_from(document_model(records@), self.pending()) == document_at(
                    old(self).pending(),
                ),
            decreases self.pending().len(),
        {
            proof {
                lemma_record_from(Seq::empty(), self.pending());
            }
            let ghost before = document_model(records@);
            match self.parse_record() {
                Err(e) => {
                    return Err(e);
                },
                Ok((record, _)) => {
                    records.push(record);
                    assert(document_model(records@) =~= before.push(record.entries()));
                },
            }
        }
        Ok(records)
    }

    /// Parses one record: the fields at the front of what is left, up to the
    /// first that a tab does not end. A later field overwrites an earlier one
    /// with the same label.
    pub fn parse_record(&mut self) -> (res: Result<(Record, Delimiter), ParseError>)
        ensures
            record_outcome(res) == record_at(old(self).pending()).0,
            final(self).pending() == record_at(old(self).pending()).1,
            res matches Ok((record, d)) ==> valid_record(record.entries()) && d != Delimiter::Tab
                && (d == Delimiter::EndOfStream <==> final(self).pending().len() == 0),
    {
        let mut record = Record::new();
        loop
            invariant
                record_from(record.entries(), self.pending()) == record_at(old(self).pending()),
            decreases self.pending().len(),
        {
            proof {
                lemma_field_at(self.pending());
                lemma_record_from(Seq::empty(), old(self).pending());
            }
            match self.parse_field() {
                Err(e) => {
                    return Err(e);
                },
                Ok((field, Delimiter::Tab)) => {
                    record.insert(field.label, field.value);
                },
                Ok((field, delim)) => {
                    record.insert(field.label, field.value);
                    return Ok((record, delim));
                },
            }
        }
    }

    /// Parses one field: the whitespace in front of it, its label, the
    /// colon, its value and its delimiter. After a delimiter other than a tab
    /// the whitespace that follows is passed too. Where nothing is left then,
    /// the delimiter handed out is the end of the stream.
    pub fn parse_field(&mut self) -> (res: Result<(Field, Delimiter), ParseError>)
        ensures
            field_outcome(res) == field_at(old(self).pending()).0,
            final(self).pending() == field_at(old(self).pending()).1,
            res matches Ok((field, d)) ==> is_label(field.label@) && is_value(field.value@) && (d
                == Delimiter::EndOfStream <==> final(self).pending().len() == 0),
    {
        proof {
            lemma_field_at(self.pending());
        }
        self.skip_whitespaces();
        let label = match self.parse_field_label() {
            Err(e) => {
                return Err(e);
            },
            Ok(label) => {
                self.bump();
                label
            },
        };
        match self.parse_field_value() {
            Err(e) => Err(e),
            Ok((value, delim)) => {
                self.bump();
                // Behind a tab the record goes on: what stands there is left
                // to the next field.
                if delim != Delimiter::Tab {
                    self.skip_whitespaces();
                }
                let delim = if self.eof() {
                    Delimiter::EndOfStream
                } else {
                    delim
                };
                Ok((Field { label, value }, delim))
            },
        }
    }

    /// Parses a label: passes the label bytes at the front of what is left
    /// and stops at the byte behind them, which must be a colon.
    pub fn parse_field_label(&mut self) -> (res: Result<Vec<u8>, ParseError>)
        ensures
            label_outcome(res) == label_at(old(self).pending()).0,
            final(self).pending() == label_at(old(self).pending()).1,
            res matches Ok(label) ==> is_label(label@),
    {
        let ghost all = self.pending();
        let mut bytes: Vec<u8> = Vec::new();
        assert(all.skip(0) =~= all);
        assert(all.take(0) =~= bytes@);
        loop
            invariant
                all == old(self).pending(),
                bytes.len() <= all.len(),
                self.pending() == all.skip(bytes.len() as int),
                bytes@ == all.take(bytes.len() as int),
                run_len(ByteClass::Label, all) == bytes.len() + run_len(
                    ByteClass::Label,
                    self.pending(),
                ),
            decreases self.pending().len(),
        {
            match self.cur {
                None => {
                    return Err(ParseError::UnterminatedLabel);
                },
                Some(b) if label_byte(b) => {
                    proof {
                        let n = bytes.len() as int;
                        assert(all.take(n).push(all[n]) =~= all.take(n + 1));
                        assert(all.skip(n).skip(1) =~= all.skip(n + 1));
                    }
                    bytes.push(b);
                },
                Some(b) if b == COLON => {
                    if bytes.len() == 0 {
                        return Err(ParseError::EmptyLabel);
                    }
                    proof {
                        lemma_label_at(all);
                    }
                    return Ok(bytes);
                },
                Some(_) => {
                    return Err(ParseError::InvalidLabelByte);
                },
            }
            self.bump();
        }
    }

    /// Parses a value: passes the value bytes at the front of what is left
    /// and stops at the delimiter behind them. A carriage return is passed
    /// too, and must stand in front of a line feed.
    pub fn parse_field_value(&mut self) -> (res: Result<(Vec<u8>, Delimiter), ParseError>)
        ensures
            value_outcome(res) == value_at(old(self).pending()).0,
            final(self).pending() == value_at(old(self).pending()).1,
            res matches Ok((value, d)) ==> is_value(value@),
    {
        let ghost all = self.pending();
        let mut bytes: Vec<u8> = Vec::new();
        assert(all.skip(0) =~= all);
        assert(all.take(0) =~= bytes@);
        loop
            invariant
                all == old(self).pending(),
                bytes.len() <= all.len(),
                self.pending() == all.skip(bytes.len() as int),
                bytes@ == all.take(bytes.len() as int),
                run_len(ByteClass::Value, all) == bytes.len() + run_len(
                    ByteClass::Value,
                    self.pending(),
                ),
            decreases self.pending().len(),
        {
            proof {
                lemma_value_at(all);
            }
            match self.cur {
                None => {
                    return Ok((bytes, Delimiter::EndOfStream));
                },
                Some(b) if value_byte(b) => {
                    proof {
                        let n = bytes.len() as int;
                        assert(all.take(n).push(all[n]) =~= all.take(n + 1));
                        assert(all.skip(n).skip(1) =~= all.skip(n + 1));
                    }
                    bytes.push(b);
                },
                Some(b) if b == CR => {
                    proof {
                        let n = bytes.len() as int;
                        assert(all.skip(n).skip(1) =~= all.skip(n + 1));
                    }
                    return self.consume_forward_LF(bytes);
                },
                Some(b) if b == LF => {
                    return Ok((bytes, Delimiter::Newline));
                },
                Some(b) if b == TAB => {
                    return Ok((bytes, Delimiter::Tab));
                },
                Some(_) => {
                    return Err(ParseError::InvalidValueByte);
                },
            }
            self.bump();
        }
    }

    /// Passes one byte, which is meant to be a carriage return, and looks at
    /// the byte behind it: with a line feed there, `rv` is a value that a
    /// newline ends.
    #[allow(non_snake_case)]
    pub fn consume_forward_LF(&mut self, rv: Vec<u8>) -> (res: Result<
        (Vec<u8>, Delimiter),
        ParseError,
    >)
        ensures
            final(self).pending() == advance(old(self).pending()),
            res.is_ok() == (advance(old(self).pending()).len() > 0 && advance(
                old(self).pending(),
            )[0] == LF),
            match res {
                Ok((value, d)) => value@ == rv@ && d == Delimiter::Newline,
                Err(e) => e == ParseError::DanglingCarriageReturn,
            },
    {
        self.bump();
        match self.cur {
            Some(b) if b == LF => Ok((rv, Delimiter::Newline)),
            _ => Err(ParseError::DanglingCarriageReturn),
        }
    }
}

} // verus!
