//! The LTSV format as mathematics: what a sequence of bytes parses to, and the
//! text that records are written as.
//!
//! Each of the parsing functions takes the bytes that are still unread and
//! gives a pair: the outcome, and the bytes that are left unread after it.

use crate::error::ParseError;
use crate::grammar::{
    in_class, is_label, is_value, lemma_run_len, lemma_run_len_is, run_len, ByteClass, COLON, CR,
    LF, TAB,
};
use crate::record::{
    has_label, label_index, labels_unique, lemma_insert_keeps_unique, record_insert, FieldModel,
    Record, RecordModel,
};
use vstd::prelude::*;

verus! {

/// What ended a field.
#[derive(Clone, Copy, Debug, PartialEq, Eq, Structural)]
pub enum Delimiter {
    /// A tab: more fields of the same record follow.
    Tab,
    /// A line feed, alone or after a carriage return: the record is complete.
    Newline,
    /// The end of the stream: the record is complete and nothing follows.
    EndOfStream,
}

/// A document as mathematics: its records in the order of their lines.
pub type DocumentModel = Seq<RecordModel>;

/// `s` without its first byte; the empty sequence stays as it is.
pub open spec fn advance(s: Seq<u8>) -> Seq<u8> {
    if s.len() > 0 {
        s.skip(1)
    } else {
        s
    }
}

/// `s` without the whitespace at its front.
pub open spec fn skip_whitespace(s: Seq<u8>) -> Seq<u8> {
    s.skip(run_len(ByteClass::Whitespace, s) as int)
}

/// A label at the front of `s`: the run of label bytes there, which must not
/// be empty and must be followed by a colon. What is left starts at the byte
/// that stopped the run: on success, the colon.
pub open spec fn label_at(s: Seq<u8>) -> (Result<Seq<u8>, ParseError>, Seq<u8>) {
    let n = run_len(ByteClass::Label, s) as int;
    let rest = s.skip(n);
    if n == s.len() {
        (Err(ParseError::UnterminatedLabel), rest)
    } else if s[n] != COLON {
        (Err(ParseError::InvalidLabelByte), rest)
    } else if n == 0 {
        (Err(ParseError::EmptyLabel), rest)
    } else {
        (Ok(s.take(n)), rest)
    }
}

/// A value at the front of `s`: the run of value bytes there, ended by a tab,
/// a line feed, a carriage return with a line feed, or the end of `s`. What is
/// left starts at the byte that stopped the run, but for a carriage return,
/// which is passed: then it starts at the byte behind it.
pub open spec fn value_at(s: Seq<u8>) -> (Result<(Seq<u8>, Delimiter), ParseError>, Seq<u8>) {
    let n = run_len(ByteClass::Value, s) as int;
    if n == s.len() {
        (Ok((s.take(n), Delimiter::EndOfStream)), s.skip(n))
    } else if s[n] == TAB {
        (Ok((s.take(n), Delimiter::Tab)), s.skip(n))
    } else if s[n] == LF {
        (Ok((s.take(n), Delimiter::Newline)), s.skip(n))
    } else if s[n] == CR {
        if n + 1 < s.len() && s[n + 1] == LF {
            (Ok((s.take(n), Delimiter::Newline)), s.skip(n + 1))
        } else {
            (Err(ParseError::DanglingCarriageReturn), s.skip(n + 1))
        }
    } else {
        (Err(ParseError::InvalidValueByte), s.skip(n))
    }
}

/// A field at the front of `s`: whitespace, a label, a colon, a value and its
/// delimiter. After a delimiter other than a tab the whitespace that follows
/// is passed too. Where nothing is left then, the delimiter counts as the end
/// of the stream.
pub open spec fn field_at(s: Seq<u8>) -> (Result<(FieldModel, Delimiter), ParseError>, Seq<u8>) {
    let (label, at_colon) = label_at(skip_whitespace(s));
    match label {
        Err(e) => (Err(e), at_colon),
        Ok(l) => {
            let (value, at_delimiter) = value_at(advance(at_colon));
            match value {
                Err(e) => (Err(e), at_delimiter),
                Ok((v, d)) => {
                    let behind = advance(at_delimiter);
                    let rest = if d == Delimiter::Tab {
                        behind
                    } else {
                        skip_whitespace(behind)
                    };
                    let seen = if rest.len() == 0 {
                        Delimiter::EndOfStream
                    } else {
                        d
                    };
                    (Ok(((l, v), seen)), rest)
                },
            }
        },
    }
}

/// The record that starts with the fields `acc` and goes on with the fields
/// at the front of `s`, up to the first field that a tab does not end.
pub open spec fn record_from(acc: RecordModel, s: Seq<u8>) -> (
    Result<(RecordModel, Delimiter), ParseError>,
    Seq<u8>,
)
    decreases s.len(),
{
    let (field, rest) = field_at(s);
    match field {
        Err(e) => (Err(e), rest),
        Ok((f, d)) => {
            let grown = record_insert(acc, f.0, f.1);
            if d == Delimiter::Tab && rest.len() < s.len() {
                record_from(grown, rest)
            } else {
                (Ok((grown, d)), rest)
            }
        },
    }
}

/// The record at the front of `s`.
pub open spec fn record_at(s: Seq<u8>) -> (Result<(RecordModel, Delimiter), ParseError>, Seq<u8>) {
    record_from(Seq::empty(), s)
}

/// The document that starts with the records `acc` and goes on with the
/// records of `s`, to its end.
pub open spec fn document_from(acc: DocumentModel, s: Seq<u8>) -> (
    Result<DocumentModel, ParseError>,
    Seq<u8>,
)
    decreases s.len(),
{
    if s.len() == 0 {
        (Ok(acc), s)
    } else {
        let (record, rest) = record_at(s);
        match record {
            Err(e) => (Err(e), rest),
            Ok((r, _)) => {
                if rest.len() < s.len() {
                    document_from(acc.push(r), rest)
                } else {
                    (Ok(acc.push(r)), rest)
                }
            },
        }
    }
}

/// The document that `s` holds: no record for the empty sequence, else one
/// record for each line.
pub open spec fn document_at(s: Seq<u8>) -> (Result<DocumentModel, ParseError>, Seq<u8>) {
    document_from(Seq::empty(), s)
}

/// The text of a field: its label, a colon, its value.
pub open spec fn field_text(f: FieldModel) -> Seq<u8> {
    f.0 + seq![COLON] + f.1
}

/// The text of a record: the texts of its fields in order, with one tab
/// between two fields and nothing behind the last.
pub open spec fn record_text(r: RecordModel) -> Seq<u8>
    decreases r.len(),
{
    if r.len() == 0 {
        Seq::empty()
    } else if r.len() == 1 {
        field_text(r[0])
    } else {
        field_text(r[0]) + seq![TAB] + record_text(r.skip(1))
    }
}

/// The text of a document: the text of each record in order, each followed by
/// one line feed.
pub open spec fn document_text(d: DocumentModel) -> Seq<u8>
    decreases d.len(),
{
    if d.len() == 0 {
        Seq::empty()
    } else {
        record_text(d[0]) + seq![LF] + document_text(d.skip(1))
    }
}

/// Every field of `r` has a label that is a label and a value that is a value.
pub open spec fn fields_well_formed(r: RecordModel) -> bool {
    forall|i: int| 0 <= i < r.len() ==> is_label((#[trigger] r[i]).0) && is_value(r[i].1)
}

/// A record as the parser makes them: at least one field, no label twice,
/// every label a label and every value a value.
pub open spec fn valid_record(r: RecordModel) -> bool {
    &&& r.len() > 0
    &&& labels_unique(r)
    &&& fields_well_formed(r)
}

/// A document whose records are all as the parser makes them.
pub open spec fn valid_document(d: DocumentModel) -> bool {
    forall|i: int| 0 <= i < d.len() ==> valid_record(#[trigger] d[i])
}

/// The records of a document, each as its fields in order.
pub open spec fn document_model(records: Seq<Record>) -> DocumentModel {
    records.map_values(|r: Record| r.entries())
}

/// A label that was parsed is a label, and the colon behind it is left.
pub proof fn lemma_label_at(s: Seq<u8>)
    ensures
        label_at(s).1.len() <= s.len(),
        label_at(s).0 matches Ok(l) ==> is_label(l) && label_at(s).1.len() + l.len() == s.len()
            && label_at(s).1.len() > 0 && label_at(s).1[0] == COLON && s == l + label_at(s).1,
{
    lemma_run_len(ByteClass::Label, s);
    let n = run_len(ByteClass::Label, s) as int;
    if let Ok(l) = label_at(s).0 {
        assert forall|i: int| 0 <= i < l.len() implies in_class(ByteClass::Label, #[trigger] l[i]) by {
            assert(l[i] == s[i]);
        }
        assert(s =~= l + s.skip(n));
    }
}

/// A value that was parsed is a value, and what is left starts at its
/// delimiter: nothing for the end of the stream, a tab or a line feed else.
pub proof fn lemma_value_at(s: Seq<u8>)
    ensures
        value_at(s).1.len() <= s.len(),
        value_at(s).0 matches Ok((v, d)) ==> {
            let rest = value_at(s).1;
            &&& is_value(v)
            &&& v == s.take(v.len() as int)
            &&& match d {
                Delimiter::EndOfStream => rest.len() == 0 && v == s,
                Delimiter::Tab => rest.len() > 0 && rest[0] == TAB && rest == s.skip(
                    v.len() as int,
                ),
                Delimiter::Newline => rest.len() > 0 && rest[0] == LF && (rest == s.skip(
                    v.len() as int,
                ) || (s[v.len() as int] == CR && rest == s.skip(v.len() as int + 1))),
            }
        },
{
    lemma_run_len(ByteClass::Value, s);
    let n = run_len(ByteClass::Value, s) as int;
    if let Ok((v, d)) = value_at(s).0 {
        assert forall|i: int| 0 <= i < v.len() implies in_class(ByteClass::Value, #[trigger] v[i]) by {
            assert(v[i] == s[i]);
        }
        if n == s.len() {
            assert(s.take(n) =~= s);
        }
    }
}

/// A carriage return with a line feed ends a value as a line feed alone
/// does: the value and what is left are the same.
pub proof fn lemma_crlf_is_newline(v: Seq<u8>, t: Seq<u8>)
    requires
        is_value(v),
    ensures
        value_at(v + seq![CR, LF] + t) == value_at(v + seq![LF] + t),
        value_at(v + seq![LF] + t) == (
            Ok::<(Seq<u8>, Delimiter), ParseError>((v, Delimiter::Newline)),
            seq![LF] + t,
        ),
{
    let a = v + seq![CR, LF] + t;
    let b = v + seq![LF] + t;
    let n = v.len() as int;
    assert forall|i: int| 0 <= i < n implies in_class(ByteClass::Value, #[trigger] a[i])
        && in_class(ByteClass::Value, #[trigger] b[i]) by {
        assert(a[i] == v[i]);
        assert(b[i] == v[i]);
    }
    assert(a[n] == CR);
    assert(a[n + 1] == LF);
    assert(b[n] == LF);
    lemma_run_len_is(ByteClass::Value, a, n as nat);
    lemma_run_len_is(ByteClass::Value, b, n as nat);
    assert(a.take(n) =~= v);
    assert(b.take(n) =~= v);
    assert(a.skip(n + 1) =~= seq![LF] + t);
    assert(b.skip(n) =~= seq![LF] + t);
}

/// Skipping whitespace leaves a suffix that does not start with whitespace.
pub proof fn lemma_skip_whitespace(s: Seq<u8>)
    ensures
        skip_whitespace(s).len() <= s.len(),
        skip_whitespace(s).len() > 0 ==> !in_class(ByteClass::Whitespace, skip_whitespace(s)[0]),
{
    lemma_run_len(ByteClass::Whitespace, s);
}

/// A field that was parsed has a label and a value that are well formed, at
/// least two bytes were passed for it, and its delimiter is the end of the
/// stream exactly if nothing is left.
pub proof fn lemma_field_at(s: Seq<u8>)
    ensures
        field_at(s).1.len() <= s.len(),
        field_at(s).0 matches Ok((f, d)) ==> {
            &&& is_label(f.0)
            &&& is_value(f.1)
            &&& field_at(s).1.len() + 2 <= s.len()
            &&& (d == Delimiter::EndOfStream <==> field_at(s).1.len() == 0)
        },
{
    let s1 = skip_whitespace(s);
    lemma_skip_whitespace(s);
    lemma_label_at(s1);
    let (label, at_colon) = label_at(s1);
    if let Ok(l) = label {
        let s2 = advance(at_colon);
        lemma_value_at(s2);
        let (value, at_delimiter) = value_at(s2);
        if let Ok((v, d)) = value {
            let behind = advance(at_delimiter);
            lemma_skip_whitespace(behind);
        }
    }
}

/// Where a field fails to parse, the parser stays in the line of the error:
/// what is left is a suffix of the input behind the whitespace in front of
/// the field, and no line feed stands in the bytes that were passed there.
pub proof fn lemma_failed_field_stays_in_line(s: Seq<u8>)
    requires
        field_at(s).0 is Err,
    ensures
        ({
            let from = skip_whitespace(s);
            let rest = field_at(s).1;
            let passed = from.len() - rest.len();
            &&& 0 <= passed
            &&& rest == from.skip(passed)
            &&& forall|i: int| 0 <= i < passed ==> #[trigger] from[i] != LF
        }),
{
    let from = skip_whitespace(s);
    let rest = field_at(s).1;
    let passed = from.len() - rest.len();
    lemma_run_len(ByteClass::Label, from);
    let n = run_len(ByteClass::Label, from) as int;
    let (label, at_colon) = label_at(from);
    if let Ok(l) = label {
        let s2 = advance(at_colon);
        lemma_run_len(ByteClass::Value, s2);
        let m = run_len(ByteClass::Value, s2) as int;
        assert(s2 =~= from.skip(n + 1));
        assert(rest =~= from.skip(passed));
        assert forall|i: int| 0 <= i < passed implies #[trigger] from[i] != LF by {
            if i < n {
                assert(in_class(ByteClass::Label, from[i]));
            } else if i == n {
                assert(from[i] == COLON);
            } else if i < n + 1 + m {
                assert(from[i] == s2[i - n - 1]);
                assert(in_class(ByteClass::Value, s2[i - n - 1]));
            } else {
                assert(from[i] == s2[m]);
            }
        }
    } else {
        assert forall|i: int| 0 <= i < passed implies #[trigger] from[i] != LF by {
            assert(in_class(ByteClass::Label, from[i]));
        }
    }
}

/// A record that was parsed is valid if the fields that it started with were,
/// a newline or the end of the stream ended it, the latter exactly if nothing
/// is left, and bytes were passed for it.
pub proof fn lemma_record_from(acc: RecordModel, s: Seq<u8>)
    requires
        labels_unique(acc),
        fields_well_formed(acc),
    ensures
        record_from(acc, s).1.len() <= s.len(),
        record_from(acc, s).0 matches Ok((r, d)) ==> {
            &&& valid_record(r)
            &&& d != Delimiter::Tab
            &&& record_from(acc, s).1.len() < s.len()
            &&& (d == Delimiter::EndOfStream <==> record_from(acc, s).1.len() == 0)
        },
    decreases s.len(),
{
    lemma_field_at(s);
    let (field, rest) = field_at(s);
    if let Ok((f, d)) = field {
        let grown = record_insert(acc, f.0, f.1);
        lemma_insert_keeps_unique(acc, f.0, f.1);
        assert(fields_well_formed(grown)) by {
            assert forall|i: int| 0 <= i < grown.len() implies is_label((#[trigger] grown[i]).0)
                && is_value(grown[i].1) by {
                if has_label(acc, f.0) {
                    if i != label_index(acc, f.0) {
                        assert(grown[i] == acc[i]);
                    }
                } else {
                    if i < acc.len() {
                        assert(grown[i] == acc[i]);
                    }
                }
            }
        }
        if d == Delimiter::Tab {
            lemma_record_from(grown, rest);
        }
    }
}

/// A document that was parsed is valid if the records that it started with
/// were, and nothing is left behind it.
pub proof fn lemma_document_from(acc: DocumentModel, s: Seq<u8>)
    requires
        valid_document(acc),
    ensures
        document_from(acc, s).1.len() <= s.len(),
        document_from(acc, s).0 matches Ok(d) ==> valid_document(d) && document_from(acc, s).1.len()
            == 0,
    decreases s.len(),
{
    if s.len() > 0 {
        lemma_record_from(Seq::empty(), s);
        let (record, rest) = record_at(s);
        if let Ok((r, _)) = record {
            let grown = acc.push(r);
            assert(valid_document(grown)) by {
                assert forall|i: int| 0 <= i < grown.len() implies valid_record(
                    #[trigger] grown[i],
                ) by {
                    if i < acc.len() {
                        assert(grown[i] == acc[i]);
                    }
                }
            }
            lemma_document_from(grown, rest);
        }
    }
}

} // verus!
