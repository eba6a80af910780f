//! Reading LTSV: a whole document at once, or record by record, or field by
//! field, with a visitor that may stop the reading.

use crate::error::ParseError;
use crate::grammar::{is_label, is_value};
use crate::parser::{document_outcome, LTSVParser};
use crate::record::{Field, Record};
use crate::stream::ByteSource;
use crate::syntax::{
    document_at, document_model, field_at, lemma_field_at, lemma_record_from, record_at,
    valid_document, valid_record,
};
use vstd::prelude::*;

verus! {

/// What a visit of the records of `s` by `f` may come to: the result `res`,
/// with `rest` left unread.
///
/// The records of `s` are handed to `f` in order, until `f` answers `false`,
/// a record violates the grammar, or nothing is left. Behind the record at
/// which `f` answered `false` nothing is read.
pub open spec fn records_visited<F: FnMut(&Record) -> bool>(
    f: F,
    s: Seq<u8>,
    res: Result<(), ParseError>,
    rest: Seq<u8>,
) -> bool
    decreases s.len(),
{
    if s.len() == 0 {
        res.is_ok() && rest == s
    } else {
        let (record, after) = record_at(s);
        match record {
            Err(e) => res == Err::<(), ParseError>(e) && rest == after,
            Ok((r, _)) => exists|visited: Record, go_on: bool|
                #![trigger call_ensures(f, (&visited,), go_on)]
                {
                    &&& visited.entries() == r
                    &&& call_ensures(f, (&visited,), go_on)
                    &&& if go_on {
                        after.len() < s.len() && records_visited(f, after, res, rest)
                    } else {
                        res.is_ok() && rest == after
                    }
                },
        }
    }
}

/// What a visit of the fields of `s` by `f` may come to: the result `res`,
/// with `rest` left unread.
///
/// The fields of `s` are handed to `f` in order, across the ends of lines,
/// until `f` answers `false`, a field violates the grammar, or nothing is
/// left. Behind the field at which `f` answered `false` nothing is read.
pub open spec fn fields_visited<F: FnMut(&Field) -> bool>(
    f: F,
    s: Seq<u8>,
    res: Result<(), ParseError>,
    rest: Seq<u8>,
) -> bool
    decreases s.len(),
{
    if s.len() == 0 {
        res.is_ok() && rest == s
    } else {
        let (field, after) = field_at(s);
        match field {
            Err(e) => res == Err::<(), ParseError>(e) && rest == after,
            Ok((x, _)) => exists|visited: Field, go_on: bool|
                #![trigger call_ensures(f, (&visited,), go_on)]
                {
                    &&& visited@ == x
                    &&& call_ensures(f, (&visited,), go_on)
                    &&& if go_on {
                        after.len() < s.len() && fields_visited(f, after, res, rest)
                    } else {
                        res.is_ok() && rest == after
                    }
                },
        }
    }
}

/// The three ways to read LTSV.
pub trait LTSVReader {
    /// The bytes that are not read yet.
    spec fn unread(&self) -> Seq<u8>;

    /// Reads all that is left as one document: its records in the order of
    /// their lines, or the first violation of the grammar.
    fn read_ltsv(&mut self) -> (res: Result<Vec<Record>, ParseError>)
        ensures
            document_outcome(res) == document_at(old(self).unread()).0,
            final(self).unread() == document_at(old(self).unread()).1,
            res matches Ok(records) ==> valid_document(document_model(records@)),
            res.is_ok() ==> final(self).unread().len() == 0,
    ;

    /// Reads record by record and hands each record to `f`, until `f`
    /// answers `false`, a record violates the grammar, or nothing is left.
    fn each_ltsv_record<F: FnMut(&Record) -> bool>(&mut self, f: F) -> (res: Result<
        (),
        ParseError,
    >)
        requires
            forall|r: Record| valid_record(r.entries()) ==> call_requires(f, (&r,)),
        ensures
            records_visited(f, old(self).unread(), res, final(self).unread()),
    ;

    /// Reads field by field and hands each field to `f`, until `f` answers
    /// `false`, a field violates the grammar, or nothing is left.
    fn each_ltsv_field<F: FnMut(&Field) -> bool>(&mut self, f: F) -> (res: Result<(), ParseError>)
        requires
            forall|x: Field| is_label(x.label@) && is_value(x.value@) ==> call_requires(f, (&x,)),
        ensures
            fields_visited(f, old(self).unread(), res, final(self).unread()),
    ;
}

impl<R: ByteSource> LTSVReader for LTSVParser<R> {
    open spec fn unread(&self) -> Seq<u8> {
        self.pending()
    }

    fn read_ltsv(&mut self) -> (res: Result<Vec<Record>, ParseError>) {
        self.parse_ltsv()
    }

    fn each_ltsv_record<F: FnMut(&Record) -> bool>(&mut self, f: F) -> (res: Result<
        (),
        ParseError,
    >) {
        let mut visit = f;
        while !self.eof()
            invariant
                visit == f,
                forall|r: Record| valid_record(r.entries()) ==> call_requires(f, (&r,)),
                forall|res: Result<(), ParseError>, rest: Seq<u8>| #[trigger]
                    records_visited(f, self.pending(), res, rest) ==> records_visited(
                        f,
                        old(self).pending(),
                        res,
                        rest,
                    ),
            decreases self.pending().len(),
        {
            let ghost before = self.pending();
            proof {
                lemma_record_from(Seq::empty(), before);
            }
            match self.parse_record() {
                Err(e) => {
                    assert(records_visited(f, before, Err(e), self.pending()));
                    return Err(e);
                },
                Ok((record, _)) => {
                    let go_on = visit(&record);
                    if !go_on {
                        assert(records_visited(f, before, Ok(()), self.pending()));
                        return Ok(());
                    }
                    assert forall|res: Result<(), ParseError>, rest: Seq<u8>| #[trigger]
                        records_visited(f, self.pending(), res, rest) implies records_visited(
                        f,
                        old(self).pending(),
                        res,
                        rest,
                    ) by {
                        assert(records_visited(f, before, res, rest));
                    }
                },
            }
        }
        assert(records_visited(f, self.pending(), Ok(()), self.pending()));
        Ok(())
    }

    fn each_ltsv_field<F: FnMut(&Field) -> bool>(&mut self, f: F) -> (res: Result<
        (),
        ParseError,
    >) {
        let mut visit = f;
        while !self.eof()
            invariant
                visit == f,
                forall|x: Field|
                    is_label(x.label@) && is_value(x.value@) ==> call_requires(f, (&x,)),
                forall|res: Result<(), ParseError>, rest: Seq<u8>| #[trigger]
                    fields_visited(f, self.pending(), res, rest) ==> fields_visited(
                        f,
                        old(self).pending(),
                        res,
                        rest,
                    ),
            decreases self.pending().len(),
        {
            let ghost before = self.pending();
            proof {
                lemma_field_at(before);
            }
            match self.parse_field() {
                Err(e) => {
                    assert(fields_visited(f, before, Err(e), self.pending()));
                    return Err(e);
                },
                Ok((field, _)) => {
                    let go_on = visit(&field);
                    if !go_on {
                        assert(fields_visited(f, before, Ok(()), self.pending()));
                        return Ok(());
                    }
                    assert forall|res: Result<(), ParseError>, rest: Seq<u8>| #[trigger]
                        fields_visited(f, self.pending(), res, rest) implies fields_visited(
                        f,
                        old(self).pending(),
                        res,
                        rest,
                    ) by {
                        assert(fields_visited(f, before, res, rest));
                    }
                },
            }
        }
        assert(fields_visited(f, self.pending(), Ok(()), self.pending()));
        Ok(())
    }
}

} // verus!
