//! Writing LTSV: records as text into a byte sink. Nothing is checked on the
//! way out: labels and values are written as they are.

use crate::grammar::{COLON, LF, TAB};
use crate::record::{Record, RecordModel};
use crate::stream::ByteSink;
use crate::syntax::{document_model, document_text, field_text, record_text};
use vstd::prelude::*;

verus! {

/// What is still to be written of the record `r` once `done` of its fields
/// are out: the tab in front of the next field, then the fields left.
spec fn text_to_come(r: RecordModel, done: int) -> Seq<u8> {
    if done <= 0 {
        record_text(r)
    } else if done < r.len() {
        seq![TAB] + record_text(r.skip(done))
    } else {
        Seq::empty()
    }
}

/// Writing one more field, with a tab in front of it unless it is the
/// first, leaves the fields behind it to come.
proof fn lemma_text_to_come(r: RecordModel, done: int)
    requires
        0 <= done < r.len(),
    ensures
        text_to_come(r, done) == (if done == 0 {
            Seq::<u8>::empty()
        } else {
            seq![TAB]
        }) + field_text(r[done]) + text_to_come(r, done + 1),
{
    let tail = r.skip(done);
    assert(tail[0] == r[done]);
    assert(tail.skip(1) =~= r.skip(done + 1));
    if done == 0 {
        assert(tail =~= r);
    }
    assert(text_to_come(r, done) =~= (if done == 0 {
        Seq::<u8>::empty()
    } else {
        seq![TAB]
    }) + field_text(r[done]) + text_to_come(r, done + 1));
}

/// The two ways to write LTSV.
pub trait LTSVWriter {
    /// The bytes written so far.
    spec fn output(&self) -> Seq<u8>;

    /// Writes the records of `ltsv` in order, each followed by a line feed.
    fn write_ltsv(&mut self, ltsv: &[Record])
        ensures
            final(self).output() == old(self).output() + document_text(document_model(ltsv@)),
    ;

    /// Writes the fields of `record` in order, each as its label, a colon
    /// and its value, with a tab between two fields.
    fn write_ltsv_record(&mut self, record: &Record)
        ensures
            final(self).output() == old(self).output() + record_text(record.entries()),
    ;
}

impl<T: ByteSink> LTSVWriter for T {
    open spec fn output(&self) -> Seq<u8> {
        self.written()
    }

    fn write_ltsv(&mut self, ltsv: &[Record]) {
        let ghost doc = document_model(ltsv@);
        let mut i: usize = 0;
        assert(doc.skip(0) =~= doc);
        while i < ltsv.len()
            invariant
                i <= ltsv.len(),
                doc == document_model(ltsv@),
                old(self).written() + document_text(doc) == self.written() + document_text(
                    doc.skip(i as int),
                ),
            decreases ltsv.len() - i,
        {
            let ghost before = self.written();
            let ghost tail = doc.skip(i as int);
            self.write_ltsv_record(&ltsv[i]);
            self.write_byte(LF);
            proof {
                assert(tail[0] == ltsv@[i as int].entries());
                assert(tail.skip(1) =~= doc.skip(i + 1));
                assert(before + document_text(tail) =~= self.written() + document_text(
                    doc.skip(i + 1),
                ));
            }
            i = i + 1;
        }
        assert(self.written() + document_text(doc.skip(i as int)) =~= self.written());
    }

    fn write_ltsv_record(&mut self, record: &Record) {
        let ghost r = record.entries();
        let mut is_first = true;
        let mut i: usize = 0;
        while i < record.len()
            invariant
                i <= r.len(),
                r == record.entries(),
                is_first == (i == 0),
                old(self).written() + record_text(r) == self.written() + text_to_come(r, i as int),
            decreases r.len() - i,
        {
            let ghost before = self.written();
            let field = record.field(i);
            if !is_first {
                self.write_byte(TAB);
            }
            self.write_bytes(field.label.as_slice());
            self.write_byte(COLON);
            self.write_bytes(field.value.as_slice());
            if is_first {
                is_first = false;
            }
            proof {
                lemma_text_to_come(r, i as int);
                assert(before + text_to_come(r, i as int) =~= self.written() + text_to_come(
                    r,
                    i + 1,
                ));
            }
            i = i + 1;
        }
        assert(self.written() + text_to_come(r, i as int) =~= self.written());
    }
}

} // verus!
