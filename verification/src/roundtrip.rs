//! Parsing what was written gives back what was written.

use crate::error::ParseError;
use crate::grammar::{
    in_class, is_label, is_label_byte, is_value, is_whitespace_byte, lemma_run_len_is, run_len,
    ByteClass, COLON, LF, TAB,
};
use crate::record::{has_label, labels_unique, record_insert, FieldModel, RecordModel};
use crate::syntax::{
    advance, document_at, document_from, document_text, field_at, field_text,
    fields_well_formed, label_at, lemma_document_from, record_at, record_from, record_text,
    skip_whitespace, valid_document, valid_record, value_at, Delimiter, DocumentModel,
};
use vstd::prelude::*;

verus! {

/// `t` is empty or starts with a byte that is not whitespace.
pub open spec fn starts_without_whitespace(t: Seq<u8>) -> bool {
    t.len() == 0 || !is_whitespace_byte(t[0])
}

/// The delimiter that the parser reports for a field that the byte
/// `delimiter` ends, with `t` behind it.
pub open spec fn delimiter_seen(delimiter: u8, t: Seq<u8>) -> Delimiter {
    if t.len() == 0 {
        Delimiter::EndOfStream
    } else if delimiter == TAB {
        Delimiter::Tab
    } else {
        Delimiter::Newline
    }
}

/// The text of a field, followed by a tab and more text, or by a line feed
/// and text that does not start with whitespace, parses to that field and
/// leaves the text behind the delimiter.
pub proof fn lemma_field_text_parses(l: Seq<u8>, v: Seq<u8>, delimiter: u8, t: Seq<u8>)
    requires
        is_label(l),
        is_value(v),
        delimiter == TAB || delimiter == LF,
        delimiter == LF ==> starts_without_whitespace(t),
    ensures
        field_at(field_text((l, v)) + seq![delimiter] + t) == (
            Ok::<(FieldModel, Delimiter), ParseError>(((l, v), delimiter_seen(delimiter, t))),
            t,
        ),
{
    let s = field_text((l, v)) + seq![delimiter] + t;
    let n = l.len() as int;
    let m = v.len() as int;
    // No whitespace stands in front of the label.
    assert(s[0] == l[0]);
    assert(is_label_byte(l[0]));
    assert(run_len(ByteClass::Whitespace, s) == 0);
    assert(skip_whitespace(s) =~= s);
    // The label is the run of label bytes, and the colon ends it.
    assert forall|i: int| 0 <= i < n implies in_class(ByteClass::Label, #[trigger] s[i]) by {
        assert(s[i] == l[i]);
    }
    assert(s[n] == COLON);
    lemma_run_len_is(ByteClass::Label, s, n as nat);
    assert(s.take(n) =~= l);
    let at_colon = s.skip(n);
    assert(label_at(s) == (Ok::<Seq<u8>, ParseError>(l), at_colon));
    // The value is the run of value bytes, and the delimiter ends it.
    let s2 = advance(at_colon);
    assert(s2 =~= v + seq![delimiter] + t);
    assert forall|i: int| 0 <= i < m implies in_class(ByteClass::Value, #[trigger] s2[i]) by {
        assert(s2[i] == v[i]);
    }
    assert(s2[m] == delimiter);
    lemma_run_len_is(ByteClass::Value, s2, m as nat);
    assert(s2.take(m) =~= v);
    let at_delimiter = s2.skip(m);
    let d = if delimiter == TAB {
        Delimiter::Tab
    } else {
        Delimiter::Newline
    };
    assert(value_at(s2) == (Ok::<(Seq<u8>, Delimiter), ParseError>((v, d)), at_delimiter));
    // Behind the delimiter stands `t`, and no whitespace is passed there.
    let behind = advance(at_delimiter);
    assert(behind =~= t);
    if delimiter == LF {
        assert(run_len(ByteClass::Whitespace, t) == 0);
        assert(skip_whitespace(t) =~= t);
    }
}

/// The text of a record with well-formed fields starts with a label byte.
pub proof fn lemma_record_text_start(r: RecordModel)
    requires
        r.len() > 0,
        fields_well_formed(r),
    ensures
        record_text(r).len() > 0,
        is_label_byte(record_text(r)[0]),
{
    assert(is_label(r[0].0));
    assert(field_text(r[0])[0] == r[0].0[0]);
}

/// The text of a valid document is empty or starts with a label byte.
pub proof fn lemma_document_text_start(d: DocumentModel)
    requires
        valid_document(d),
    ensures
        d.len() == 0 ==> document_text(d).len() == 0,
        d.len() > 0 ==> document_text(d).len() > 0 && is_label_byte(document_text(d)[0]),
        starts_without_whitespace(document_text(d)),
{
    if d.len() > 0 {
        assert(valid_record(d[0]));
        lemma_record_text_start(d[0]);
        assert(document_text(d)[0] == record_text(d[0])[0]);
    }
}

/// The text of the fields `r`, followed by a line feed and text that does not
/// start with whitespace, parses to the record that holds the fields `acc`
/// and then the fields `r`, where no label occurs twice among them all.
pub proof fn lemma_record_text_parses(acc: RecordModel, r: RecordModel, t: Seq<u8>)
    requires
        r.len() > 0,
        fields_well_formed(r),
        labels_unique(acc + r),
        starts_without_whitespace(t),
    ensures
        record_from(acc, record_text(r) + seq![LF] + t) == (
            Ok::<(RecordModel, Delimiter), ParseError>((acc + r, delimiter_seen(LF, t))),
            t,
        ),
    decreases r.len(),
{
    let s = record_text(r) + seq![LF] + t;
    let f = r[0];
    let all = acc + r;
    assert(is_label(f.0) && is_value(f.1));
    // The first field is new to `acc`: it goes to its end.
    assert(!has_label(acc, f.0)) by {
        if has_label(acc, f.0) {
            let i = choose|i: int| 0 <= i < acc.len() && (#[trigger] acc[i]).0 == f.0;
            assert(all[i] == acc[i]);
            assert(all[acc.len() as int] == f);
        }
    }
    let grown = record_insert(acc, f.0, f.1);
    assert(grown == acc.push(f));
    if r.len() == 1 {
        assert(s == field_text(f) + seq![LF] + t);
        lemma_field_text_parses(f.0, f.1, LF, t);
        assert(acc.push(f) =~= acc + r);
    } else {
        let tail = r.skip(1);
        let t2 = record_text(tail) + seq![LF] + t;
        assert(s =~= field_text(f) + seq![TAB] + t2);
        lemma_field_text_parses(f.0, f.1, TAB, t2);
        assert(t2.len() > 0);
        assert(t2.len() < s.len());
        assert(fields_well_formed(tail)) by {
            assert forall|i: int| 0 <= i < tail.len() implies is_label((#[trigger] tail[i]).0)
                && is_value(tail[i].1) by {
                assert(tail[i] == r[i + 1]);
            }
        }
        assert(grown + tail =~= acc + r);
        lemma_record_text_parses(grown, tail, t);
    }
}

/// The text of a valid document parses to the records `acc` and then the
/// records of the document, and nothing is left.
pub proof fn lemma_document_text_parses(acc: DocumentModel, d: DocumentModel)
    requires
        valid_document(d),
    ensures
        document_from(acc, document_text(d)) == (
            Ok::<DocumentModel, ParseError>(acc + d),
            Seq::<u8>::empty(),
        ),
    decreases d.len(),
{
    let s = document_text(d);
    if d.len() == 0 {
        assert(acc + d =~= acc);
    } else {
        let r = d[0];
        let tail = d.skip(1);
        let t = document_text(tail);
        assert(valid_record(r));
        assert(valid_document(tail)) by {
            assert forall|i: int| 0 <= i < tail.len() implies valid_record(#[trigger] tail[i]) by {
                assert(tail[i] == d[i + 1]);
            }
        }
        lemma_document_text_start(tail);
        lemma_record_text_start(r);
        assert(Seq::<FieldModel>::empty() + r =~= r);
        lemma_record_text_parses(Seq::empty(), r, t);
        assert(s == record_text(r) + seq![LF] + t);
        assert(record_at(s).0 == Ok::<(RecordModel, Delimiter), ParseError>(
            (r, delimiter_seen(LF, t)),
        ));
        assert(record_at(s).1 == t);
        assert(t.len() < s.len());
        lemma_document_text_parses(acc.push(r), tail);
        assert(acc.push(r) + tail =~= acc + d);
    }
}

/// Every document that the parser makes is valid: each record has a field,
/// no label twice, and only well-formed labels and values.
pub proof fn lemma_parsed_document_is_valid(s: Seq<u8>)
    ensures
        document_at(s).0 matches Ok(d) ==> valid_document(d),
{
    lemma_document_from(Seq::empty(), s);
}

/// The text of a valid document parses to that document, and nothing is left.
pub proof fn lemma_written_document_parses_back(d: DocumentModel)
    requires
        valid_document(d),
    ensures
        document_at(document_text(d)) == (Ok::<DocumentModel, ParseError>(d), Seq::<u8>::empty()),
{
    lemma_document_text_parses(Seq::empty(), d);
    assert(Seq::<RecordModel>::empty() + d =~= d);
}

/// Round trip: where the bytes `s` parse to the document `d`, the text that
/// `d` is written as parses to `d` again, with every field in its place.
pub proof fn lemma_roundtrip(s: Seq<u8>, d: DocumentModel)
    requires
        document_at(s).0 == Ok::<DocumentModel, ParseError>(d),
    ensures
        document_at(document_text(d)).0 == Ok::<DocumentModel, ParseError>(d),
{
    lemma_parsed_document_is_valid(s);
    lemma_written_document_parses_back(d);
}

} // verus!
