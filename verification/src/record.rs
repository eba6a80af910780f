//! Fields and records: the data that a line of LTSV holds.

use vstd::prelude::*;

verus! {

/// A field as mathematics: its label and its value.
pub type FieldModel = (Seq<u8>, Seq<u8>);

/// A record as mathematics: its fields in the order in which the record hands them out.
pub type RecordModel = Seq<FieldModel>;

/// Some field of `r` has the label `label`.
pub open spec fn has_label(r: RecordModel, label: Seq<u8>) -> bool {
    exists|i: int| 0 <= i < r.len() && (#[trigger] r[i]).0 == label
}

/// The place of a field of `r` with the label `label`, if there is one.
pub open spec fn label_index(r: RecordModel, label: Seq<u8>) -> int {
    choose|i: int| 0 <= i < r.len() && (#[trigger] r[i]).0 == label
}

/// No two fields of `r` have the same label.
pub open spec fn labels_unique(r: RecordModel) -> bool {
    forall|i: int, j: int| 0 <= i < j < r.len() ==> (#[trigger] r[i]).0 != (#[trigger] r[j]).0
}

/// `r` after the field `label`, `value` went in: a field with that label keeps
/// its place and gets the new value, a new label goes to the end.
pub open spec fn record_insert(r: RecordModel, label: Seq<u8>, value: Seq<u8>) -> RecordModel {
    if has_label(r, label) {
        r.update(label_index(r, label), (label, value))
    } else {
        r.push((label, value))
    }
}

/// The mapping from label to value that the fields of `r` make up.
pub open spec fn record_map(r: RecordModel) -> Map<Seq<u8>, Seq<u8>> {
    Map::new(|l: Seq<u8>| has_label(r, l), |l: Seq<u8>| r[label_index(r, l)].1)
}

/// Inserting keeps labels unique.
pub proof fn lemma_insert_keeps_unique(r: RecordModel, label: Seq<u8>, value: Seq<u8>)
    requires
        labels_unique(r),
    ensures
        labels_unique(record_insert(r, label, value)),
{
    let r2 = record_insert(r, label, value);
    if has_label(r, label) {
        let k = label_index(r, label);
        assert forall|i: int, j: int| 0 <= i < j < r2.len() implies (#[trigger] r2[i]).0 != (
        #[trigger] r2[j]).0 by {
            assert(r2[i].0 == r[i].0);
            assert(r2[j].0 == r[j].0);
        }
    } else {
        assert forall|i: int, j: int| 0 <= i < j < r2.len() implies (#[trigger] r2[i]).0 != (
        #[trigger] r2[j]).0 by {
            assert(r2[i] == r[i]);
            if j < r.len() {
                assert(r2[j] == r[j]);
            }
        }
    }
}

/// As a mapping, inserting a field into a record with unique labels is the
/// insertion of a key: a later field with the same label overwrites the earlier value.
pub proof fn lemma_insert_is_map_insert(r: RecordModel, label: Seq<u8>, value: Seq<u8>)
    requires
        labels_unique(r),
    ensures
        record_map(record_insert(r, label, value)) == record_map(r).insert(label, value),
{
    let r2 = record_insert(r, label, value);
    lemma_insert_keeps_unique(r, label, value);
    let k = if has_label(r, label) {
        label_index(r, label)
    } else {
        r.len() as int
    };
    assert(r2[k] == (label, value));
    assert(r2.len() > k);
    assert forall|i: int| 0 <= i < r2.len() && i != k implies #[trigger] r2[i] == r[i] && i
        < r.len() by {}
    assert forall|l: Seq<u8>| has_label(r2, l) <==> (l == label || has_label(r, l)) by {
        if has_label(r2, l) {
            let i = label_index(r2, l);
            if i != k {
                assert(r[i].0 == l);
            }
        }
        if l == label {
            assert(r2[k].0 == l);
        } else if has_label(r, l) {
            let i = label_index(r, l);
            assert(r2[i].0 == l);
        }
    }
    assert forall|l: Seq<u8>| has_label(r2, l) implies #[trigger] record_map(r2)[l] == record_map(
        r,
    ).insert(label, value)[l] by {
        let i = label_index(r2, l);
        if l == label {
            assert(r2[k].0 == l);
            assert(i == k);
        } else {
            let j = label_index(r, l);
            assert(r2[j].0 == l);
            assert(r[i].0 == l);
            assert(i == j);
        }
    }
    assert(record_map(r2) =~= record_map(r).insert(label, value));
}

/// Decides whether two byte strings hold the same bytes.
pub fn bytes_eq(a: &[u8], b: &[u8]) -> (r: bool)
    ensures
        r == (a@ == b@),
{
    if a.len() != b.len() {
        return false;
    }
    let mut i: usize = 0;
    while i < a.len()
        invariant
            a.len() == b.len(),
            i <= a.len(),
            forall|k: int| 0 <= k < i ==> a@[k] == b@[k],
        decreases a.len() - i,
    {
        if a[i] != b[i] {
            return false;
        }
        i = i + 1;
    }
    assert(a@ =~= b@);
    true
}

/// A label with its value.
#[derive(Debug, PartialEq, Eq)]
pub struct Field {
    /// The label, as raw bytes.
    pub label: Vec<u8>,
    /// The value, as raw bytes.
    pub value: Vec<u8>,
}

impl View for Field {
    type V = FieldModel;

    open spec fn view(&self) -> FieldModel {
        (self.label@, self.value@)
    }
}

impl Clone for Field {
    fn clone(&self) -> (copy: Self)
        ensures
            copy@ == self@,
    {
        Field { label: self.label.clone(), value: self.value.clone() }
    }
}

/// A mapping from label to value. No label occurs twice; the fields come out
/// in the order in which their labels first went in.
#[derive(Debug)]
pub struct Record {
    fields: Vec<Field>,
}

impl View for Record {
    type V = Map<Seq<u8>, Seq<u8>>;

    open spec fn view(&self) -> Map<Seq<u8>, Seq<u8>> {
        record_map(self.entries())
    }
}

impl Record {
    /// What holds of every record: no label occurs twice.
    #[verifier::type_invariant]
    pub open spec fn no_label_twice(self) -> bool {
        labels_unique(self.entries())
    }

    /// The fields of the record, in the order in which it hands them out.
    pub closed spec fn entries(&self) -> RecordModel {
        self.fields@.map_values(|f: Field| f@)
    }

    /// A record without fields.
    pub fn new() -> (r: Self)
        ensures
            r.entries() == Seq::<FieldModel>::empty(),
    {
        let r = Record { fields: Vec::new() };
        assert(r.entries() =~= Seq::<FieldModel>::empty());
        r
    }

    /// The number of fields.
    pub fn len(&self) -> (n: usize)
        ensures
            n == self.entries().len(),
    {
        self.fields.len()
    }

    /// The field at place `i`.
    pub fn field(&self, i: usize) -> (f: &Field)
        requires
            i < self.entries().len(),
        ensures
            f@ == self.entries()[i as int],
    {
        &self.fields[i]
    }

    /// The place of the field with the label `label`.
    fn position(&self, label: &[u8]) -> (p: Option<usize>)
        ensures
            match p {
                Some(i) => i < self.entries().len() && self.entries()[i as int].0 == label@
                    && label_index(self.entries(), label@) == i,
                None => !has_label(self.entries(), label@),
            },
    {
        proof {
            use_type_invariant(self);
        }
        let mut i: usize = 0;
        while i < self.fields.len()
            invariant
                i <= self.fields.len(),
                labels_unique(self.entries()),
                forall|k: int| 0 <= k < i ==> (#[trigger] self.entries()[k]).0 != label@,
            decreases self.fields.len() - i,
        {
            if bytes_eq(self.fields[i].label.as_slice(), label) {
                proof {
                    let j = label_index(self.entries(), label@);
                    assert(self.entries()[i as int].0 == label@);
                    assert(self.entries()[j].0 == label@);
                }
                return Some(i);
            }
            i = i + 1;
        }
        None
    }

    /// The value that the record holds for `label`.
    pub fn get(&self, label: &[u8]) -> (v: Option<&Vec<u8>>)
        ensures
            match v {
                Some(value) => self@.contains_key(label@) && value@ == self@[label@],
                None => !self@.contains_key(label@),
            },
    {
        match self.position(label) {
            Some(i) => Some(&self.fields[i].value),
            None => None,
        }
    }

    /// Puts the field `label`, `value` into the record. A field with that
    /// label keeps its place and gets the new value.
    pub fn insert(&mut self, label: Vec<u8>, value: Vec<u8>)
        ensures
            final(self).entries() == record_insert(old(self).entries(), label@, value@),
            final(self)@ == old(self)@.insert(label@, value@),
    {
        proof {
            use_type_invariant(&*self);
            lemma_insert_keeps_unique(self.entries(), label@, value@);
            lemma_insert_is_map_insert(self.entries(), label@, value@);
        }
        let ghost before = self.entries();
        let place = self.position(label.as_slice());
        let mut fields: Vec<Field> = Vec::new();
        core::mem::swap(&mut self.fields, &mut fields);
        match place {
            Some(i) => {
                fields.set(i, Field { label, value });
            },
            None => {
                fields.push(Field { label, value });
            },
        }
        assert(fields@.map_values(|f: Field| f@) =~= record_insert(before, label@, value@));
        core::mem::swap(&mut self.fields, &mut fields);
    }

    /// Whether `other` holds every field of this record, with the same value.
    pub fn covered_by(&self, other: &Record) -> (r: bool)
        ensures
            r == self@.submap_of(other@),
    {
        proof {
            use_type_invariant(self);
        }
        let mut i: usize = 0;
        while i < self.fields.len()
            invariant
                i <= self.fields.len(),
                labels_unique(self.entries()),
                forall|k: int|
                    0 <= k < i ==> other@.contains_key((#[trigger] self.entries()[k]).0)
                        && other@[self.entries()[k].0] == self.entries()[k].1,
            decreases self.fields.len() - i,
        {
            let ghost label = self.entries()[i as int].0;
            proof {
                let j = label_index(self.entries(), label);
                assert(self.entries()[i as int].0 == label);
                assert(self.entries()[j].0 == label);
                assert(j == i);
                assert(self@.contains_key(label));
            }
            let same = match other.get(self.fields[i].label.as_slice()) {
                Some(value) => bytes_eq(value.as_slice(), self.fields[i].value.as_slice()),
                None => false,
            };
            if !same {
                return false;
            }
            i = i + 1;
        }
        proof {
            assert forall|l: Seq<u8>| self@.contains_key(l) implies #[trigger] other@.contains_key(
                l,
            ) && self@[l] == other@[l] by {
                let j = label_index(self.entries(), l);
                assert(self.entries()[j].0 == l);
            }
        }
        true
    }
}

impl Clone for Record {
    fn clone(&self) -> (copy: Self)
        ensures
            copy.entries() == self.entries(),
    {
        proof {
            use_type_invariant(self);
        }
        let mut fields: Vec<Field> = Vec::new();
        let mut i: usize = 0;
        while i < self.fields.len()
            invariant
                i <= self.fields.len(),
                fields@.map_values(|f: Field| f@) == self.entries().take(i as int),
            decreases self.fields.len() - i,
        {
            let ghost before = fields@.map_values(|f: Field| f@);
            let field = self.fields[i].clone();
            fields.push(field);
            assert(fields@.map_values(|f: Field| f@) =~= before.push(field@));
            assert(before.push(field@) =~= self.entries().take(i + 1));
            i = i + 1;
        }
        assert(self.entries().take(i as int) =~= self.entries());
        Record { fields }
    }
}

impl PartialEq for Record {
    /// Two records are equal if they hold the same value for the same labels,
    /// in whatever order.
    fn eq(&self, other: &Self) -> (r: bool) {
        let r = self.covered_by(other) && other.covered_by(self);
        proof {
            if r {
                assert(self@ =~= other@);
            }
        }
        r
    }
}

impl vstd::std_specs::cmp::PartialEqSpecImpl for Record {
    open spec fn obeys_eq_spec() -> bool {
        true
    }

    open spec fn eq_spec(&self, other: &Self) -> bool {
        self@ == other@
    }
}

} // verus!
