//! The dynamic record values that every codec of this crate moves.
//!
//! A record is a sequence of fields. A field is a piece of text, a 16-bit or
//! 32-bit unsigned integer, or a dictionary that maps text keys to flat
//! sub-records of scalar fields. The per-type glue that turns a concrete
//! schema type into such a record (and back) is supplied by the caller; this
//! crate states and proves everything over the record form.

use vstd::prelude::*;

verus! {

/// A field of a dictionary sub-record: text or an unsigned integer.
#[derive(Debug, PartialEq)]
pub enum ScalarValue {
    Text(String),
    U16(u16),
    U32(u32),
}

/// One key/value pair of a dictionary field.
#[derive(Debug, PartialEq)]
pub struct DictEntry {
    pub key: String,
    pub value: Vec<ScalarValue>,
}

/// A field of a record.
#[derive(Debug, PartialEq)]
pub enum FieldValue {
    Text(String),
    U16(u16),
    U32(u32),
    Dict(Vec<DictEntry>),
}

/// The unit that codecs encode and decode: an ordered sequence of fields.
#[derive(Debug, PartialEq)]
pub struct Record {
    pub fields: Vec<FieldValue>,
}

/// The mathematical value of a [`ScalarValue`].
pub enum ScalarModel {
    Text(Seq<char>),
    U16(u16),
    U32(u32),
}

/// The mathematical value of a [`DictEntry`].
pub struct EntryModel {
    pub key: Seq<char>,
    pub value: Seq<ScalarModel>,
}

/// The mathematical value of a [`FieldValue`].
pub enum FieldModel {
    Text(Seq<char>),
    U16(u16),
    U32(u32),
    Dict(Seq<EntryModel>),
}

impl View for ScalarValue {
    type V = ScalarModel;

    open spec fn view(&self) -> ScalarModel {
        match self {
            ScalarValue::Text(s) => ScalarModel::Text(s@),
            ScalarValue::U16(x) => ScalarModel::U16(*x),
            ScalarValue::U32(x) => ScalarModel::U32(*x),
        }
    }
}

/// The mathematical value of each scalar in a sequence, in order.
pub open spec fn scalars_model(v: Seq<ScalarValue>) -> Seq<ScalarModel> {
    v.map_values(|s: ScalarValue| s@)
}

impl View for DictEntry {
    type V = EntryModel;

    open spec fn view(&self) -> EntryModel {
        EntryModel { key: self.key@, value: scalars_model(self.value@) }
    }
}

/// The mathematical value of each entry in a sequence, in order.
pub open spec fn entries_model(v: Seq<DictEntry>) -> Seq<EntryModel> {
    v.map_values(|e: DictEntry| e@)
}

impl View for FieldValue {
    type V = FieldModel;

    open spec fn view(&self) -> FieldModel {
        match self {
            FieldValue::Text(s) => FieldModel::Text(s@),
            FieldValue::U16(x) => FieldModel::U16(*x),
            FieldValue::U32(x) => FieldModel::U32(*x),
            FieldValue::Dict(es) => FieldModel::Dict(entries_model(es@)),
        }
    }
}

/// The mathematical value of each field in a sequence, in order.
pub open spec fn fields_model(v: Seq<FieldValue>) -> Seq<FieldModel> {
    v.map_values(|f: FieldValue| f@)
}

impl View for Record {
    type V = Seq<FieldModel>;

    open spec fn view(&self) -> Seq<FieldModel> {
        fields_model(self.fields@)
    }
}

impl Record {
    /// A record with no fields.
    pub fn new() -> (r: Record)
        ensures
            r@ == Seq::<FieldModel>::empty(),
    {
        let r = Record { fields: Vec::new() };
        proof {
            assert(r@ =~= Seq::<FieldModel>::empty());
        }
        r
    }

    /// Appends one more field.
    pub fn push(&mut self, field: FieldValue)
        ensures
            final(self)@ == old(self)@.push(field@),
    {
        let ghost prev = self.fields@;
        self.fields.push(field);
        proof {
            assert(self@ =~= fields_model(prev).push(self.fields@.last()@));
        }
    }
}

fn copy_scalar(s: &ScalarValue) -> (c: ScalarValue)
    ensures
        c@ == s@,
{
    match s {
        ScalarValue::Text(t) => ScalarValue::Text(t.clone()),
        ScalarValue::U16(x) => ScalarValue::U16(*x),
        ScalarValue::U32(x) => ScalarValue::U32(*x),
    }
}

fn copy_scalars(v: &Vec<ScalarValue>) -> (c: Vec<ScalarValue>)
    ensures
        scalars_model(c@) == scalars_model(v@),
{
    let mut c: Vec<ScalarValue> = Vec::new();
    let mut k: usize = 0;
    while k < v.len()
        invariant
            k <= v@.len(),
            c@.len() == k,
            forall|i: int| 0 <= i < k ==> #[trigger] c@[i]@ == v@[i]@,
        decreases v@.len() - k,
    {
        c.push(copy_scalar(vstd::std_specs::vec::vec_index(v, k)));
        k = k + 1;
    }
    proof {
        assert(scalars_model(c@) =~= scalars_model(v@));
    }
    c
}

fn copy_entry(e: &DictEntry) -> (c: DictEntry)
    ensures
        c@ == e@,
{
    DictEntry { key: e.key.clone(), value: copy_scalars(&e.value) }
}

fn copy_field(f: &FieldValue) -> (c: FieldValue)
    ensures
        c@ == f@,
{
    match f {
        FieldValue::Text(t) => FieldValue::Text(t.clone()),
        FieldValue::U16(x) => FieldValue::U16(*x),
        FieldValue::U32(x) => FieldValue::U32(*x),
        FieldValue::Dict(es) => {
            let mut c: Vec<DictEntry> = Vec::new();
            let mut k: usize = 0;
            while k < es.len()
                invariant
                    k <= es@.len(),
                    c@.len() == k,
                    forall|i: int| 0 <= i < k ==> #[trigger] c@[i]@ == es@[i]@,
                decreases es@.len() - k,
            {
                c.push(copy_entry(vstd::std_specs::vec::vec_index(es, k)));
                k = k + 1;
            }
            proof {
                assert(entries_model(c@) =~= entries_model(es@));
            }
            FieldValue::Dict(c)
        },
    }
}

/// A deep copy of a record, owned independently of the original.
pub fn copy_record(r: &Record) -> (c: Record)
    ensures
        c@ == r@,
{
    let mut fields: Vec<FieldValue> = Vec::new();
    let mut k: usize = 0;
    while k < r.fields.len()
        invariant
            k <= r.fields@.len(),
            fields@.len() == k,
            forall|i: int| 0 <= i < k ==> #[trigger] fields@[i]@ == r.fields@[i]@,
        decreases r.fields@.len() - k,
    {
        fields.push(copy_field(vstd::std_specs::vec::vec_index(&r.fields, k)));
        k = k + 1;
    }
    let c = Record { fields };
    proof {
        assert(c@ =~= r@);
    }
    c
}

} // verus!
