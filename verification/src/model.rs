use vstd::prelude::*;
use crate::engine::block::field_column::FieldSample;
use crate::text::str_eq;

verus! {

/// The value of one field of a data point. A float is held as its IEEE-754
/// bit pattern.
#[derive(Debug, PartialEq, Eq)]
pub enum FieldValue {
    Float(u64),
    Integer(i64),
    String(String),
    Bool(bool),
}

impl FieldValue {
    /// A copy of the value.
    pub fn duplicate(&self) -> (r: Self)
        ensures
            r == *self,
    {
        match self {
            FieldValue::Float(b) => FieldValue::Float(*b),
            FieldValue::Integer(i) => FieldValue::Integer(*i),
            FieldValue::String(s) => FieldValue::String(s.clone()),
            FieldValue::Bool(b) => FieldValue::Bool(*b),
        }
    }
}

/// One point to write: its metric, its tags (key order), its named field
/// values and its timestamp in nanoseconds.
#[derive(Debug, PartialEq, Eq)]
pub struct DataPoint {
    pub metric: String,
    pub tags: Vec<(String, String)>,
    pub fields: Vec<(String, FieldValue)>,
    pub timestamp: i64,
}

/// The bit pattern of the float 1.0.
pub const ONE_BITS: u64 = 0x3FF0_0000_0000_0000u64;

/// The numeric reading of a field value: a float as itself, an integer as
/// itself, a boolean as 1.0 or 0.0; a string has none.
pub open spec fn field_sample_of(v: FieldValue) -> Option<FieldSample> {
    match v {
        FieldValue::Float(b) => Some(FieldSample::Float(b)),
        FieldValue::Integer(i) => Some(FieldSample::Integer(i)),
        FieldValue::Bool(b) => Some(FieldSample::Float(if b { ONE_BITS } else { 0 })),
        FieldValue::String(_) => None,
    }
}

impl FieldValue {
    /// The numeric reading of the value, if it has one.
    pub fn as_sample(&self) -> (r: Option<FieldSample>)
        ensures
            r == field_sample_of(*self),
    {
        match self {
            FieldValue::Float(b) => Some(FieldSample::Float(*b)),
            FieldValue::Integer(i) => Some(FieldSample::Integer(*i)),
            FieldValue::Bool(b) => Some(FieldSample::Float(if *b { ONE_BITS } else { 0 })),
            FieldValue::String(_) => None,
        }
    }
}

/// The value stored under `name`: the first of that name.
pub open spec fn find_value_spec(fields: Seq<(String, FieldValue)>, name: Seq<char>) -> Option<FieldValue>
    decreases fields.len(),
{
    if fields.len() == 0 {
        None
    } else if fields[0].0@ == name {
        Some(fields[0].1)
    } else {
        find_value_spec(fields.drop_first(), name)
    }
}

/// Finds the value stored under `name`.
pub fn find_value<'a>(fields: &'a Vec<(String, FieldValue)>, name: &str) -> (r: Option<&'a FieldValue>)
    ensures
        match r {
            Some(v) => find_value_spec(fields@, name@) == Some(*v),
            None => find_value_spec(fields@, name@) is None,
        },
{
    let mut i: usize = 0;
    assert(fields@.skip(0) =~= fields@);
    while i < fields.len()
        invariant
            i <= fields.len(),
            find_value_spec(fields@, name@) == find_value_spec(fields@.skip(i as int), name@),
        decreases fields.len() - i,
    {
        assert(fields@.skip(i as int).drop_first() =~= fields@.skip(i as int + 1));
        if str_eq(fields[i].0.as_str(), name) {
            return Some(&fields[i].1);
        }
        i = i + 1;
    }
    None
}

/// A copy of a list of named field values.
pub fn clone_fields(fields: &Vec<(String, FieldValue)>) -> (r: Vec<(String, FieldValue)>)
    ensures
        r@ == fields@,
{
    let mut r: Vec<(String, FieldValue)> = Vec::new();
    let mut i: usize = 0;
    while i < fields.len()
        invariant
            i <= fields.len(),
            r@ == fields@.take(i as int),
        decreases fields.len() - i,
    {
        let k = fields[i].0.clone();
        let v = fields[i].1.duplicate();
        r.push((k, v));
        i = i + 1;
        assert(r@ =~= fields@.take(i as int));
    }
    assert(fields@.take(fields.len() as int) =~= fields@);
    r
}

/// A copy of a list of string pairs.
pub fn clone_pairs(pairs: &Vec<(String, String)>) -> (r: Vec<(String, String)>)
    ensures
        r@ == pairs@,
{
    let mut r: Vec<(String, String)> = Vec::new();
    let mut i: usize = 0;
    while i < pairs.len()
        invariant
            i <= pairs.len(),
            r@ == pairs@.take(i as int),
        decreases pairs.len() - i,
    {
        let k = pairs[i].0.clone();
        let v = pairs[i].1.clone();
        r.push((k, v));
        i = i + 1;
        assert(r@ =~= pairs@.take(i as int));
    }
    assert(pairs@.take(pairs.len() as int) =~= pairs@);
    r
}

} // verus!
