//! The record model the query engine evaluates over: a typed field value,
//! a record of named fields with an id and a timestamp, and the capability
//! interface entity types implement.

use vstd::prelude::*;

verus! {

/// A typed field value; comparisons are exact and type-aware.
pub enum FieldValue {
    /// An explicit null.
    Null,
    /// A boolean.
    Boolean(bool),
    /// A signed integer.
    Integer(i64),
    /// A text value; the only kind text search looks into.
    Text(String),
}

/// Exact, type-aware equality of two field values; text compares by
/// content.
pub open spec fn fv_eq(a: FieldValue, b: FieldValue) -> bool {
    match (a, b) {
        (FieldValue::Null, FieldValue::Null) => true,
        (FieldValue::Boolean(x), FieldValue::Boolean(y)) => x == y,
        (FieldValue::Integer(x), FieldValue::Integer(y)) => x == y,
        (FieldValue::Text(x), FieldValue::Text(y)) => x@ == y@,
        _ => false,
    }
}

/// Executable exact equality of two field values.
pub fn value_eq(a: &FieldValue, b: &FieldValue) -> (r: bool)
    ensures
        r == fv_eq(*a, *b),
{
    match (a, b) {
        (FieldValue::Null, FieldValue::Null) => true,
        (FieldValue::Boolean(x), FieldValue::Boolean(y)) => *x == *y,
        (FieldValue::Integer(x), FieldValue::Integer(y)) => *x == *y,
        (FieldValue::Text(x), FieldValue::Text(y)) => x.eq(y),
        _ => false,
    }
}

/// One entity as the query engine sees it: an id, the designated
/// timestamp, and named field values.
pub struct Record {
    /// The entity id.
    pub id: u128,
    /// The designated timestamp field: sorting and date-range filtering
    /// read it.
    pub created_at: i64,
    /// The named fields, first binding of a name wins.
    pub fields: Vec<(String, FieldValue)>,
}

/// First-match lookup of a field by name.
pub open spec fn record_field(fields: Seq<(String, FieldValue)>, name: Seq<char>)
    -> Option<FieldValue>
    decreases fields.len(),
{
    if fields.len() == 0 {
        None
    } else if fields[0].0@ == name {
        Some(fields[0].1)
    } else {
        record_field(fields.subrange(1, fields.len() as int), name)
    }
}

proof fn lemma_record_field_present(fields: Seq<(String, FieldValue)>, name: Seq<char>, i: int)
    requires
        0 <= i < fields.len(),
        fields[i].0@ == name,
        forall|j: int| 0 <= j < i ==> fields[j].0@ != name,
    ensures
        record_field(fields, name) == Some(fields[i].1),
    decreases fields.len(),
{
    if i > 0 {
        lemma_record_field_present(fields.subrange(1, fields.len() as int), name, i - 1);
    }
}

proof fn lemma_record_field_absent(fields: Seq<(String, FieldValue)>, name: Seq<char>)
    requires
        forall|j: int| 0 <= j < fields.len() ==> fields[j].0@ != name,
    ensures
        record_field(fields, name) is None,
    decreases fields.len(),
{
    if fields.len() > 0 {
        lemma_record_field_absent(fields.subrange(1, fields.len() as int), name);
    }
}

impl Record {
    /// The value of the field called `name`, if the record has one.
    #[verifier::loop_isolation(false)]
    pub fn field(&self, name: &String) -> (r: Option<&FieldValue>)
        ensures
            match r {
                Some(v) => record_field(self.fields@, name@) == Some(*v),
                None => record_field(self.fields@, name@) is None,
            },
    {
        let mut i: usize = 0;
        while i < self.fields.len()
            invariant
                i <= self.fields@.len(),
                forall|j: int| 0 <= j < i ==> self.fields@[j].0@ != name@,
            decreases self.fields@.len() - i,
        {
            if self.fields[i].0.eq(name) {
                proof {
                    lemma_record_field_present(self.fields@, name@, i as int);
                }
                return Some(&self.fields[i].1);
            }
            i += 1;
        }
        proof {
            lemma_record_field_absent(self.fields@, name@);
        }
        None
    }
}

/// The capability interface of entity types: an identity and a designated
/// timestamp, stated both at the specification and the executable level.
/// The cache and query layers are written against this interface; each
/// entity type supplies a concrete implementation.
pub trait IEntity {
    /// The entity's id, at the specification level.
    spec fn spec_id(&self) -> u128;

    /// The designated timestamp, at the specification level.
    spec fn spec_created_at(&self) -> i64;

    /// The entity's id.
    fn entity_id(&self) -> (r: u128)
        ensures
            r == self.spec_id(),
    ;

    /// The designated timestamp.
    fn entity_created_at(&self) -> (r: i64)
        ensures
            r == self.spec_created_at(),
    ;
}

impl IEntity for Record {
    open spec fn spec_id(&self) -> u128 {
        self.id
    }

    open spec fn spec_created_at(&self) -> i64 {
        self.created_at
    }

    fn entity_id(&self) -> (r: u128) {
        self.id
    }

    fn entity_created_at(&self) -> (r: i64) {
        self.created_at
    }
}

} // verus!
