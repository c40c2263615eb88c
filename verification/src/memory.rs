//! What the library reads of stored memories and entities. Times are
//! microseconds since the Unix epoch.
use vstd::prelude::*;
use crate::kinds::MemoryType;

verus! {

#[verifier::external_type_specification]
#[verifier::external_body]
pub struct ExJsonValue(serde_json::Value);

/// A stored memory.
pub struct Memory {
    pub id: String,
    pub namespace: String,
    pub memory_type: MemoryType,
    pub content: Option<String>,
    pub subject: Option<String>,
    pub predicate: Option<String>,
    pub object: Option<String>,
    /// Bits of the `f64` confidence in `[0, 1]`.
    pub confidence: u64,
    pub source: Option<String>,
    /// Free-form JSON the caller attached; carried, never read.
    pub context: Option<serde_json::Value>,
    pub entities: Vec<String>,
    pub created_at: i64,
    pub updated_at: i64,
    pub t_valid: Option<i64>,
    pub t_invalid: Option<i64>,
    pub last_accessed: i64,
    pub last_validated: Option<i64>,
    pub access_count: u64,
    pub normalized_predicate: Option<String>,
}

/// A named entity with its aliases.
pub struct Entity {
    pub id: String,
    pub name: String,
    pub aliases: Vec<String>,
    pub entity_type: Option<String>,
    pub created_at: i64,
    pub updated_at: i64,
}

/// Character view of an optional string.
pub open spec fn opt_view(o: Option<String>) -> Option<Seq<char>> {
    match o {
        Some(s) => Some(s@),
        None => None,
    }
}

/// Clone of an optional string.
pub fn clone_opt(o: &Option<String>) -> (r: Option<String>)
    ensures
        opt_view(r) == opt_view(*o),
{
    match o {
        Some(s) => Some(s.clone()),
        None => None,
    }
}

/// Copies caller-supplied JSON with the `Clone` that `serde_json::Value`
/// derives; the contract claims that the copy is the same value.
#[verifier::external_body]
pub(crate) fn clone_json(v: &serde_json::Value) -> (r: serde_json::Value)
    ensures
        r == *v,
{
    v.clone()
}

/// Copy of optional caller-supplied JSON.
pub fn clone_opt_json(o: &Option<serde_json::Value>) -> (r: Option<serde_json::Value>)
    ensures
        r == *o,
{
    match o {
        Some(v) => Some(clone_json(v)),
        None => None,
    }
}

} // verus!
