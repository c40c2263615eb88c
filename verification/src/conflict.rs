//! Conflict resolution for semantic triples: a new fact is compared with the
//! live facts of the same subject and normalised predicate.
use vstd::prelude::*;
use crate::config::ConflictConfig;
use crate::memory::{Memory, opt_view};
use crate::pipeline::{CoreError, opt_or_empty};
use crate::similarity::{
    F32_ONE, f32_ge, f32_lt, f32_bits_ge, f32_bits_lt, jaro_winkler_bits, jaro_winkler_of,
    narrow_unit, narrow_unit_bits,
};
use crate::text::{chars_eq, chars_of, trim_lowercase, trimmed_lowercase};

verus! {

/// How a new object relates to the existing facts.
pub enum Classification {
    NoConflict,
    /// Same object; the id of the existing fact and the similarity (`f32` bits).
    Duplicate(String, u32),
    /// Clearly a different object: the existing fact is superseded.
    Update(String),
    /// Neither clearly the same nor clearly different.
    Ambiguous { existing_id: String, ratio: u32 },
    /// Several live facts match; their ids.
    MultiMatch(Vec<String>),
}

/// Ids of a list of memories.
pub open spec fn memory_ids(ms: Seq<Memory>) -> Seq<Seq<char>> {
    ms.map_values(|m: Memory| m.id@)
}

/// Similarity of two normalised objects: Jaro-Winkler narrowed to `f32`.
pub open spec fn object_ratio(a: Seq<char>, b: Seq<char>) -> u32 {
    narrow_unit(jaro_winkler_of(a, b))
}

/// The classification `classify` gives, described on views.
pub open spec fn classified(c: Classification, incoming: Seq<char>, existing: Seq<Memory>, config: ConflictConfig) -> bool {
    if existing.len() == 0 {
        c is NoConflict
    } else if existing.len() > 1 {
        c matches Classification::MultiMatch(ids) && ids.deep_view() == memory_ids(existing)
    } else {
        let id = existing[0].id@;
        let ni = trimmed_lowercase(incoming);
        let ne = trimmed_lowercase(opt_or_empty(opt_view(existing[0].object)));
        if ni == ne {
            c matches Classification::Duplicate(i, s) && i@ == id && s == F32_ONE
        } else {
            let ratio = object_ratio(ni, ne);
            if f32_ge(ratio, config.object_fuzzy_duplicate) {
                c matches Classification::Duplicate(i, s) && i@ == id && s == ratio
            } else if f32_lt(ratio, config.object_fuzzy_update) {
                c matches Classification::Update(i) && i@ == id
            } else {
                c matches Classification::Ambiguous { existing_id, ratio: r } && existing_id@ == id
                    && r == ratio
            }
        }
    }
}

/// Compares the new object with the existing live facts of the same subject
/// and normalised predicate. Objects are compared trimmed and lower-cased;
/// equal ones are duplicates with similarity 1.0, others by Jaro-Winkler
/// against the configured thresholds.
pub fn classify(incoming_object: &str, existing: &[Memory], config: &ConflictConfig) -> (c:
    Classification)
    ensures
        classified(c, incoming_object@, existing@, *config),
{
    if existing.len() == 0 {
        return Classification::NoConflict;
    }
    if existing.len() > 1 {
        let mut ids: Vec<String> = Vec::new();
        let mut i: usize = 0;
        while i < existing.len()
            invariant
                i <= existing.len(),
                ids@.len() == i,
                forall|k: int| 0 <= k < i ==> #[trigger] ids@[k]@ == existing@[k].id@,
            decreases existing.len() - i,
        {
            ids.push(existing[i].id.clone());
            i = i + 1;
        }
        assert(ids.deep_view() =~= memory_ids(existing@));
        return Classification::MultiMatch(ids);
    }
    let candidate = &existing[0];
    let norm_in = trim_lowercase(incoming_object);
    let norm_ex = match &candidate.object {
        Some(o) => trim_lowercase(o.as_str()),
        None => trim_lowercase(""),
    };
    proof {
        reveal_strlit("");
        assert(""@ =~= Seq::<char>::empty());
    }
    let a = chars_of(norm_in.as_str());
    let b = chars_of(norm_ex.as_str());
    if chars_eq(&a, &b) {
        return Classification::Duplicate(candidate.id.clone(), F32_ONE);
    }
    let ratio = narrow_unit_bits(jaro_winkler_bits(norm_in.as_str(), norm_ex.as_str()));
    if f32_bits_ge(ratio, config.object_fuzzy_duplicate) {
        Classification::Duplicate(candidate.id.clone(), ratio)
    } else if f32_bits_lt(ratio, config.object_fuzzy_update) {
        Classification::Update(candidate.id.clone())
    } else {
        Classification::Ambiguous { existing_id: candidate.id.clone(), ratio }
    }
}

/// How a new object is classified against the live facts of its subject and
/// predicate. None: no conflict. Several: a multi-match naming all of them.
/// One: objects compare trimmed and lower-cased; equal objects are a
/// duplicate with similarity 1.0; otherwise the Jaro-Winkler ratio (narrowed
/// to `f32`) at or above the duplicate threshold makes a duplicate with that
/// ratio, below the update threshold an update of that fact, and anything
/// between is ambiguous.
pub proof fn lemma_classification_rules(
    c: Classification,
    incoming: Seq<char>,
    existing: Seq<Memory>,
    config: ConflictConfig,
)
    requires
        classified(c, incoming, existing, config),
    ensures
        existing.len() == 0 ==> c is NoConflict,
        existing.len() > 1 ==> (c matches Classification::MultiMatch(ids) && ids.deep_view() == existing.map_values(
            |m: Memory| m.id@,
        )),
        existing.len() == 1 ==> {
            let id = existing[0].id@;
            let ni = trimmed_lowercase(incoming);
            let ne = trimmed_lowercase(
                match existing[0].object {
                    Some(o) => o@,
                    None => Seq::empty(),
                },
            );
            let ratio = narrow_unit(jaro_winkler_of(ni, ne));
            &&& ni == ne ==> (c matches Classification::Duplicate(i, s) && i@ == id && s == F32_ONE)
            &&& (ni != ne && f32_ge(ratio, config.object_fuzzy_duplicate)) ==> (c matches Classification::Duplicate(
                i,
                s,
            ) && i@ == id && s == ratio)
            &&& (ni != ne && !f32_ge(ratio, config.object_fuzzy_duplicate) && f32_lt(ratio, config.object_fuzzy_update))
                ==> (c matches Classification::Update(i) && i@ == id)
            &&& (ni != ne && !f32_ge(ratio, config.object_fuzzy_duplicate) && !f32_lt(
                ratio,
                config.object_fuzzy_update,
            )) ==> (c matches Classification::Ambiguous { existing_id, ratio: r } && existing_id@ == id && r == ratio)
        },
{
    if existing.len() == 1 {
        assert(opt_or_empty(opt_view(existing[0].object)) == match existing[0].object {
            Some(o) => o@,
            None => Seq::<char>::empty(),
        });
    }
}

/// What the store pipeline does with a classification: continue, possibly
/// superseding an existing fact (`Ok(Some(id))`), or reject.
pub fn resolve_conflict(c: Classification) -> (r: Result<Option<String>, CoreError>)
    ensures
        match c {
            Classification::NoConflict => r matches Ok(None),
            Classification::Update(id) => r matches Ok(Some(s)) && s@ == id@,
            Classification::Duplicate(id, s) => r matches Err(CoreError::Duplicate { existing_id, similarity })
                && existing_id@ == id@ && similarity == s,
            Classification::Ambiguous { existing_id, ratio } => r matches Err(
                CoreError::ConflictAmbiguous { existing_id: e, ratio: q },
            ) && e@ == existing_id@ && q == ratio,
            Classification::MultiMatch(ids) => r matches Err(CoreError::MultiMatchConflict { existing_ids })
                && existing_ids.deep_view() == ids.deep_view(),
        },
{
    match c {
        Classification::NoConflict => Ok(None),
        Classification::Duplicate(existing_id, similarity) => Err(
            CoreError::Duplicate { existing_id, similarity },
        ),
        Classification::Update(existing_id) => Ok(Some(existing_id)),
        Classification::Ambiguous { existing_id, ratio } => Err(
            CoreError::ConflictAmbiguous { existing_id, ratio },
        ),
        Classification::MultiMatch(existing_ids) => Err(CoreError::MultiMatchConflict { existing_ids }),
    }
}

} // verus!
