//! Entity resolution: the decisions that map a mentioned name to a known
//! entity, or to a new one.
use vstd::prelude::*;
use crate::access_tracker::strings_view;
use crate::memory::Entity;
use crate::pipeline::CoreError;
use crate::similarity::{f32_gt, f32_bits_gt, f64_gt, f64_bits_gt, jaro_winkler_bits, jaro_winkler_of, total_key, total_key_of};
use crate::text::{normalize_text, normalized_text, str_eq};

verus! {

/// Bits of `0.85_f64`: a fuzzy name match must score strictly above it.
pub const FUZZY_MATCH_THRESHOLD: u64 = 0x3feb_3333_3333_3333;
/// Bits of `0.92_f32`: an embedding match must score strictly above it.
pub const EMBEDDING_MATCH_THRESHOLD: u32 = 0x3f6b_851f;
/// Bits of `0.80_f32`: scores above it and up to the match threshold are
/// ambiguous; such names get an entity of their own.
pub const AMBIGUOUS_MATCH_THRESHOLD: u32 = 0x3f4c_cccd;

/// The name a mention resolves under: trimmed, lower-cased, separators and
/// white space collapsed; a name that normalises to nothing is refused.
pub fn entity_lookup_name(name: &str) -> (r: Result<String, CoreError>)
    ensures
        match r {
            Ok(n) => n@ == normalized_text(name@) && n@.len() > 0,
            Err(e) => normalized_text(name@).len() == 0 && (e matches CoreError::Validation(m)
                && m@ == "empty entity name"@),
        },
{
    let n = normalize_text(name);
    if n.as_str().is_empty() {
        proof {
            reveal_strlit("empty entity name");
        }
        return Err(CoreError::Validation(String::from_str("empty entity name")));
    }
    Ok(n)
}

/// The names an entity can be matched by: its canonical name, then its
/// aliases.
pub open spec fn match_candidates(e: Entity) -> Seq<Seq<char>> {
    seq![e.name@] + strings_view(e.aliases@)
}

/// Keeps the best candidate so far: one that scores above the threshold
/// replaces the current best unless that one orders strictly higher, so the
/// last of equally good candidates wins.
pub open spec fn keep_best(best: Option<(int, u64)>, i: int, s: u64, threshold: u64) -> Option<(int, u64)> {
    let improves = match best {
        Some(b) => total_key(s) >= total_key(b.1),
        None => true,
    };
    if f64_gt(s, threshold) && improves {
        Some((i, s))
    } else {
        best
    }
}

/// The best match among the candidates `cs` of entity `i`, starting from
/// `best`.
pub open spec fn best_among(best: Option<(int, u64)>, i: int, cs: Seq<Seq<char>>, name: Seq<char>, threshold: u64) -> Option<(int, u64)>
    decreases cs.len(),
{
    if cs.len() == 0 {
        best
    } else {
        keep_best(best_among(best, i, cs.drop_last(), name, threshold), i, jaro_winkler_of(cs.last(), name), threshold)
    }
}

/// The entity (by index) whose name or alias is most similar to `name`,
/// scoring strictly above `threshold`, with its score; later candidates win
/// ties.
pub open spec fn best_fuzzy(es: Seq<Entity>, name: Seq<char>, threshold: u64) -> Option<(int, u64)>
    decreases es.len(),
{
    if es.len() == 0 {
        None
    } else {
        best_among(best_fuzzy(es.drop_last(), name, threshold), es.len() - 1, match_candidates(es.last()), name, threshold)
    }
}

/// Finds the entity whose canonical name or alias is most similar to `name`
/// (Jaro-Winkler of the candidate against `name`), scoring strictly above
/// `threshold` (bits of an `f64`); returns its index and the score's bits.
pub fn best_fuzzy_match(name: &str, entities: &[Entity], threshold: u64) -> (r: Option<(usize, u64)>)
    ensures
        match r {
            Some((i, s)) => best_fuzzy(entities@, name@, threshold) == Some((i as int, s)),
            None => best_fuzzy(entities@, name@, threshold) is None,
        },
{
    let mut best: Option<(usize, u64)> = None;
    let mut i: usize = 0;
    while i < entities.len()
        invariant
            i <= entities.len(),
            match best {
                Some((j, s)) => best_fuzzy(entities@.take(i as int), name@, threshold) == Some((j as int, s)),
                None => best_fuzzy(entities@.take(i as int), name@, threshold) is None,
            },
        decreases entities.len() - i,
    {
        let e = &entities[i];
        let ghost cs = match_candidates(*e);
        let ghost start = best_fuzzy(entities@.take(i as int), name@, threshold);
        proof {
            assert(entities@.take(i + 1).drop_last() =~= entities@.take(i as int));
            assert(entities@.take(i + 1).last() == *e);
        }
        let s0 = jaro_winkler_bits(e.name.as_str(), name);
        proof {
            assert(cs.take(1).drop_last() =~= Seq::<Seq<char>>::empty());
            assert(cs.take(1).last() == e.name@);
        }
        let better0 = match best {
            None => true,
            Some((_, bs)) => total_key_of(s0) >= total_key_of(bs),
        };
        if f64_bits_gt(s0, threshold) && better0 {
            best = Some((i, s0));
        }
        proof {
            assert(best_among(start, i as int, cs.take(1).drop_last(), name@, threshold) == start);
            assert(best_among(start, i as int, cs.take(1), name@, threshold) == keep_best(start, i as int, s0, threshold));
        }
        let mut k: usize = 0;
        while k < e.aliases.len()
            invariant
                i < entities.len(),
                *e == entities@[i as int],
                cs == match_candidates(*e),
                k <= e.aliases.len(),
                match best {
                    Some((j, s)) => best_among(start, i as int, cs.take(k + 1), name@, threshold) == Some((j as int, s)),
                    None => best_among(start, i as int, cs.take(k + 1), name@, threshold) is None,
                },
            decreases e.aliases.len() - k,
        {
            let s = jaro_winkler_bits(e.aliases[k].as_str(), name);
            proof {
                assert(cs.take(k + 2).drop_last() =~= cs.take(k + 1));
                assert(cs.take(k + 2).last() == e.aliases@[k as int]@);
            }
            let better = match best {
                None => true,
                Some((_, bs)) => total_key_of(s) >= total_key_of(bs),
            };
            if f64_bits_gt(s, threshold) && better {
                best = Some((i, s));
            }
            k = k + 1;
        }
        assert(cs.take(e.aliases.len() + 1) =~= cs);
        i = i + 1;
    }
    assert(entities@.take(entities.len() as int) =~= entities@);
    best
}

proof fn lemma_best_among(best: Option<(int, u64)>, i: int, cs: Seq<Seq<char>>, name: Seq<char>, threshold: u64)
    ensures
        best is Some ==> best_among(best, i, cs, name, threshold) is Some && total_key(
            best_among(best, i, cs, name, threshold).unwrap().1,
        ) >= total_key(best.unwrap().1),
        best_among(best, i, cs, name, threshold) is None ==> best is None,
        best_among(best, i, cs, name, threshold) matches Some(r) ==> (Some(r) == best || (r.0 == i && f64_gt(
            r.1,
            threshold,
        ) && exists|m: int| 0 <= m < cs.len() && jaro_winkler_of(cs[m], name) == r.1)),
        forall|m: int|
            0 <= m < cs.len() && f64_gt(#[trigger] jaro_winkler_of(cs[m], name), threshold) ==> best_among(
                best,
                i,
                cs,
                name,
                threshold,
            ) is Some && total_key(best_among(best, i, cs, name, threshold).unwrap().1) >= total_key(jaro_winkler_of(cs[m], name)),
    decreases cs.len(),
{
    if cs.len() > 0 {
        let p = cs.drop_last();
        lemma_best_among(best, i, p, name, threshold);
        let prev = best_among(best, i, p, name, threshold);
        let r = best_among(best, i, cs, name, threshold);
        assert(r == keep_best(prev, i, jaro_winkler_of(cs.last(), name), threshold));
        if let Some(rr) = r {
            if Some(rr) != best && Some(rr) != prev {
                assert(jaro_winkler_of(cs[cs.len() - 1], name) == rr.1);
            } else if Some(rr) != best {
                let m = choose|m: int| 0 <= m < p.len() && jaro_winkler_of(p[m], name) == rr.1;
                assert(cs[m] == p[m]);
            }
        }
        assert forall|m: int| 0 <= m < cs.len() && f64_gt(#[trigger] jaro_winkler_of(cs[m], name), threshold) implies r is Some
            && total_key(r.unwrap().1) >= total_key(jaro_winkler_of(cs[m], name)) by {
            if m < p.len() {
                assert(cs[m] == p[m]);
            }
        }
    }
}

/// The fuzzy match is the best one: when some name or alias of some entity
/// scores strictly above the threshold, a match is found, scoring at least
/// as high (in `total_cmp` order) as every such candidate, and its score is
/// the score of a name or alias of the entity it returns; when none does,
/// there is no match.
pub proof fn lemma_best_fuzzy_is_best(es: Seq<Entity>, name: Seq<char>, threshold: u64)
    ensures
        best_fuzzy(es, name, threshold) matches Some(r) ==> 0 <= r.0 < es.len() && f64_gt(r.1, threshold) && exists|m: int|
            0 <= m < match_candidates(es[r.0]).len() && jaro_winkler_of(match_candidates(es[r.0])[m], name) == r.1,
        forall|k: int, m: int|
            0 <= k < es.len() && 0 <= m < match_candidates(es[k]).len() && f64_gt(
                #[trigger] jaro_winkler_of(match_candidates(es[k])[m], name),
                threshold,
            ) ==> best_fuzzy(es, name, threshold) is Some && total_key(best_fuzzy(es, name, threshold).unwrap().1) >= total_key(
                jaro_winkler_of(match_candidates(es[k])[m], name),
            ),
    decreases es.len(),
{
    if es.len() > 0 {
        let p = es.drop_last();
        let n = es.len() - 1;
        lemma_best_fuzzy_is_best(p, name, threshold);
        let prev = best_fuzzy(p, name, threshold);
        let cs = match_candidates(es.last());
        lemma_best_among(prev, n, cs, name, threshold);
        let r = best_fuzzy(es, name, threshold);
        assert(r == best_among(prev, n, cs, name, threshold));
        assert(es[n] == es.last());
        if let Some(rr) = r {
            if Some(rr) == prev {
                assert(es[rr.0] == p[rr.0]);
            }
        }
        assert forall|k: int, m: int|
            0 <= k < es.len() && 0 <= m < match_candidates(es[k]).len() && f64_gt(
                #[trigger] jaro_winkler_of(match_candidates(es[k])[m], name),
                threshold,
            ) implies r is Some && total_key(r.unwrap().1) >= total_key(jaro_winkler_of(match_candidates(es[k])[m], name)) by {
            if k < n {
                assert(es[k] == p[k]);
            } else {
                assert(match_candidates(es[k]) == cs);
            }
        }
    }
}

/// Index of the first entity whose id is `point_id`.
pub fn find_entity_by_point_id(entities: &[Entity], point_id: &str) -> (r: Option<usize>)
    ensures
        match r {
            Some(i) => i < entities@.len() && entities@[i as int].id@ == point_id@ && forall|j: int|
                0 <= j < i ==> entities@[j].id@ != point_id@,
            None => forall|j: int| 0 <= j < entities@.len() ==> entities@[j].id@ != point_id@,
        },
{
    let mut i: usize = 0;
    while i < entities.len()
        invariant
            i <= entities.len(),
            forall|j: int| 0 <= j < i ==> entities@[j].id@ != point_id@,
        decreases entities.len() - i,
    {
        if str_eq(entities[i].id.as_str(), point_id) {
            return Some(i);
        }
        i = i + 1;
    }
    None
}

/// What the nearest entity vector means for a name that matched no entity
/// by name.
#[derive(Clone, Copy, Debug, PartialEq, Eq, Structural)]
pub enum EmbeddingMatch {
    /// The name is another name of the entity at this index.
    Existing(usize),
    /// The name gets an entity of its own.
    Create,
}

/// Decides on the nearest entity vector, given as its point id and the bits
/// of its `f32` score: a score strictly above 0.92 whose point is a known
/// entity matches that entity; anything else, the ambiguous range above 0.80
/// included, creates a new entity.
pub fn embedding_match(nearest: Option<(String, u32)>, entities: &[Entity]) -> (r: EmbeddingMatch)
    ensures
        match nearest {
            Some((pid, score)) => if f32_gt(score, EMBEDDING_MATCH_THRESHOLD) && exists|j: int|
                0 <= j < entities@.len() && entities@[j].id@ == pid@ {
                r matches EmbeddingMatch::Existing(i) && i < entities@.len() && entities@[i as int].id@ == pid@
                    && forall|j: int| 0 <= j < i ==> entities@[j].id@ != pid@
            } else {
                r == EmbeddingMatch::Create
            },
            None => r == EmbeddingMatch::Create,
        },
{
    match nearest {
        Some((pid, score)) => {
            if f32_bits_gt(score, EMBEDDING_MATCH_THRESHOLD) {
                match find_entity_by_point_id(entities, pid.as_str()) {
                    Some(i) => EmbeddingMatch::Existing(i),
                    None => EmbeddingMatch::Create,
                }
            } else {
                EmbeddingMatch::Create
            }
        },
        None => EmbeddingMatch::Create,
    }
}

} // verus!
