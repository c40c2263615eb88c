//! Requests and responses of the memory tools, and the small decisions the
//! tools make around their storage calls.
use vstd::prelude::*;
use crate::format::{decimal, decimal_string};
use crate::ids::{parse_uuid, uuid_of};
use crate::kinds::{MemoryType, memory_type_name};
use crate::memory::Memory;
use crate::pipeline::CoreError;
use crate::text::str_eq;
use crate::access_tracker::strings_view;
use crate::recall::Timestamp;

verus! {

pub const DEFAULT_RECALL_LIMIT: usize = 10;
pub const MAX_RECALL_LIMIT: usize = 200;
pub const MIN_RERANK_POOL_SIZE: usize = 20;
pub const DEFAULT_TAXONOMY_LIMIT: usize = 10;
pub const MAX_TAXONOMY_LIMIT: usize = 100;
pub const DEFAULT_REFLECT_LIMIT: u32 = 20;
/// Most memories a scan (stats, reflection) looks at.
pub const MAX_SCAN_MEMORIES: usize = 10_000;

pub struct ForgetRequest {
    pub ids: Vec<String>,
    /// Deprecated, ignored.
    pub cascade: Option<bool>,
}

pub struct ForgetResponse {
    pub message: String,
    pub deleted: Vec<String>,
    pub not_found: Vec<String>,
}

pub struct ReflectRequest {
    pub namespace: String,
    pub limit: Option<u32>,
    pub include_contradictions: bool,
    pub include_stale: bool,
}

pub struct StatsRequest {
    pub namespace: String,
    pub detailed: Option<bool>,
    pub diagnostics: Option<bool>,
}

pub struct TimelineRequest {
    pub entity: String,
    pub namespace: Option<String>,
    pub limit: Option<usize>,
    pub types: Option<Vec<MemoryType>>,
    pub include_invalidated: Option<bool>,
}

pub struct TaxonomyRequest {
    pub namespace: Option<String>,
    pub limit: Option<usize>,
}

pub struct TaxonomyEntityEntry {
    pub name: String,
    pub memory_count: u64,
}

pub struct TaxonomyPredicateEntry {
    pub predicate: String,
    pub count: u64,
}

pub struct TaxonomyResponse {
    pub namespace: String,
    pub total_memories: u64,
    /// Live memories per type.
    pub by_type: Vec<(MemoryType, u64)>,
    pub top_entities: Vec<TaxonomyEntityEntry>,
    pub top_predicates: Vec<TaxonomyPredicateEntry>,
    /// Distinct namespaces with live memories; `None` when the request was
    /// scoped to a namespace.
    pub all_namespaces: Option<Vec<String>>,
}

pub struct StoreResponse {
    pub id: String,
    pub memory_type: String,
    pub superseded: Vec<String>,
}

/// How two contradicting facts were matched.
#[derive(Clone, Copy, Debug, PartialEq, Eq, Structural)]
pub enum ContradictionMatchType {
    ExactPredicate,
    FuzzyPredicate,
    SimilarSubject,
}

pub struct ReflectSummary {
    pub total_scanned: u64,
    pub stale_count: u64,
    pub contradiction_count: u64,
}

#[derive(Clone, Copy, Debug)]
pub struct StalenessDistribution {
    pub fresh: u64,
    pub aging: u64,
    pub stale: u64,
}

#[derive(Clone, Copy, Debug)]
pub struct NeedsAttention {
    pub stale_count: u64,
    pub conflict_count: u64,
    pub unvalidated_count: u64,
}

#[derive(Clone, Copy, Debug)]
pub struct CacheStats {
    pub embedding_hits: u64,
    pub embedding_misses: u64,
    pub result_hits: u64,
    pub result_misses: u64,
    pub embedding_capacity: usize,
    pub embedding_len: usize,
    pub result_capacity: usize,
    pub result_len: usize,
}

/// A pair of live facts about one subject and predicate with different
/// objects.
pub struct Contradiction {
    pub memory_a: String,
    pub memory_b: String,
    pub subject: String,
    pub predicate: String,
}

/// The number of results a recall returns: the requested limit (10 when
/// none) capped at 200.
pub open spec fn recall_limit_of(limit: Option<usize>) -> usize {
    let l = match limit {
        Some(l) => l,
        None => DEFAULT_RECALL_LIMIT,
    };
    if l < MAX_RECALL_LIMIT {
        l
    } else {
        MAX_RECALL_LIMIT
    }
}

pub fn recall_limit(limit: Option<usize>) -> (r: usize)
    ensures
        r == recall_limit_of(limit),
{
    let l = match limit {
        Some(l) => l,
        None => DEFAULT_RECALL_LIMIT,
    };
    if l < MAX_RECALL_LIMIT {
        l
    } else {
        MAX_RECALL_LIMIT
    }
}

/// How many candidates a recall fetches before reranking: at least 20, and
/// twice that unless stale results were asked for, since those are dropped
/// afterwards.
pub fn candidate_pool_size(limit: usize, include_stale: Option<bool>) -> (r: usize)
    requires
        limit <= MAX_RECALL_LIMIT,
    ensures
        r == (if include_stale != Some(true) {
            2 * (if limit > MIN_RERANK_POOL_SIZE { limit } else { MIN_RERANK_POOL_SIZE })
        } else {
            (if limit > MIN_RERANK_POOL_SIZE { limit } else { MIN_RERANK_POOL_SIZE }) as int
        }),
{
    let base = if limit > MIN_RERANK_POOL_SIZE {
        limit
    } else {
        MIN_RERANK_POOL_SIZE
    };
    if include_stale != Some(true) {
        base * 2
    } else {
        base
    }
}

/// An instant in microseconds since the Unix epoch (sub-microsecond
/// nanoseconds dropped), the unit of memory timestamps.
pub open spec fn timestamp_micros(t: Timestamp) -> int {
    t.seconds * 1_000_000 + t.nanos / 1000
}

/// The validity window of `m` covered the instant `at` (microseconds): it
/// began (`t_valid`, else creation) at or before `at` and, unless invalidated
/// memories were asked for, had not ended (`t_invalid`) by then.
pub open spec fn valid_at(m: Memory, include_invalidated: Option<bool>, at: int) -> bool {
    &&& (match m.t_valid {
        Some(v) => v as int,
        None => m.created_at as int,
    }) <= at
    &&& (include_invalidated == Some(true) || match m.t_invalid {
        Some(e) => at < e,
        None => true,
    })
}

/// Whether a memory is visible to a recall. With a point in time `as_of`,
/// it is when its validity window covered that instant (a memory
/// invalidated after it still counts). Otherwise it is unless it was
/// invalidated and invalidated memories were not asked for.
pub open spec fn visible(m: Memory, include_invalidated: Option<bool>, as_of: Option<Timestamp>) -> bool {
    match as_of {
        Some(t) => valid_at(m, include_invalidated, timestamp_micros(t)),
        None => include_invalidated == Some(true) || m.t_invalid is None,
    }
}

fn is_visible(m: &Memory, include_invalidated: Option<bool>, as_of: Option<Timestamp>) -> (b: bool)
    ensures
        b == visible(*m, include_invalidated, as_of),
{
    let all = include_invalidated == Some(true);
    match as_of {
        None => all || m.t_invalid.is_none(),
        Some(t) => {
            let at: i128 = t.seconds as i128 * 1_000_000 + (t.nanos / 1000) as i128;
            let start: i64 = match m.t_valid {
                Some(v) => v,
                None => m.created_at,
            };
            if (start as i128) > at {
                return false;
            }
            match m.t_invalid {
                Some(e) => all || at < e as i128,
                None => true,
            }
        },
    }
}

/// Index of the first memory in `ms` with id `id` that is visible.
pub open spec fn first_visible(ms: Seq<Memory>, id: Seq<char>, include_invalidated: Option<bool>, as_of: Option<Timestamp>) -> Option<int>
    decreases ms.len(),
{
    if ms.len() == 0 {
        None
    } else {
        match first_visible(ms.drop_last(), id, include_invalidated, as_of) {
            Some(i) => Some(i),
            None => if ms.last().id@ == id && visible(ms.last(), include_invalidated, as_of) {
                Some(ms.len() - 1)
            } else {
                None
            },
        }
    }
}

/// The search hits in search order, each replaced by the index of its visible
/// memory; hits without one are dropped.
pub open spec fn ordered_hits(hits: Seq<Seq<char>>, ms: Seq<Memory>, include_invalidated: Option<bool>, as_of: Option<Timestamp>) -> Seq<int>
    decreases hits.len(),
{
    if hits.len() == 0 {
        Seq::empty()
    } else {
        let prev = ordered_hits(hits.drop_last(), ms, include_invalidated, as_of);
        match first_visible(ms, hits.last(), include_invalidated, as_of) {
            Some(i) => prev.push(i),
            None => prev,
        }
    }
}

proof fn lemma_first_visible(ms: Seq<Memory>, id: Seq<char>, include_invalidated: Option<bool>, as_of: Option<Timestamp>)
    ensures
        first_visible(ms, id, include_invalidated, as_of) matches Some(i) ==> 0 <= i < ms.len() && ms[i].id@ == id
            && visible(ms[i], include_invalidated, as_of),
    decreases ms.len(),
{
    if ms.len() > 0 {
        lemma_first_visible(ms.drop_last(), id, include_invalidated, as_of);
    }
}

/// Every hit a recall keeps names a memory visible to it, in range, with the
/// hit's id. So a recall without a point in time that did not ask for
/// invalidated memories keeps none that was invalidated (superseded).
pub proof fn lemma_kept_hits_visible(
    hits: Seq<Seq<char>>,
    ms: Seq<Memory>,
    include_invalidated: Option<bool>,
    as_of: Option<Timestamp>,
)
    ensures
        forall|k: int|
            0 <= k < ordered_hits(hits, ms, include_invalidated, as_of).len() ==> {
                let i = #[trigger] ordered_hits(hits, ms, include_invalidated, as_of)[k];
                &&& 0 <= i < ms.len()
                &&& visible(ms[i], include_invalidated, as_of)
                &&& (as_of is None && include_invalidated != Some(true) ==> ms[i].t_invalid is None)
            },
    decreases hits.len(),
{
    if hits.len() > 0 {
        lemma_kept_hits_visible(hits.drop_last(), ms, include_invalidated, as_of);
        lemma_first_visible(ms, hits.last(), include_invalidated, as_of);
        let prev = ordered_hits(hits.drop_last(), ms, include_invalidated, as_of);
        let r = ordered_hits(hits, ms, include_invalidated, as_of);
        assert forall|k: int| 0 <= k < r.len() implies {
            let i = #[trigger] r[k];
            &&& 0 <= i < ms.len()
            &&& visible(ms[i], include_invalidated, as_of)
            &&& (as_of is None && include_invalidated != Some(true) ==> ms[i].t_invalid is None)
        } by {
            if k < prev.len() {
                assert(r[k] == prev[k]);
            }
        }
    }
}

fn find_visible(ms: &Vec<Memory>, id: &str, include_invalidated: Option<bool>, as_of: Option<Timestamp>) -> (r: Option<usize>)
    ensures
        match r {
            Some(i) => first_visible(ms@, id@, include_invalidated, as_of) == Some(i as int),
            None => first_visible(ms@, id@, include_invalidated, as_of) is None,
        },
{
    let mut i: usize = 0;
    let mut found: Option<usize> = None;
    while i < ms.len()
        invariant
            i <= ms.len(),
            match found {
                Some(j) => first_visible(ms@.take(i as int), id@, include_invalidated, as_of) == Some(
                    j as int,
                ),
                None => first_visible(ms@.take(i as int), id@, include_invalidated, as_of) is None,
            },
        decreases ms.len() - i,
    {
        assert(ms@.take(i + 1).drop_last() =~= ms@.take(i as int));
        assert(ms@.take(i + 1).last() == ms@[i as int]);
        if found.is_none() {
            let shown = is_visible(&ms[i], include_invalidated, as_of);
            if shown && str_eq(ms[i].id.as_str(), id) {
                found = Some(i);
            }
        }
        i = i + 1;
    }
    assert(ms@.take(ms.len() as int) =~= ms@);
    found
}

/// Lines the fetched memories up with the search hits: for each hit id, in
/// order, the index of its memory, dropping hits whose memory is missing,
/// invalidated (unless invalidated ones were asked for), or, for a recall
/// as of an instant, not valid at that instant.
pub fn order_hits(
    hits: &Vec<String>,
    memories: &Vec<Memory>,
    include_invalidated: Option<bool>,
    as_of: Option<Timestamp>,
) -> (r: Vec<usize>)
    ensures
        r@.map_values(|i: usize| i as int) == ordered_hits(strings_view(hits@), memories@, include_invalidated, as_of),
{
    let ghost h = strings_view(hits@);
    let mut out: Vec<usize> = Vec::new();
    let mut k: usize = 0;
    while k < hits.len()
        invariant
            k <= hits.len(),
            h == strings_view(hits@),
            out@.map_values(|i: usize| i as int) == ordered_hits(h.take(k as int), memories@, include_invalidated, as_of),
        decreases hits.len() - k,
    {
        assert(h.take(k + 1).drop_last() =~= h.take(k as int));
        assert(h.take(k + 1).last() == hits@[k as int]@);
        match find_visible(memories, hits[k].as_str(), include_invalidated, as_of) {
            Some(i) => {
                let ghost before = out@;
                out.push(i);
                assert(out@.map_values(|i: usize| i as int) =~= before.map_values(|i: usize| i as int).push(i as int));
            },
            None => {},
        }
        k = k + 1;
    }
    assert(h.take(hits.len() as int) =~= h);
    out
}

/// The ids to mark validated: every id of `validate_ids` that parses as a
/// UUID, in request order.
pub open spec fn validated_ids(v: Seq<Seq<char>>) -> Seq<Seq<char>> {
    v.filter(|id: Seq<char>| uuid_of(id) is Some)
}

pub fn select_validated_ids(validate_ids: &Vec<String>) -> (r: Vec<String>)
    ensures
        strings_view(r@) == validated_ids(strings_view(validate_ids@)),
{
    let ghost v = strings_view(validate_ids@);
    let mut out: Vec<String> = Vec::new();
    let mut i: usize = 0;
    while i < validate_ids.len()
        invariant
            i <= validate_ids.len(),
            v == strings_view(validate_ids@),
            strings_view(out@) == validated_ids(v.take(i as int)),
        decreases validate_ids.len() - i,
    {
        let id = &validate_ids[i];
        let ok = parse_uuid(id.as_str()).is_some();
        proof {
            assert(v.take(i + 1).drop_last() =~= v.take(i as int));
            assert(v.take(i + 1).last() == id@);
            reveal(Seq::filter);
            assert(v.take(i + 1).filter(|id: Seq<char>| uuid_of(id) is Some) == {
                let p = v.take(i as int).filter(|id: Seq<char>| uuid_of(id) is Some);
                if ok { p.push(id@) } else { p }
            });
        }
        if ok {
            let ghost before = out@;
            out.push(id.clone());
            assert(strings_view(out@) =~= strings_view(before).push(id@));
        }
        i = i + 1;
    }
    assert(v.take(validate_ids.len() as int) =~= v);
    out
}

/// Parses every id of a forget request; the first id that is not a UUID
/// rejects the whole request with `invalid UUID: <id>`.
pub fn parse_forget_ids(ids: &Vec<String>) -> (r: Result<Vec<u128>, CoreError>)
    ensures
        match r {
            Ok(u) => u@.len() == ids@.len() && forall|i: int| 0 <= i < ids@.len() ==> uuid_of(#[trigger] ids@[i]@) == Some(u@[i]),
            Err(e) => exists|i: int| 0 <= i < ids@.len() && uuid_of(ids@[i]@) is None
                && (forall|j: int| 0 <= j < i ==> uuid_of(#[trigger] ids@[j]@) is Some)
                && (e matches CoreError::Validation(m) && m@ == "invalid UUID: "@ + ids@[i]@),
        },
{
    let mut out: Vec<u128> = Vec::new();
    let mut i: usize = 0;
    while i < ids.len()
        invariant
            i <= ids.len(),
            out@.len() == i,
            forall|k: int| 0 <= k < i ==> uuid_of(#[trigger] ids@[k]@) == Some(out@[k]),
        decreases ids.len() - i,
    {
        match parse_uuid(ids[i].as_str()) {
            Some(u) => out.push(u),
            None => {
                let mut m = String::from_str("invalid UUID: ");
                m.append(ids[i].as_str());
                return Err(CoreError::Validation(m));
            },
        }
        i = i + 1;
    }
    Ok(out)
}

/// Progress of a forget request: ids deleted and ids not found, in request
/// order.
pub struct ForgetTally {
    pub deleted: Vec<String>,
    pub not_found: Vec<String>,
}

impl ForgetTally {
    pub fn new() -> (t: Self)
        ensures
            t.deleted@.len() == 0,
            t.not_found@.len() == 0,
    {
        ForgetTally { deleted: Vec::new(), not_found: Vec::new() }
    }

    /// Records the outcome for `id`: deleted when its memory was found.
    pub fn record(&mut self, id: &String, found: bool)
        ensures
            found ==> strings_view(final(self).deleted@) == strings_view(old(self).deleted@).push(id@)
                && final(self).not_found@ == old(self).not_found@,
            !found ==> strings_view(final(self).not_found@) == strings_view(old(self).not_found@).push(id@)
                && final(self).deleted@ == old(self).deleted@,
    {
        if found {
            self.deleted.push(id.clone());
            assert(strings_view(self.deleted@) =~= strings_view(old(self).deleted@).push(id@));
        } else {
            self.not_found.push(id.clone());
            assert(strings_view(self.not_found@) =~= strings_view(old(self).not_found@).push(id@));
        }
    }

    /// The outcome line for the operations log: `ok`, or
    /// `<d> deleted, <n> not found`.
    pub fn outcome(&self) -> (s: String)
        ensures
            s@ == (if self.not_found@.len() == 0 {
                "ok"@
            } else {
                decimal(self.deleted@.len()) + " deleted, "@ + decimal(self.not_found@.len()) + " not found"@
            }),
    {
        if self.not_found.len() == 0 {
            String::from_str("ok")
        } else {
            let mut s = decimal_string(self.deleted.len());
            s.append(" deleted, ");
            let n = decimal_string(self.not_found.len());
            s.append(n.as_str());
            s.append(" not found");
            s
        }
    }

    /// The response: `deleted <d> memories`, the deleted ids and the ids that
    /// were not found.
    pub fn finish(self) -> (r: ForgetResponse)
        ensures
            r.message@ == "deleted "@ + decimal(self.deleted@.len()) + " memories"@,
            r.deleted@ == self.deleted@,
            r.not_found@ == self.not_found@,
    {
        let mut message = String::from_str("deleted ");
        let n = decimal_string(self.deleted.len());
        message.append(n.as_str());
        message.append(" memories");
        ForgetResponse { message, deleted: self.deleted, not_found: self.not_found }
    }
}

/// The ids a store reports as superseded: the explicit target when the
/// request named one, else the facts that conflict resolution replaced.
pub fn store_response(id: String, t: MemoryType, supersedes: Option<String>, superseded_ids: Vec<String>) -> (r: StoreResponse)
    ensures
        r.id@ == id@,
        r.memory_type@ == memory_type_name(t),
        match supersedes {
            Some(s) => strings_view(r.superseded@) == seq![s@],
            None => r.superseded@ == superseded_ids@,
        },
{
    let superseded = match supersedes {
        Some(s) => {
            let mut v: Vec<String> = Vec::new();
            v.push(s);
            assert(strings_view(v@) =~= seq![v@[0]@]);
            v
        },
        None => superseded_ids,
    };
    StoreResponse { id, memory_type: String::from_str(t.as_str()), superseded }
}

/// The number of entries a taxonomy lists: the requested limit (10 when
/// none) capped at 100.
pub fn taxonomy_limit(limit: Option<usize>) -> (r: usize)
    ensures
        r == (if limit.unwrap_or(DEFAULT_TAXONOMY_LIMIT) < MAX_TAXONOMY_LIMIT {
            limit.unwrap_or(DEFAULT_TAXONOMY_LIMIT)
        } else {
            MAX_TAXONOMY_LIMIT
        }),
{
    let l = match limit {
        Some(l) => l,
        None => DEFAULT_TAXONOMY_LIMIT,
    };
    if l < MAX_TAXONOMY_LIMIT {
        l
    } else {
        MAX_TAXONOMY_LIMIT
    }
}

/// Sum of the per-type counts.
pub open spec fn count_sum(c: Seq<(MemoryType, u64)>) -> nat
    decreases c.len(),
{
    if c.len() == 0 {
        0
    } else {
        count_sum(c.drop_last()) + c.last().1 as nat
    }
}

proof fn lemma_count_sum_prefix(c: Seq<(MemoryType, u64)>, i: int)
    requires
        0 <= i <= c.len(),
    ensures
        count_sum(c.take(i)) <= count_sum(c),
    decreases c.len() - i,
{
    if i < c.len() {
        lemma_count_sum_prefix(c, i + 1);
        assert(c.take(i + 1).drop_last() =~= c.take(i));
    } else {
        assert(c.take(i) =~= c);
    }
}

/// Assembles a taxonomy from what the store reported; the total is the sum
/// of the per-type counts.
pub fn build_taxonomy(
    namespace: String,
    by_type: Vec<(MemoryType, u64)>,
    top_entities: Vec<(String, u64)>,
    top_predicates: Vec<(String, u64)>,
    all_namespaces: Option<Vec<String>>,
) -> (r: TaxonomyResponse)
    requires
        count_sum(by_type@) <= u64::MAX,
    ensures
        r.namespace@ == namespace@,
        r.total_memories == count_sum(by_type@),
        r.by_type@ == by_type@,
        r.top_entities@.len() == top_entities@.len(),
        forall|i: int| 0 <= i < top_entities@.len() ==> (#[trigger] r.top_entities@[i]).name@ == top_entities@[i].0@
            && r.top_entities@[i].memory_count == top_entities@[i].1,
        r.top_predicates@.len() == top_predicates@.len(),
        forall|i: int| 0 <= i < top_predicates@.len() ==> (#[trigger] r.top_predicates@[i]).predicate@ == top_predicates@[i].0@
            && r.top_predicates@[i].count == top_predicates@[i].1,
        r.all_namespaces == all_namespaces,
{
    let mut total: u64 = 0;
    let mut i: usize = 0;
    while i < by_type.len()
        invariant
            i <= by_type.len(),
            count_sum(by_type@) <= u64::MAX,
            total == count_sum(by_type@.take(i as int)),
        decreases by_type.len() - i,
    {
        proof {
            assert(by_type@.take(i + 1).drop_last() =~= by_type@.take(i as int));
            lemma_count_sum_prefix(by_type@, i + 1);
        }
        total = total + by_type[i].1;
        i = i + 1;
    }
    assert(by_type@.take(by_type.len() as int) =~= by_type@);
    let ghost te = top_entities@;
    let mut entities: Vec<TaxonomyEntityEntry> = Vec::new();
    let mut src = top_entities;
    let mut rev: Vec<(String, u64)> = Vec::new();
    let n = src.len();
    while src.len() > 0
        invariant
            src@.len() + rev@.len() == n,
            n == te.len(),
            forall|k: int| 0 <= k < src@.len() ==> #[trigger] src@[k] == te[k],
            forall|k: int| 0 <= k < rev@.len() ==> #[trigger] rev@[k] == te[n - 1 - k],
        decreases src.len(),
    {
        let e = src.pop().unwrap();
        rev.push(e);
    }
    while rev.len() > 0
        invariant
            rev@.len() + entities@.len() == n,
            n == te.len(),
            forall|k: int| 0 <= k < rev@.len() ==> #[trigger] rev@[k] == te[n - 1 - k],
            forall|k: int| 0 <= k < entities@.len() ==> (#[trigger] entities@[k]).name@ == te[k].0@
                && entities@[k].memory_count == te[k].1,
        decreases rev.len(),
    {
        let (name, memory_count) = rev.pop().unwrap();
        entities.push(TaxonomyEntityEntry { name, memory_count });
    }
    let ghost tp = top_predicates@;
    let mut predicates: Vec<TaxonomyPredicateEntry> = Vec::new();
    let mut src2 = top_predicates;
    let mut rev2: Vec<(String, u64)> = Vec::new();
    let n2 = src2.len();
    while src2.len() > 0
        invariant
            src2@.len() + rev2@.len() == n2,
            n2 == tp.len(),
            forall|k: int| 0 <= k < src2@.len() ==> #[trigger] src2@[k] == tp[k],
            forall|k: int| 0 <= k < rev2@.len() ==> #[trigger] rev2@[k] == tp[n2 - 1 - k],
        decreases src2.len(),
    {
        let e = src2.pop().unwrap();
        rev2.push(e);
    }
    while rev2.len() > 0
        invariant
            rev2@.len() + predicates@.len() == n2,
            n2 == tp.len(),
            forall|k: int| 0 <= k < rev2@.len() ==> #[trigger] rev2@[k] == tp[n2 - 1 - k],
            forall|k: int| 0 <= k < predicates@.len() ==> (#[trigger] predicates@[k]).predicate@ == tp[k].0@
                && predicates@[k].count == tp[k].1,
        decreases rev2.len(),
    {
        let (predicate, count) = rev2.pop().unwrap();
        predicates.push(TaxonomyPredicateEntry { predicate, count });
    }
    TaxonomyResponse {
        namespace,
        total_memories: total,
        by_type,
        top_entities: entities,
        top_predicates: predicates,
        all_namespaces,
    }
}

/// When a timeline entry happened: its validity start, else its creation.
pub fn occurred_at(m: &Memory) -> (t: i64)
    ensures
        t == match m.t_valid {
            Some(v) => v,
            None => m.created_at,
        },
{
    match m.t_valid {
        Some(v) => v,
        None => m.created_at,
    }
}

/// The memory ids a scan looks at: the first `MAX_SCAN_MEMORIES` of them.
pub fn cap_scan(ids: Vec<String>) -> (r: Vec<String>)
    ensures
        r@ == if ids@.len() > MAX_SCAN_MEMORIES {
            ids@.take(MAX_SCAN_MEMORIES as int)
        } else {
            ids@
        },
{
    let mut ids = ids;
    if ids.len() > MAX_SCAN_MEMORIES {
        ids.truncate(MAX_SCAN_MEMORIES);
    }
    ids
}

/// How many stale memories a reflection reports: the requested limit, 20
/// when none.
pub fn reflect_limit(limit: Option<u32>) -> (r: u32)
    ensures
        r == match limit {
            Some(l) => l,
            None => DEFAULT_REFLECT_LIMIT,
        },
{
    match limit {
        Some(l) => l,
        None => DEFAULT_REFLECT_LIMIT,
    }
}

/// The summary of a reflection: memories scanned are the stale candidates
/// looked at, or the live semantic facts compared when there were more of
/// them; and how many stale memories and contradictions were found.
pub fn reflect_summary(
    stale_scanned: Option<u64>,
    facts_compared: Option<u64>,
    stale_count: u64,
    contradiction_count: u64,
) -> (r: ReflectSummary)
    ensures
        r.total_scanned == ({
            let s = match stale_scanned {
                Some(n) => n,
                None => 0,
            };
            match facts_compared {
                Some(f) => if f > s {
                    f
                } else {
                    s
                },
                None => s,
            }
        }),
        r.stale_count == stale_count,
        r.contradiction_count == contradiction_count,
{
    let s = match stale_scanned {
        Some(n) => n,
        None => 0,
    };
    let total = match facts_compared {
        Some(f) => if f > s {
            f
        } else {
            s
        },
        None => s,
    };
    ReflectSummary { total_scanned: total, stale_count, contradiction_count }
}

/// A memory a scan keeps: not invalidated, and semantic when only
/// semantic facts are wanted.
pub open spec fn kept_memory(m: Memory, semantic_only: bool) -> bool {
    m.t_invalid is None && (!semantic_only || m.memory_type == MemoryType::Semantic)
}

/// The memories a scan keeps, in order.
pub fn keep_memories(ms: Vec<Memory>, semantic_only: bool) -> (r: Vec<Memory>)
    ensures
        r@ == ms@.filter(|m: Memory| kept_memory(m, semantic_only)),
{
    let ghost pred = |m: Memory| kept_memory(m, semantic_only);
    let ghost orig = ms@;
    let mut rest = ms;
    let mut acc: Vec<Memory> = Vec::new();
    let ghost mut done: Seq<Memory> = Seq::empty();
    assert(orig == rest@ + done);
    while rest.len() > 0
        invariant
            orig == rest@ + done,
            acc@.reverse() == done.filter(pred),
            pred == (|m: Memory| kept_memory(m, semantic_only)),
        decreases rest.len(),
    {
        let ghost old_rest = rest@;
        let m = rest.pop().unwrap();
        let keep = m.t_invalid.is_none() && (!semantic_only || match m.memory_type {
            MemoryType::Semantic => true,
            _ => false,
        });
        let ghost old_acc = acc@;
        proof {
            let unit = seq![m];
            Seq::filter_distributes_over_add(unit, done, pred);
            reveal_with_fuel(Seq::filter, 2);
            assert(unit.drop_last() =~= Seq::<Memory>::empty());
            assert(old_rest =~= rest@.push(m));
            assert(orig =~= rest@ + (unit + done));
            done = unit + done;
        }
        if keep {
            acc.push(m);
            assert(acc@.reverse() =~= seq![m] + old_acc.reverse());
        }
    }
    let ghost fin = done.filter(pred);
    assert(rest@ =~= Seq::<Memory>::empty());
    assert(done =~= orig);
    let mut out: Vec<Memory> = Vec::new();
    while acc.len() > 0
        invariant
            out@ + acc@.reverse() == fin,
        decreases acc.len(),
    {
        let ghost old_acc = acc@;
        let x = acc.pop().unwrap();
        let ghost old_out = out@;
        out.push(x);
        assert(old_acc.reverse() =~= seq![x] + acc@.reverse());
        assert(out@ + acc@.reverse() =~= old_out + old_acc.reverse());
    }
    assert(acc@.reverse() =~= Seq::<Memory>::empty());
    assert(out@ =~= fin);
    out
}

} // verus!
