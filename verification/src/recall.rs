//! Recall: the vector-store filter a recall searches with, the key of its
//! time range, and the final ordering of its results.
use vstd::prelude::*;
use std::hash::Hash;
use std::hash::Hasher;
use rustc_hash::FxHasher;
use crate::access_tracker::strings_view;
use crate::cache::{RecallResult, ScoringBreakdown};
use crate::groups::clone_strings;
use crate::kinds::{MemoryType, memory_type_name};
use crate::memory::Memory;
use crate::staleness::FreshnessLabel;
use crate::text::{chars_of, string_of_chars};

verus! {

/// Payload field that tells memory points from entity points.
pub const POINT_TYPE_FIELD: &'static str = "point_type";
/// `point_type` of memory points.
pub const POINT_TYPE_MEMORY: &'static str = "memory";
/// `point_type` of entity points.
pub const POINT_TYPE_ENTITY: &'static str = "entity";

/// The vector-store collection of a namespace: `ferrex_<namespace>`.
pub fn collection_name(namespace: &str) -> (r: String)
    ensures
        r@ == "ferrex_"@ + namespace@,
{
    let mut r = String::from_str("ferrex_");
    r.append(namespace);
    r
}

/// The namespace a collection serves, when its name starts with `ferrex_`.
pub fn namespace_of_collection(name: &str) -> (r: Option<String>)
    ensures
        match r {
            Some(ns) => name@ == "ferrex_"@ + ns@,
            None => !("ferrex_"@.is_prefix_of(name@)),
        },
{
    proof {
        reveal_strlit("ferrex_");
    }
    let cs = chars_of(name);
    let prefix = chars_of("ferrex_");
    if cs.len() < prefix.len() {
        return None;
    }
    let mut i: usize = 0;
    while i < prefix.len()
        invariant
            i <= prefix@.len(),
            prefix@.len() <= cs@.len(),
            cs@ == name@,
            prefix@ == "ferrex_"@,
            forall|k: int| 0 <= k < i ==> cs@[k] == prefix@[k],
        decreases prefix.len() - i,
    {
        if cs[i] != prefix[i] {
            return None;
        }
        i = i + 1;
    }
    let mut rest: Vec<char> = Vec::new();
    let mut k: usize = prefix.len();
    while k < cs.len()
        invariant
            prefix@.len() <= k <= cs@.len(),
            rest@ == cs@.subrange(prefix@.len() as int, k as int),
        decreases cs.len() - k,
    {
        rest.push(cs[k]);
        k = k + 1;
        assert(rest@ =~= cs@.subrange(prefix@.len() as int, k as int));
    }
    assert(cs@ =~= prefix@ + rest@);
    Some(string_of_chars(&rest))
}

/// An instant as whole seconds since the Unix epoch and nanoseconds within
/// the second.
#[derive(Clone, Copy, Debug)]
pub struct Timestamp {
    pub seconds: i64,
    pub nanos: u32,
}

/// Bounds on the creation time of recalled memories.
#[derive(Clone, Copy, Debug)]
pub struct TimeRange {
    pub start: Option<Timestamp>,
    pub end: Option<Timestamp>,
}

/// A recall query.
pub struct RecallRequest {
    pub query: String,
    pub types: Option<Vec<MemoryType>>,
    pub entities: Option<Vec<String>>,
    pub namespace: Option<String>,
    pub limit: Option<usize>,
    pub include_stale: Option<bool>,
    pub include_invalidated: Option<bool>,
    pub time_range: Option<TimeRange>,
    pub as_of: Option<Timestamp>,
    pub validate_ids: Option<Vec<String>>,
    pub explain: bool,
}

/// One condition of a vector-store filter.
pub enum FilterCondition {
    /// The payload field holds this keyword.
    Keyword { field: String, value: String },
    /// The payload field holds one of these keywords.
    AnyKeyword { field: String, values: Vec<String> },
    /// Created at or after this instant (seconds, nanoseconds as `i32`).
    CreatedFrom { seconds: i64, nanos: i32 },
    /// Created at or before this instant (seconds, nanoseconds as `i32`).
    CreatedUntil { seconds: i64, nanos: i32 },
}

/// A vector-store filter: every `must` condition holds, and at least one
/// `should` condition when there are any.
pub struct RecallFilter {
    pub must: Vec<FilterCondition>,
    pub should: Vec<FilterCondition>,
}

/// What a condition states, by characters.
pub enum ConditionView {
    Keyword(Seq<char>, Seq<char>),
    AnyKeyword(Seq<char>, Seq<Seq<char>>),
    CreatedFrom(i64, i32),
    CreatedUntil(i64, i32),
}

pub open spec fn condition_view(c: FilterCondition) -> ConditionView {
    match c {
        FilterCondition::Keyword { field, value } => ConditionView::Keyword(field@, value@),
        FilterCondition::AnyKeyword { field, values } => ConditionView::AnyKeyword(field@, strings_view(values@)),
        FilterCondition::CreatedFrom { seconds, nanos } => ConditionView::CreatedFrom(seconds, nanos),
        FilterCondition::CreatedUntil { seconds, nanos } => ConditionView::CreatedUntil(seconds, nanos),
    }
}

pub open spec fn conditions_view(cs: Seq<FilterCondition>) -> Seq<ConditionView> {
    cs.map_values(|c: FilterCondition| condition_view(c))
}

/// The `must` conditions of a recall: memory points only; of the requested
/// types, if any; created within the time range's bounds, if any.
pub open spec fn recall_must(types: Option<Seq<MemoryType>>, range: Option<TimeRange>) -> Seq<ConditionView> {
    let base = seq![ConditionView::Keyword("point_type"@, "memory"@)];
    let with_types = match types {
        Some(ts) => base.push(ConditionView::AnyKeyword("memory_type"@, ts.map_values(|t: MemoryType| memory_type_name(t)))),
        None => base,
    };
    match range {
        Some(r) => {
            let with_start = match r.start {
                Some(s) => with_types.push(ConditionView::CreatedFrom(s.seconds, s.nanos as i32)),
                None => with_types,
            };
            match r.end {
                Some(e) => with_start.push(ConditionView::CreatedUntil(e.seconds, e.nanos as i32)),
                None => with_start,
            }
        },
        None => with_types,
    }
}

/// The `should` conditions of a recall: one per requested entity, when any
/// were requested.
pub open spec fn recall_should(entities: Option<Seq<Seq<char>>>) -> Seq<ConditionView> {
    match entities {
        Some(es) => es.map_values(|e: Seq<char>| ConditionView::Keyword("entities"@, e)),
        None => Seq::empty(),
    }
}

fn type_names(ts: &Vec<MemoryType>) -> (r: Vec<String>)
    ensures
        strings_view(r@) == ts@.map_values(|t: MemoryType| memory_type_name(t)),
{
    let mut r: Vec<String> = Vec::new();
    let mut i: usize = 0;
    while i < ts.len()
        invariant
            i <= ts.len(),
            strings_view(r@) == ts@.take(i as int).map_values(|t: MemoryType| memory_type_name(t)),
        decreases ts.len() - i,
    {
        let ghost before = strings_view(r@);
        r.push(String::from_str(ts[i].as_str()));
        assert(strings_view(r@) =~= before.push(memory_type_name(ts@[i as int])));
        assert(ts@.take(i + 1).map_values(|t: MemoryType| memory_type_name(t)) =~= ts@.take(i as int).map_values(
            |t: MemoryType| memory_type_name(t),
        ).push(memory_type_name(ts@[i as int])));
        i = i + 1;
    }
    assert(ts@.take(ts.len() as int) =~= ts@);
    r
}

/// The filter a recall searches the vector store with.
pub fn build_recall_filter(req: &RecallRequest) -> (f: RecallFilter)
    ensures
        conditions_view(f.must@) == recall_must(
            match req.types {
                Some(ts) => Some(ts@),
                None => None,
            },
            req.time_range,
        ),
        conditions_view(f.should@) == recall_should(
            match req.entities {
                Some(es) => if es@.len() > 0 {
                    Some(strings_view(es@))
                } else {
                    None
                },
                None => None,
            },
        ),
{
    proof {
        reveal_strlit("point_type");
        reveal_strlit("memory");
        reveal_strlit("memory_type");
        reveal_strlit("entities");
    }
    let mut must: Vec<FilterCondition> = Vec::new();
    must.push(FilterCondition::Keyword { field: String::from_str(POINT_TYPE_FIELD), value: String::from_str(POINT_TYPE_MEMORY) });
    let ghost m0 = conditions_view(must@);
    assert(m0 =~= seq![ConditionView::Keyword("point_type"@, "memory"@)]);
    match &req.types {
        Some(ts) => {
            let names = type_names(ts);
            let ghost before = conditions_view(must@);
            let ghost cv = ConditionView::AnyKeyword("memory_type"@, strings_view(names@));
            must.push(FilterCondition::AnyKeyword { field: String::from_str("memory_type"), values: names });
            assert(conditions_view(must@) =~= before.push(cv));
        },
        None => {},
    }
    match &req.time_range {
        Some(r) => {
            match r.start {
                Some(s) => {
                    let ghost before = conditions_view(must@);
                    must.push(FilterCondition::CreatedFrom { seconds: s.seconds, nanos: s.nanos as i32 });
                    assert(conditions_view(must@) =~= before.push(ConditionView::CreatedFrom(s.seconds, s.nanos as i32)));
                },
                None => {},
            }
            match r.end {
                Some(e) => {
                    let ghost before = conditions_view(must@);
                    must.push(FilterCondition::CreatedUntil { seconds: e.seconds, nanos: e.nanos as i32 });
                    assert(conditions_view(must@) =~= before.push(ConditionView::CreatedUntil(e.seconds, e.nanos as i32)));
                },
                None => {},
            }
        },
        None => {},
    }
    let mut should: Vec<FilterCondition> = Vec::new();
    match &req.entities {
        Some(es) => {
            if es.len() > 0 {
                let mut i: usize = 0;
                while i < es.len()
                    invariant
                        i <= es.len(),
                        conditions_view(should@) == strings_view(es@).take(i as int).map_values(
                            |e: Seq<char>| ConditionView::Keyword("entities"@, e),
                        ),
                    decreases es.len() - i,
                {
                    let ghost before = conditions_view(should@);
                    should.push(FilterCondition::Keyword { field: String::from_str("entities"), value: es[i].clone() });
                    assert(conditions_view(should@) =~= before.push(ConditionView::Keyword("entities"@, es@[i as int]@)));
                    assert(strings_view(es@).take(i + 1).map_values(|e: Seq<char>| ConditionView::Keyword("entities"@, e))
                        =~= strings_view(es@).take(i as int).map_values(
                        |e: Seq<char>| ConditionView::Keyword("entities"@, e),
                    ).push(ConditionView::Keyword("entities"@, es@[i as int]@)));
                    i = i + 1;
                }
                assert(strings_view(es@).take(es.len() as int) =~= strings_view(es@));
            }
        },
        None => {},
    }
    RecallFilter { must, should }
}

/// Bits of the `u64` that `FxHasher` makes of a time range's start and end
/// seconds (each an `Option<i64>`, hashed in that order). It depends on these
/// values alone, for the pointer width the crate is built for.
pub uninterp spec fn range_hash(start: Option<i64>, end: Option<i64>) -> u64;

/// Hashes the seconds of a time range's bounds with `FxHasher`, as the
/// result cache keys time ranges. The contract claims only the naming.
#[verifier::external_body]
fn hash_range_seconds(start: Option<i64>, end: Option<i64>) -> (r: u64)
    ensures
        r == range_hash(start, end),
{
    let mut h = FxHasher::default();
    start.hash(&mut h);
    end.hash(&mut h);
    h.finish()
}

/// The key part of a recall's time range: the hash of its bounds' seconds.
pub fn time_range_hash(range: &TimeRange) -> (r: u64)
    ensures
        r == range_hash(
            match range.start {
                Some(s) => Some(s.seconds),
                None => None,
            },
            match range.end {
                Some(e) => Some(e.seconds),
                None => None,
            },
        ),
{
    let start = match range.start {
        Some(s) => Some(s.seconds),
        None => None,
    };
    let end = match range.end {
        Some(e) => Some(e.seconds),
        None => None,
    };
    hash_range_seconds(start, end)
}

/// The key by which `total_cmp` orders binary32 values with bits `b`.
pub open spec fn f32_total_key(b: u32) -> int {
    if b >= 0x8000_0000 {
        -(b - 0x8000_0000) - 1
    } else {
        b as int
    }
}

fn f32_total_key_of(b: u32) -> (r: i64)
    ensures
        r == f32_total_key(b),
{
    if b >= 0x8000_0000 {
        -((b - 0x8000_0000) as i64) - 1
    } else {
        b as i64
    }
}

/// Position before the first index in `o` whose key is below `k`.
pub open spec fn first_below(o: Seq<int>, keys: Seq<int>, k: int) -> int
    decreases o.len(),
{
    if o.len() == 0 {
        0
    } else if keys[o[0]] < k {
        0
    } else {
        1 + first_below(o.drop_first(), keys, k)
    }
}

/// The first `n` indices ordered by decreasing key, equal keys in index
/// order: each index goes after every earlier one whose key is not below its
/// own.
pub open spec fn order_upto(keys: Seq<int>, n: nat) -> Seq<int>
    decreases n,
{
    if n == 0 {
        Seq::empty()
    } else {
        let o = order_upto(keys, (n - 1) as nat);
        o.insert(first_below(o, keys, keys[n - 1]), n - 1)
    }
}

/// The relevance keys of results.
pub open spec fn relevance_keys(rs: Seq<RecallResult>) -> Seq<int> {
    rs.map_values(|r: RecallResult| f32_total_key(r.relevance_score))
}

/// Result `i` ranks before result `j`: more relevant, or as relevant and
/// earlier.
pub open spec fn ranks_before(keys: Seq<int>, i: int, j: int) -> bool {
    keys[i] > keys[j] || (keys[i] == keys[j] && i < j)
}

proof fn lemma_first_below(o: Seq<int>, keys: Seq<int>, k: int, p: int)
    requires
        0 <= p <= o.len(),
        forall|q: int| 0 <= q < p ==> keys[o[q]] >= k,
        p == o.len() || keys[o[p]] < k,
    ensures
        first_below(o, keys, k) == p,
    decreases o.len(),
{
    if o.len() > 0 && p > 0 {
        assert forall|q: int| 0 <= q < p - 1 implies keys[o.drop_first()[q]] >= k by {
            assert(o.drop_first()[q] == o[q + 1]);
        }
        if p - 1 < o.drop_first().len() {
            assert(o.drop_first()[p - 1] == o[p]);
        }
        lemma_first_below(o.drop_first(), keys, k, p - 1);
    }
}

proof fn lemma_first_below_bounds(o: Seq<int>, keys: Seq<int>, k: int)
    ensures
        0 <= first_below(o, keys, k) <= o.len(),
        forall|q: int| 0 <= q < first_below(o, keys, k) ==> keys[o[q]] >= k,
        first_below(o, keys, k) < o.len() ==> keys[o[first_below(o, keys, k)]] < k,
    decreases o.len(),
{
    if o.len() > 0 && keys[o[0]] >= k {
        lemma_first_below_bounds(o.drop_first(), keys, k);
        assert forall|q: int| 0 <= q < first_below(o, keys, k) implies keys[o[q]] >= k by {
            if q > 0 {
                assert(o[q] == o.drop_first()[q - 1]);
            }
        }
    }
}

/// The insertion order is a stable sort by decreasing key: it holds each of
/// the first `n` indices once, and every index ranks before the ones after
/// it.
pub proof fn lemma_order_upto(keys: Seq<int>, n: nat)
    requires
        n <= keys.len(),
    ensures
        order_upto(keys, n).len() == n,
        order_upto(keys, n).no_duplicates(),
        forall|x: int| order_upto(keys, n).contains(x) <==> 0 <= x < n,
        forall|p: int, q: int| 0 <= p < q < n ==> ranks_before(keys, #[trigger] order_upto(keys, n)[p], #[trigger] order_upto(keys, n)[q]),
    decreases n,
{
    if n > 0 {
        let m = (n - 1) as nat;
        lemma_order_upto(keys, m);
        let o = order_upto(keys, m);
        let k = keys[n - 1];
        lemma_first_below_bounds(o, keys, k);
        let pos = first_below(o, keys, k);
        let r = o.insert(pos, n - 1);
        assert(order_upto(keys, n) == r);
        assert forall|x: int| r.contains(x) <==> 0 <= x < n by {
            if o.contains(x) {
                let j = choose|j: int| 0 <= j < o.len() && o[j] == x;
                if j < pos {
                    assert(r[j] == x);
                } else {
                    assert(r[j + 1] == x);
                }
            }
            if x == n - 1 {
                assert(r[pos] == x);
            }
            if r.contains(x) {
                let j = choose|j: int| 0 <= j < r.len() && r[j] == x;
                if j < pos {
                    assert(o[j] == x);
                } else if j > pos {
                    assert(o[j - 1] == x);
                }
            }
        }
        assert forall|p: int, q: int| 0 <= p < r.len() && 0 <= q < r.len() && p != q implies r[p] != r[q] by {
            let pp = if p < pos { p } else if p > pos { p - 1 } else { -1 };
            let qq = if q < pos { q } else if q > pos { q - 1 } else { -1 };
            if pp >= 0 {
                assert(r[p] == o[pp]);
                assert(o.contains(o[pp]));
            }
            if qq >= 0 {
                assert(r[q] == o[qq]);
                assert(o.contains(o[qq]));
            }
        }
        assert forall|p: int, q: int| 0 <= p < q < n implies ranks_before(keys, #[trigger] r[p], #[trigger] r[q]) by {
            if q < pos {
                assert(r[p] == o[p] && r[q] == o[q]);
            } else if q == pos {
                assert(r[p] == o[p]);
                assert(o.contains(o[p]));
            } else if p == pos {
                assert(r[q] == o[q - 1]);
                assert(o.contains(o[q - 1]));
                if q - 1 > pos {
                    assert(ranks_before(keys, o[pos], o[q - 1]));
                }
            } else if p < pos {
                assert(r[p] == o[p] && r[q] == o[q - 1]);
            } else {
                assert(r[p] == o[p - 1] && r[q] == o[q - 1]);
            }
        }
    }
}

/// Indices of `rs` in relevance order (most relevant first, ties in their
/// input order).
pub fn relevance_order(rs: &Vec<RecallResult>) -> (r: Vec<usize>)
    ensures
        r@.map_values(|i: usize| i as int) == order_upto(relevance_keys(rs@), rs@.len()),
{
    let ghost keys = relevance_keys(rs@);
    let mut o: Vec<usize> = Vec::new();
    let mut i: usize = 0;
    while i < rs.len()
        invariant
            i <= rs.len(),
            keys == relevance_keys(rs@),
            o@.map_values(|x: usize| x as int) == order_upto(keys, i as nat),
        decreases rs.len() - i,
    {
        let ghost ov = o@.map_values(|x: usize| x as int);
        proof {
            lemma_order_upto(keys, i as nat);
        }
        let k = f32_total_key_of(rs[i].relevance_score);
        proof {
            assert forall|q: int| 0 <= q < ov.len() implies 0 <= #[trigger] o@[q] < i by {
                assert(ov[q] == o@[q] as int);
                assert(ov.contains(ov[q]));
            }
        }
        let mut p: usize = 0;
        while p < o.len() && f32_total_key_of(rs[o[p]].relevance_score) >= k
            invariant
                i < rs.len(),
                p <= o@.len(),
                keys == relevance_keys(rs@),
                ov == o@.map_values(|x: usize| x as int),
                ov.len() == i,
                forall|q: int| 0 <= q < ov.len() ==> 0 <= #[trigger] o@[q] < i,
                k == keys[i as int],
                forall|q: int| 0 <= q < p ==> keys[ov[q]] >= k,
            decreases o.len() - p,
        {
            p = p + 1;
        }
        proof {
            lemma_first_below(ov, keys, k as int, p as int);
        }
        o.insert(p, i);
        assert(o@.map_values(|x: usize| x as int) =~= ov.insert(p as int, i as int));
        i = i + 1;
    }
    o
}

/// One reranked result before ordering: its relevance score (bits of the
/// `f32` rerank score times the recency boost), its staleness score and
/// label, and, only when scores are explained, the breakdown, whose boosted
/// score and staleness are the result's own and whose final rank
/// `finalize_recall` sets.
pub fn reranked_result(
    memory: Memory,
    rerank_score: u32,
    recency_boost: u64,
    relevance_score: u32,
    staleness_score: u64,
    label: FreshnessLabel,
    explain: bool,
) -> (r: RecallResult)
    ensures
        r.memory == memory,
        r.relevance_score == relevance_score,
        r.staleness_score == staleness_score,
        r.freshness_label == label,
        r.scoring == (if explain {
            Some(
                ScoringBreakdown {
                    rrf_rank: 0,
                    rrf_score: 0,
                    rerank_score,
                    recency_boost,
                    boosted_score: relevance_score,
                    staleness: staleness_score,
                    staleness_label: label,
                    final_rank: 0,
                },
            )
        } else {
            None
        }),
{
    let scoring = if explain {
        Some(
            ScoringBreakdown {
                rrf_rank: 0,
                rrf_score: 0,
                rerank_score,
                recency_boost,
                boosted_score: relevance_score,
                staleness: staleness_score,
                staleness_label: label,
                final_rank: 0,
            },
        )
    } else {
        None
    };
    RecallResult { memory, relevance_score, staleness_score, freshness_label: label, scoring }
}

/// Whether recall keeps a result: stale ones stay only when stale results
/// were asked for; by default they go.
pub open spec fn keeps_result(r: RecallResult, include_stale: Option<bool>) -> bool {
    include_stale == Some(true) || r.freshness_label != FreshnessLabel::Stale
}

/// Indices of the results a recall returns, in order: the `limit` most
/// relevant, without the stale ones unless stale results were asked for.
pub open spec fn returned_indices(rs: Seq<RecallResult>, limit: usize, include_stale: Option<bool>) -> Seq<int> {
    let o = order_upto(relevance_keys(rs), rs.len());
    let t = if limit < rs.len() {
        o.take(limit as int)
    } else {
        o
    };
    t.filter(|i: int| keeps_result(rs[i], include_stale))
}

proof fn lemma_filter_keeps_ranking(o: Seq<int>, keys: Seq<int>, pred: spec_fn(int) -> bool)
    requires
        o.no_duplicates(),
        forall|p: int, q: int| 0 <= p < q < o.len() ==> ranks_before(keys, #[trigger] o[p], #[trigger] o[q]),
    ensures
        o.filter(pred).no_duplicates(),
        forall|p: int, q: int|
            0 <= p < q < o.filter(pred).len() ==> ranks_before(keys, #[trigger] o.filter(pred)[p], #[trigger] o.filter(pred)[q]),
    decreases o.len(),
{
    reveal(Seq::filter);
    if o.len() > 0 {
        let d = o.drop_last();
        let x = o.last();
        let fd = d.filter(pred);
        assert forall|p: int, q: int| 0 <= p < q < d.len() implies ranks_before(keys, #[trigger] d[p], #[trigger] d[q]) by {
            assert(d[p] == o[p] && d[q] == o[q]);
        }
        lemma_filter_keeps_ranking(d, keys, pred);
        if pred(x) {
            let f = fd.push(x);
            assert(o.filter(pred) == f);
            assert forall|p: int| 0 <= p < fd.len() implies ranks_before(keys, #[trigger] fd[p], x) && fd[p] != x by {
                assert(fd.contains(fd[p]));
                d.lemma_filter_contains_rev(pred, fd[p]);
                let i = choose|i: int| 0 <= i < d.len() && d[i] == fd[p];
                assert(o[i] == d[i]);
                assert(o[o.len() - 1] == x);
                assert(ranks_before(keys, o[i], o[o.len() - 1]));
            }
            assert forall|p: int, q: int| 0 <= p < q < f.len() implies ranks_before(keys, #[trigger] f[p], #[trigger] f[q]) by {
                if q < fd.len() {
                    assert(f[p] == fd[p] && f[q] == fd[q]);
                } else {
                    assert(f[p] == fd[p] && f[q] == x);
                }
            }
            assert forall|p: int, q: int| 0 <= p < f.len() && 0 <= q < f.len() && p != q implies f[p] != f[q] by {
                if p < fd.len() && q < fd.len() {
                    assert(f[p] == fd[p] && f[q] == fd[q]);
                } else if p < fd.len() {
                    assert(f[p] == fd[p] && f[q] == x);
                } else {
                    assert(f[q] == fd[q] && f[p] == x);
                }
            }
        }
    }
}

/// A recall keeps its promises: it returns at most `limit` results, each
/// candidate at most once, from the most relevant down (equal relevance in
/// candidate order), and no stale one unless stale results were asked for.
pub proof fn lemma_returned_indices(rs: Seq<RecallResult>, limit: usize, include_stale: Option<bool>)
    ensures
        returned_indices(rs, limit, include_stale).len() <= limit,
        returned_indices(rs, limit, include_stale).no_duplicates(),
        forall|p: int|
            0 <= p < returned_indices(rs, limit, include_stale).len() ==> 0 <= #[trigger] returned_indices(
                rs,
                limit,
                include_stale,
            )[p] < rs.len(),
        forall|p: int, q: int|
            0 <= p < q < returned_indices(rs, limit, include_stale).len() ==> ranks_before(
                relevance_keys(rs),
                #[trigger] returned_indices(rs, limit, include_stale)[p],
                #[trigger] returned_indices(rs, limit, include_stale)[q],
            ),
        include_stale != Some(true) ==> forall|p: int|
            0 <= p < returned_indices(rs, limit, include_stale).len() ==> rs[#[trigger] returned_indices(
                rs,
                limit,
                include_stale,
            )[p]].freshness_label != FreshnessLabel::Stale,
{
    let keys = relevance_keys(rs);
    lemma_order_upto(keys, rs.len());
    let o = order_upto(keys, rs.len());
    let t = if limit < rs.len() { o.take(limit as int) } else { o };
    let pred = |i: int| keeps_result(rs[i], include_stale);
    let r = returned_indices(rs, limit, include_stale);
    assert(r == t.filter(pred));
    assert forall|p: int, q: int| 0 <= p < t.len() && 0 <= q < t.len() && p != q implies t[p] != t[q] by {
        assert(t[p] == o[p] && t[q] == o[q]);
    }
    assert forall|p: int, q: int| 0 <= p < q < t.len() implies ranks_before(keys, #[trigger] t[p], #[trigger] t[q]) by {
        assert(t[p] == o[p] && t[q] == o[q]);
    }
    lemma_filter_keeps_ranking(t, keys, pred);
    t.lemma_filter_len(pred);
    assert forall|p: int| 0 <= p < r.len() implies 0 <= #[trigger] r[p] < rs.len() && keeps_result(rs[r[p]], include_stale) by {
        t.lemma_filter_pred(pred, p);
        assert(r.contains(r[p]));
        t.lemma_filter_contains_rev(pred, r[p]);
        let i = choose|i: int| 0 <= i < t.len() && t[i] == r[p];
        assert(o[i] == t[i]);
        assert(o.contains(o[i]));
    }
}

/// A returned result with its final rank recorded, when scores are
/// explained.
pub open spec fn ranked_result(r: RecallResult, rank: u32, explain: bool) -> RecallResult {
    match r.scoring {
        Some(s) if explain => RecallResult {
            memory: r.memory,
            relevance_score: r.relevance_score,
            staleness_score: r.staleness_score,
            freshness_label: r.freshness_label,
            scoring: Some(
                ScoringBreakdown {
                    rrf_rank: s.rrf_rank,
                    rrf_score: s.rrf_score,
                    rerank_score: s.rerank_score,
                    recency_boost: s.recency_boost,
                    boosted_score: s.boosted_score,
                    staleness: s.staleness,
                    staleness_label: s.staleness_label,
                    final_rank: rank,
                },
            ),
        },
        _ => r,
    }
}

fn is_stale_label(l: FreshnessLabel) -> (r: bool)
    ensures
        r == (l == FreshnessLabel::Stale),
{
    match l {
        FreshnessLabel::Stale => true,
        _ => false,
    }
}

/// A result's breakdown is present exactly when scores are explained, and
/// then agrees with the result's relevance and staleness scores.
pub open spec fn explained_consistently(r: RecallResult, explain: bool) -> bool {
    &&& (r.scoring is Some) == explain
    &&& (r.scoring matches Some(s) ==> s.boosted_score == r.relevance_score && s.staleness == r.staleness_score)
}

/// An explained recall explains every result it returns and any other
/// explains none: when each candidate is explained consistently (as
/// `reranked_result` builds it), so is every result `finalize_recall`
/// returns, each breakdown ranked from 1.
pub proof fn lemma_explained_results(
    rs: Seq<RecallResult>,
    limit: usize,
    include_stale: Option<bool>,
    explain: bool,
    out: Seq<RecallResult>,
)
    requires
        forall|i: int| 0 <= i < rs.len() ==> explained_consistently(#[trigger] rs[i], explain),
        out.len() == returned_indices(rs, limit, include_stale).len(),
        forall|k: int| 0 <= k < out.len() ==> #[trigger] out[k] == ranked_result(
            rs[returned_indices(rs, limit, include_stale)[k]],
            (k + 1) as u32,
            explain,
        ),
    ensures
        forall|k: int| 0 <= k < out.len() ==> explained_consistently(#[trigger] out[k], explain),
        forall|k: int| 0 <= k < out.len() ==> ((#[trigger] out[k]).scoring matches Some(s) ==> s.final_rank == (k + 1) as u32),
{
    lemma_returned_indices(rs, limit, include_stale);
    assert forall|k: int| 0 <= k < out.len() implies explained_consistently(#[trigger] out[k], explain)
        && (out[k].scoring matches Some(s) ==> s.final_rank == (k + 1) as u32) by {
        let i = returned_indices(rs, limit, include_stale)[k];
        assert(0 <= i < rs.len());
        assert(explained_consistently(rs[i], explain));
    }
}

/// The results a recall returns: by decreasing relevance (ties keep their
/// order), at most `limit` of them, stale ones dropped after the cut
/// unless stale results were asked for, each ranked from 1 when scores are
/// explained.
pub fn finalize_recall(results: Vec<RecallResult>, limit: usize, include_stale: Option<bool>, explain: bool) -> (r: Vec<RecallResult>)
    ensures
        r@.len() == returned_indices(results@, limit, include_stale).len(),
        forall|k: int| 0 <= k < r@.len() ==> #[trigger] r@[k] == ranked_result(
            results@[returned_indices(results@, limit, include_stale)[k]],
            (k + 1) as u32,
            explain,
        ),
        forall|k: int|
            0 <= k < r@.len() ==> ((#[trigger] r@[k]).scoring is Some) == (results@[returned_indices(
                results@,
                limit,
                include_stale,
            )[k]].scoring is Some),
        explain ==> forall|k: int|
            0 <= k < r@.len() ==> ((#[trigger] r@[k]).scoring matches Some(s) ==> s.final_rank == (k + 1) as u32),
{
    let ghost rs = results@;
    let ghost keys = relevance_keys(rs);
    let order = relevance_order(&results);
    proof {
        lemma_order_upto(keys, rs.len());
    }
    let ghost ov = order@.map_values(|x: usize| x as int);
    let n = results.len();
    let cut = if limit < n { limit } else { n };
    let ghost t = if limit < rs.len() { ov.take(limit as int) } else { ov };
    assert(t =~= ov.take(cut as int));
    // the results, last first, each in a slot that can be emptied
    let mut results = results;
    let mut slots: Vec<Option<RecallResult>> = Vec::new();
    while results.len() > 0
        invariant
            results@.len() + slots@.len() == n,
            rs.len() == n,
            forall|j: int| 0 <= j < results@.len() ==> #[trigger] results@[j] == rs[j],
            forall|q: int| 0 <= q < slots@.len() ==> #[trigger] slots@[q] == Some(rs[n - 1 - q]),
        decreases results.len(),
    {
        let x = results.pop().unwrap();
        slots.push(Some(x));
    }
    let mut out: Vec<RecallResult> = Vec::new();
    let mut k: usize = 0;
    while k < cut
        invariant
            k <= cut,
            cut <= n,
            n == rs.len(),
            slots@.len() == n,
            keys == relevance_keys(rs),
            ov == order@.map_values(|x: usize| x as int),
            ov == order_upto(keys, rs.len()),
            ov.len() == n,
            ov.no_duplicates(),
            forall|x: int| ov.contains(x) <==> 0 <= x < n,
            t == ov.take(cut as int),
            forall|j: int| 0 <= j < n && !ov.take(k as int).contains(j) ==> #[trigger] slots@[n - 1 - j] == Some(rs[j]),
            out@.len() == ov.take(k as int).filter(|i: int| keeps_result(rs[i], include_stale)).len(),
            forall|q: int| 0 <= q < out@.len() ==> #[trigger] out@[q] == ranked_result(
                rs[ov.take(k as int).filter(|i: int| keeps_result(rs[i], include_stale))[q]],
                (q + 1) as u32,
                explain,
            ),
        decreases cut - k,
    {
        let i = order[k];
        let ghost done = ov.take(k as int);
        proof {
            assert(ov[k as int] == i as int);
            assert(ov.contains(i as int));
            assert(!done.contains(i as int)) by {
                if done.contains(i as int) {
                    let q = choose|q: int| 0 <= q < done.len() && done[q] == i as int;
                    assert(ov[q] == ov[k as int]);
                }
            }
            assert(ov.take(k + 1) =~= done.push(i as int));
            reveal(Seq::filter);
            assert(ov.take(k + 1).drop_last() =~= done);
        }
        let mut taken: Option<RecallResult> = None;
        std::mem::swap(&mut slots[n - 1 - i], &mut taken);
        proof {
            assert forall|j: int| 0 <= j < n && !ov.take(k + 1).contains(j) implies #[trigger] slots@[n - 1 - j] == Some(rs[j]) by {
                assert(!done.contains(j)) by {
                    if done.contains(j) {
                        let q = choose|q: int| 0 <= q < done.len() && done[q] == j;
                        assert(ov.take(k + 1)[q] == j);
                    }
                }
                if j == i as int {
                    assert(ov.take(k + 1)[k as int] == j);
                }
            }
        }
        let item = taken.unwrap();
        let keep = include_stale == Some(true) || !is_stale_label(item.freshness_label);
        if keep {
            let rank: u32 = (out.len() + 1) as u32;
            let ranked = if explain {
                match item.scoring {
                    Some(s) => RecallResult {
                        memory: item.memory,
                        relevance_score: item.relevance_score,
                        staleness_score: item.staleness_score,
                        freshness_label: item.freshness_label,
                        scoring: Some(ScoringBreakdown { final_rank: rank, ..s }),
                    },
                    None => item,
                }
            } else {
                item
            };
            let ghost before = out@;
            out.push(ranked);
            proof {
                let f1 = ov.take(k + 1).filter(|i: int| keeps_result(rs[i], include_stale));
                let f0 = done.filter(|i: int| keeps_result(rs[i], include_stale));
                assert(f1 =~= f0.push(i as int));
                assert forall|q: int| 0 <= q < out@.len() implies #[trigger] out@[q] == ranked_result(
                    rs[f1[q]],
                    (q + 1) as u32,
                    explain,
                ) by {
                    if q < before.len() {
                        assert(out@[q] == before[q]);
                        assert(f1[q] == f0[q]);
                    }
                }
            }
        } else {
            proof {
                let f1 = ov.take(k + 1).filter(|i: int| keeps_result(rs[i], include_stale));
                let f0 = done.filter(|i: int| keeps_result(rs[i], include_stale));
                assert(f1 =~= f0);
            }
        }
        k = k + 1;
    }
    proof {
        assert(returned_indices(rs, limit, include_stale) == t.filter(|i: int| keeps_result(rs[i], include_stale)));
    }
    out
}

} // verus!
