//! Staleness: per-type thresholds, freshness labels, and which stale
//! memories a reflection proposes for eviction, in what order.
//! Scores and settings travel as the bits of `f64` values.
use vstd::prelude::*;
use crate::kinds::MemoryType;
use crate::format::{decimal, decimal_string_i64, decimal_string_u64, signed_decimal};
use crate::memory::Memory;
use crate::access_tracker::{dedup_first, lemma_dedup_first};
use crate::requests::StalenessDistribution;
use crate::similarity::{F64_SIGN, F64_INFINITY, f64_ge, f64_bits_ge, f64_is_nan, f64_key, f64_lt, f64_bits_lt, f64_magnitude, total_key, total_key_of};

verus! {

pub const WEIGHT_AGE: u64 = 0x3fd9_9999_9999_999a;
pub const WEIGHT_ACCESS: u64 = 0x3fd0_0000_0000_0000;
pub const WEIGHT_VALIDATED: u64 = 0x3fd0_0000_0000_0000;
pub const WEIGHT_COUNT: u64 = 0x3fb9_9999_9999_999a;
pub const EPISODIC_HALF_LIFE: u64 = 0x403e_0000_0000_0000;
pub const SEMANTIC_HALF_LIFE: u64 = 0x4066_8000_0000_0000;
pub const PROCEDURAL_HALF_LIFE: u64 = 0x4076_d000_0000_0000;
pub const EPISODIC_STALE_THRESHOLD: u64 = 0x3fe6_6666_6666_6666;
pub const SEMANTIC_STALE_THRESHOLD: u64 = 0x3fe9_9999_9999_999a;
pub const PROCEDURAL_STALE_THRESHOLD: u64 = 0x3fec_cccc_cccc_cccd;
pub const COUNT_SCALE: u64 = 0x4024_0000_0000_0000;

/// How fresh a memory is relative to its type's stale threshold.
#[derive(Clone, Copy, Debug, PartialEq, Eq, Structural)]
pub enum FreshnessLabel {
    Fresh,
    Aging,
    Stale,
}

/// Weights of the staleness components (bits of `f64` values).
#[derive(Clone, Copy, Debug)]
pub struct StalenessWeights {
    pub age: u64,
    pub access: u64,
    pub validated: u64,
    pub count: u64,
}

/// Decay settings of one memory type (bits of `f64` values).
#[derive(Clone, Copy, Debug)]
pub struct TypeStalenessConfig {
    pub half_life_days: u64,
    pub stale_threshold: u64,
}

/// Staleness settings, with one entry per memory type.
#[derive(Clone, Copy, Debug)]
pub struct StalenessConfig {
    pub weights: StalenessWeights,
    pub count_scale: u64,
    pub episodic: TypeStalenessConfig,
    pub semantic: TypeStalenessConfig,
    pub procedural: TypeStalenessConfig,
}

/// The settings of memory type `t`.
pub open spec fn type_config(c: StalenessConfig, t: MemoryType) -> TypeStalenessConfig {
    match t {
        MemoryType::Episodic => c.episodic,
        MemoryType::Semantic => c.semantic,
        MemoryType::Procedural => c.procedural,
    }
}

/// `f64::min` on bits: NaN gives way to the other operand; otherwise the
/// smaller value (the first operand when they compare equal).
pub open spec fn f64_min(a: u64, b: u64) -> u64 {
    if f64_is_nan(a) {
        b
    } else if f64_is_nan(b) {
        a
    } else if f64_key(b) < f64_key(a) {
        b
    } else {
        a
    }
}

fn f64_min_bits(a: u64, b: u64) -> (r: u64)
    ensures
        r == f64_min(a, b),
{
    let ma: u64 = if a >= F64_SIGN { a - F64_SIGN } else { a };
    let mb: u64 = if b >= F64_SIGN { b - F64_SIGN } else { b };
    if ma > F64_INFINITY {
        return b;
    }
    if mb > F64_INFINITY {
        return a;
    }
    let ka: i128 = if a >= F64_SIGN { -(ma as i128) } else { ma as i128 };
    let kb: i128 = if b >= F64_SIGN { -(mb as i128) } else { mb as i128 };
    if kb < ka {
        b
    } else {
        a
    }
}

impl StalenessConfig {
    /// The settings of memory type `t`.
    pub fn for_type(&self, t: MemoryType) -> (r: TypeStalenessConfig)
        ensures
            r == type_config(*self, t),
    {
        match t {
            MemoryType::Episodic => self.episodic,
            MemoryType::Semantic => self.semantic,
            MemoryType::Procedural => self.procedural,
        }
    }

    /// The shortest half-life over the memory types, folded from infinity
    /// with `f64::min` in the order episodic, semantic, procedural.
    pub fn min_half_life_days(&self) -> (r: u64)
        ensures
            r == f64_min(f64_min(f64_min(F64_INFINITY, self.episodic.half_life_days), self.semantic.half_life_days),
                self.procedural.half_life_days),
    {
        let a = f64_min_bits(F64_INFINITY, self.episodic.half_life_days);
        let b = f64_min_bits(a, self.semantic.half_life_days);
        f64_min_bits(b, self.procedural.half_life_days)
    }
}

impl Default for StalenessConfig {
    fn default() -> (c: Self)
        ensures
            c.weights == (StalenessWeights {
                age: WEIGHT_AGE,
                access: WEIGHT_ACCESS,
                validated: WEIGHT_VALIDATED,
                count: WEIGHT_COUNT,
            }),
            c.count_scale == COUNT_SCALE,
            c.episodic == (TypeStalenessConfig {
                half_life_days: EPISODIC_HALF_LIFE,
                stale_threshold: EPISODIC_STALE_THRESHOLD,
            }),
            c.semantic == (TypeStalenessConfig {
                half_life_days: SEMANTIC_HALF_LIFE,
                stale_threshold: SEMANTIC_STALE_THRESHOLD,
            }),
            c.procedural == (TypeStalenessConfig {
                half_life_days: PROCEDURAL_HALF_LIFE,
                stale_threshold: PROCEDURAL_STALE_THRESHOLD,
            }),
    {
        StalenessConfig {
            weights: StalenessWeights {
                age: WEIGHT_AGE,
                access: WEIGHT_ACCESS,
                validated: WEIGHT_VALIDATED,
                count: WEIGHT_COUNT,
            },
            count_scale: COUNT_SCALE,
            episodic: TypeStalenessConfig {
                half_life_days: EPISODIC_HALF_LIFE,
                stale_threshold: EPISODIC_STALE_THRESHOLD,
            },
            semantic: TypeStalenessConfig {
                half_life_days: SEMANTIC_HALF_LIFE,
                stale_threshold: SEMANTIC_STALE_THRESHOLD,
            },
            procedural: TypeStalenessConfig {
                half_life_days: PROCEDURAL_HALF_LIFE,
                stale_threshold: PROCEDURAL_STALE_THRESHOLD,
            },
        }
    }
}

/// The stale threshold of memory type `t`.
pub fn threshold_for_type(config: &StalenessConfig, t: MemoryType) -> (r: u64)
    ensures
        r == type_config(*config, t).stale_threshold,
{
    config.for_type(t).stale_threshold
}

/// `m / 2` rounded to nearest, ties to even.
pub open spec fn halve_rounded(m: nat) -> nat {
    let q = m / 2;
    if m % 2 == 1 && q % 2 == 1 {
        q + 1
    } else {
        q
    }
}

/// Bits of `x * 0.5` for the binary64 value `x` with bits `b`: the exponent
/// drops by one; values whose exponent field is 0 or 1 come out subnormal,
/// rounded to nearest, ties to even; infinities and NaN keep their bits.
pub open spec fn f64_half(b: u64) -> u64 {
    let mag = f64_magnitude(b);
    let e = mag / 0x10_0000_0000_0000;
    let out: int = if e >= 0x7ff {
        mag
    } else if e >= 2 {
        mag - 0x10_0000_0000_0000
    } else {
        halve_rounded(mag as nat) as int
    };
    if b >= F64_SIGN {
        (out + F64_SIGN) as u64
    } else {
        out as u64
    }
}

fn f64_half_bits(b: u64) -> (r: u64)
    ensures
        r == f64_half(b),
{
    let neg = b >= F64_SIGN;
    let mag: u64 = if neg { b - F64_SIGN } else { b };
    let e = mag / 0x10_0000_0000_0000;
    let out: u64 = if e >= 0x7ff {
        mag
    } else if e >= 2 {
        mag - 0x10_0000_0000_0000
    } else {
        let q = mag / 2;
        if mag % 2 == 1 && q % 2 == 1 {
            q + 1
        } else {
            q
        }
    };
    if neg {
        out + F64_SIGN
    } else {
        out
    }
}

/// Below half the threshold a memory is fresh, below the threshold aging,
/// otherwise stale.
pub open spec fn label_of(score: u64, threshold: u64) -> FreshnessLabel {
    if f64_lt(score, f64_half(threshold)) {
        FreshnessLabel::Fresh
    } else if f64_lt(score, threshold) {
        FreshnessLabel::Aging
    } else {
        FreshnessLabel::Stale
    }
}

/// Halving a non-negative binary64 value never raises it.
proof fn lemma_half_not_above(b: u64)
    requires
        b < F64_SIGN,
    ensures
        f64_half(b) < F64_SIGN,
        f64_half(b) <= b,
{
    let mag = f64_magnitude(b);
    assert(mag == b as int);
    let e = mag / 0x10_0000_0000_0000;
    if e < 0x7ff && e < 2 {
        let m = mag as nat;
        assert(halve_rounded(m) <= m) by (nonlinear_arith)
            requires
                halve_rounded(m) == (if m % 2 == 1 && (m / 2) % 2 == 1 { m / 2 + 1 } else { m / 2 }),
        {
        }
    }
}

/// A score at or above a non-negative threshold is labelled stale: the
/// label and the stale test agree.
pub proof fn lemma_stale_is_labelled_stale(score: u64, threshold: u64)
    requires
        threshold < F64_SIGN,
        f64_ge(score, threshold),
    ensures
        label_of(score, threshold) == FreshnessLabel::Stale,
{
    lemma_half_not_above(threshold);
}

/// The freshness label of a staleness score against a stale threshold.
pub fn freshness_label(score: u64, threshold: u64) -> (r: FreshnessLabel)
    ensures
        r == label_of(score, threshold),
{
    if f64_bits_lt(score, f64_half_bits(threshold)) {
        FreshnessLabel::Fresh
    } else if f64_bits_lt(score, threshold) {
        FreshnessLabel::Aging
    } else {
        FreshnessLabel::Stale
    }
}

/// Eviction order of a memory: unaccessed episodic memories first, then
/// other episodic ones, then the rest.
pub open spec fn priority_of(t: MemoryType, access_count: u64) -> u8 {
    match t {
        MemoryType::Episodic => if access_count == 0 {
            0
        } else {
            1
        },
        _ => 2,
    }
}

fn priority_for(t: MemoryType, access_count: u64) -> (r: u8)
    ensures
        r == priority_of(t, access_count),
{
    match t {
        MemoryType::Episodic => if access_count == 0 {
            0
        } else {
            1
        },
        _ => 2,
    }
}

/// The eviction priority of a memory (lower goes first).
pub fn eviction_priority(m: &Memory) -> (r: u8)
    ensures
        r == priority_of(m.memory_type, m.access_count),
{
    priority_for(m.memory_type, m.access_count)
}

/// What staleness reports know of a memory: its type, its access count,
/// its creation time (microseconds) and the bits of its staleness score.
#[derive(Clone, Copy, Debug)]
pub struct StaleScore {
    pub memory_type: MemoryType,
    pub access_count: u64,
    pub created_at: i64,
    pub score: u64,
}

/// A memory proposed for eviction: its index among the candidates, its
/// score, its label and its 1-based rank.
#[derive(Clone, Copy, Debug)]
pub struct StaleEntry {
    pub index: usize,
    pub staleness_score: u64,
    pub freshness_label: FreshnessLabel,
    pub eviction_rank: u32,
}

/// A candidate is stale when its score reaches its type's threshold.
pub open spec fn is_stale(c: StaleScore, config: StalenessConfig) -> bool {
    f64_ge(c.score, type_config(config, c.memory_type).stale_threshold)
}

/// Candidate `i` comes before candidate `j` in eviction order: lower
/// priority first, then higher score (in `total_cmp` order), then earlier
/// candidate.
pub open spec fn evicted_before(cs: Seq<StaleScore>, i: int, j: int) -> bool {
    let pi = priority_of(cs[i].memory_type, cs[i].access_count);
    let pj = priority_of(cs[j].memory_type, cs[j].access_count);
    ||| pi < pj
    ||| pi == pj && total_key(cs[i].score) > total_key(cs[j].score)
    ||| pi == pj && total_key(cs[i].score) == total_key(cs[j].score) && i < j
}

proof fn lemma_evicted_trans(cs: Seq<StaleScore>, i: int, j: int, k: int)
    requires
        evicted_before(cs, i, j),
        evicted_before(cs, j, k),
    ensures
        evicted_before(cs, i, k),
{
}

proof fn lemma_evicted_total(cs: Seq<StaleScore>, i: int, j: int)
    requires
        i != j,
    ensures
        evicted_before(cs, i, j) || evicted_before(cs, j, i),
        !(evicted_before(cs, i, j) && evicted_before(cs, j, i)),
{
}

/// `s` holds candidate indices in strict eviction order.
pub open spec fn in_eviction_order(cs: Seq<StaleScore>, s: Seq<usize>) -> bool {
    forall|p: int, q: int| 0 <= p < q < s.len() ==> evicted_before(cs, #[trigger] s[p] as int, #[trigger] s[q] as int)
}

fn evicted_before_exec(cs: &Vec<StaleScore>, i: usize, j: usize) -> (r: bool)
    requires
        i < cs.len(),
        j < cs.len(),
    ensures
        r == evicted_before(cs@, i as int, j as int),
{
    let pi = priority_for(cs[i].memory_type, cs[i].access_count);
    let pj = priority_for(cs[j].memory_type, cs[j].access_count);
    let ki = total_key_of(cs[i].score);
    let kj = total_key_of(cs[j].score);
    pi < pj || (pi == pj && ki > kj) || (pi == pj && ki == kj && i < j)
}

/// Number of stale candidates.
pub open spec fn stale_count(cs: Seq<StaleScore>, config: StalenessConfig) -> nat
    decreases cs.len(),
{
    if cs.len() == 0 {
        0
    } else {
        stale_count(cs.drop_last(), config) + if is_stale(cs.last(), config) {
            1nat
        } else {
            0nat
        }
    }
}

/// Inserts candidate `i`, which orders against every index of `sorted`,
/// where eviction order puts it.
fn insert_in_order(cs: &Vec<StaleScore>, start: Vec<usize>, i: usize) -> (r: Vec<usize>)
    requires
        i < cs@.len(),
        in_eviction_order(cs@, start@),
        forall|q: int| 0 <= q < start@.len() ==> #[trigger] start@[q] < cs@.len() && start@[q] != i,
    ensures
        in_eviction_order(cs@, r@),
        r@.len() == start@.len() + 1,
        forall|x: usize| r@.contains(x) <==> (start@.contains(x) || x == i),
{
    let mut sorted = start;
    let mut p: usize = 0;
    while p < sorted.len() && evicted_before_exec(cs, sorted[p], i)
        invariant
            i < cs@.len(),
            sorted@ == start@,
            p <= sorted@.len(),
            forall|q: int| 0 <= q < sorted@.len() ==> #[trigger] sorted@[q] < cs@.len(),
            forall|q: int| 0 <= q < p ==> evicted_before(cs@, #[trigger] sorted@[q] as int, i as int),
        decreases sorted.len() - p,
    {
        p = p + 1;
    }
    let ghost old_sorted = sorted@;
    if p < sorted.len() {
        proof {
            lemma_evicted_total(cs@, i as int, old_sorted[p as int] as int);
        }
    }
    sorted.insert(p, i);
    proof {
        assert(sorted@ =~= old_sorted.insert(p as int, i));
        assert forall|a: int, b: int| 0 <= a < b < sorted@.len() implies evicted_before(cs@, #[trigger] sorted@[a] as int, #[trigger] sorted@[b] as int) by {
            if b < p {
                assert(sorted@[a] == old_sorted[a] && sorted@[b] == old_sorted[b]);
            } else if b == p {
                assert(sorted@[a] == old_sorted[a]);
            } else if a == p {
                assert(sorted@[b] == old_sorted[b - 1]);
                if b - 1 > p {
                    assert(evicted_before(cs@, old_sorted[p as int] as int, old_sorted[b - 1] as int));
                    lemma_evicted_trans(cs@, i as int, old_sorted[p as int] as int, old_sorted[b - 1] as int);
                }
            } else if a < p {
                assert(sorted@[a] == old_sorted[a] && sorted@[b] == old_sorted[b - 1]);
            } else {
                assert(sorted@[a] == old_sorted[a - 1] && sorted@[b] == old_sorted[b - 1]);
            }
        }
        assert(old_sorted == start@);
        assert forall|x: usize| #[trigger] sorted@.contains(x) <==> (start@.contains(x) || x == i) by {
            if old_sorted.contains(x) {
                let q = choose|q: int| 0 <= q < old_sorted.len() && old_sorted[q] == x;
                if q < p {
                    assert(sorted@[q] == x);
                } else {
                    assert(sorted@[q + 1] == x);
                }
            }
            if x == i {
                assert(sorted@[p as int] == x);
            }
            if sorted@.contains(x) {
                let q = choose|q: int| 0 <= q < sorted@.len() && sorted@[q] == x;
                if q < p {
                    assert(old_sorted[q] == x);
                } else if q > p {
                    assert(old_sorted[q - 1] == x);
                }
            }
        }
    }
    sorted
}

/// The stale candidates, in eviction order.
fn stale_in_order(cs: &Vec<StaleScore>, config: &StalenessConfig) -> (r: Vec<usize>)
    ensures
        in_eviction_order(cs@, r@),
        r@.len() == stale_count(cs@, *config),
        forall|x: usize| r@.contains(x) <==> (x < cs@.len() && is_stale(cs@[x as int], *config)),
{
    let mut sorted: Vec<usize> = Vec::new();
    let mut i: usize = 0;
    while i < cs.len()
        invariant
            i <= cs.len(),
            sorted@.len() == stale_count(cs@.take(i as int), *config),
            in_eviction_order(cs@, sorted@),
            forall|x: usize| sorted@.contains(x) <==> (x < i && is_stale(cs@[x as int], *config)),
        decreases cs.len() - i,
    {
        proof {
            assert(cs@.take(i + 1).drop_last() =~= cs@.take(i as int));
            assert(cs@.take(i + 1).last() == cs@[i as int]);
        }
        let th = threshold_for_type(config, cs[i].memory_type);
        if f64_bits_ge(cs[i].score, th) {
            proof {
                assert forall|q: int| 0 <= q < sorted@.len() implies #[trigger] sorted@[q] < cs@.len() && sorted@[q] != i by {
                    assert(sorted@.contains(sorted@[q]));
                }
            }
            sorted = insert_in_order(cs, sorted, i);
        }
        i = i + 1;
    }
    assert(cs@.take(cs.len() as int) =~= cs@);
    sorted
}

/// The stale candidates to report: the `limit` first stale candidates in
/// eviction order (all of them when there are fewer), each with its score,
/// its freshness label against its type's threshold and its rank.
#[verifier::rlimit(40)]
pub fn plan_stale(cs: &Vec<StaleScore>, config: &StalenessConfig, limit: u32) -> (r: Vec<StaleEntry>)
    ensures
        r@.len() == if stale_count(cs@, *config) < limit {
            stale_count(cs@, *config)
        } else {
            limit as nat
        },
        forall|k: int| 0 <= k < r@.len() ==> {
            let i = #[trigger] r@[k].index as int;
            &&& 0 <= i < cs@.len()
            &&& is_stale(cs@[i], *config)
            &&& r@[k].staleness_score == cs@[i].score
            &&& r@[k].freshness_label == label_of(cs@[i].score, type_config(*config, cs@[i].memory_type).stale_threshold)
            &&& (type_config(*config, cs@[i].memory_type).stale_threshold < F64_SIGN ==> r@[k].freshness_label
                == FreshnessLabel::Stale)
            &&& r@[k].eviction_rank == k + 1
        },
        forall|k1: int, k2: int| 0 <= k1 < k2 < r@.len() ==> evicted_before(cs@, #[trigger] r@[k1].index as int, #[trigger] r@[k2].index as int),
        forall|j: int| 0 <= j < cs@.len() && is_stale(cs@[j], *config) && (forall|k: int| 0 <= k < r@.len() ==> #[trigger] r@[k].index != j)
            ==> forall|k: int| 0 <= k < r@.len() ==> evicted_before(cs@, #[trigger] r@[k].index as int, j),
{
    let sorted = stale_in_order(cs, config);
    let count: usize = cs.len();
    let mut out: Vec<StaleEntry> = Vec::new();
    let mut k: usize = 0;
    while k < sorted.len() && (k as u64) < (limit as u64)
        invariant
            k <= sorted@.len(),
            k <= limit,
            out@.len() == k,
            in_eviction_order(cs@, sorted@),
            forall|x: usize| sorted@.contains(x) <==> (x < cs@.len() && is_stale(cs@[x as int], *config)),
            forall|q: int| 0 <= q < k ==> {
                let e = #[trigger] out@[q];
                &&& e.index == sorted@[q]
                &&& e.staleness_score == cs@[sorted@[q] as int].score
                &&& e.freshness_label == label_of(cs@[sorted@[q] as int].score, type_config(*config, cs@[sorted@[q] as int].memory_type).stale_threshold)
                &&& e.eviction_rank == q + 1
            },
        decreases sorted.len() - k,
    {
        let idx = sorted[k];
        assert(sorted@.contains(idx));
        let th = threshold_for_type(config, cs[idx].memory_type);
        let label = freshness_label(cs[idx].score, th);
        out.push(StaleEntry {
            index: idx,
            staleness_score: cs[idx].score,
            freshness_label: label,
            eviction_rank: (k as u32) + 1,
        });
        k = k + 1;
    }
    proof {
        assert forall|q: int| 0 <= q < out@.len() implies 0 <= #[trigger] out@[q].index < cs@.len() && is_stale(cs@[out@[q].index as int], *config)
            && (type_config(*config, cs@[out@[q].index as int].memory_type).stale_threshold < F64_SIGN ==> out@[q].freshness_label
                == FreshnessLabel::Stale) by {
            assert(sorted@.contains(sorted@[q]));
            let c = cs@[out@[q].index as int];
            let th = type_config(*config, c.memory_type).stale_threshold;
            if th < F64_SIGN {
                lemma_stale_is_labelled_stale(c.score, th);
            }
        }
        assert forall|k1: int, k2: int| 0 <= k1 < k2 < out@.len() implies evicted_before(cs@, #[trigger] out@[k1].index as int, #[trigger] out@[k2].index as int) by {
            assert(out@[k1].index == sorted@[k1] && out@[k2].index == sorted@[k2]);
        }
        assert forall|j: int| 0 <= j < cs@.len() && is_stale(cs@[j], *config) && (forall|q: int| 0 <= q < out@.len() ==> #[trigger] out@[q].index != j)
            implies forall|q: int| 0 <= q < out@.len() ==> evicted_before(cs@, #[trigger] out@[q].index as int, j) by {
            assert(sorted@.contains(j as usize));
            let p0 = choose|p: int| 0 <= p < sorted@.len() && sorted@[p] == j as usize;
            assert forall|q: int| 0 <= q < out@.len() implies evicted_before(cs@, #[trigger] out@[q].index as int, j) by {
                if p0 < out@.len() {
                    assert(out@[p0].index == j);
                }
                assert(out@[q].index == sorted@[q]);
            }
        }
    }
    out
}

/// Microseconds in a day.
pub const MICROS_PER_DAY: i128 = 86_400_000_000;

/// The creation time before which memories are candidates for staleness:
/// `days` whole days before `now` (microsecond timestamps).
pub fn stale_cutoff(now: i64, days: i64) -> (r: i64)
    requires
        i64::MIN <= now - days * MICROS_PER_DAY <= i64::MAX,
    ensures
        r == now - days * MICROS_PER_DAY,
{
    let d: i128 = days as i128;
    assert(-0x8000_0000_0000_0000 * 86_400_000_000 <= d * 86_400_000_000 <= 0x8000_0000_0000_0000 * 86_400_000_000)
        by (nonlinear_arith)
        requires
            -0x8000_0000_0000_0000 <= d <= 0x8000_0000_0000_0000,
    ;
    let span: i128 = d * MICROS_PER_DAY;
    (now as i128 - span) as i64
}

/// Whole days from `then` to `now` (microsecond timestamps), truncated
/// toward zero as `TimeDelta::num_days` does.
pub open spec fn days_between(now: i64, then: i64) -> int {
    let d = now - then;
    if d >= 0 {
        d / (MICROS_PER_DAY as int)
    } else {
        -((-d) / (MICROS_PER_DAY as int))
    }
}

fn days_between_exec(now: i64, then: i64) -> (r: i64)
    ensures
        r == days_between(now, then),
{
    let d: i128 = now as i128 - then as i128;
    if d >= 0 {
        let q = d / MICROS_PER_DAY;
        assert(q <= 0x10_0000_0000) by (nonlinear_arith)
            requires
                q == d / 86_400_000_000,
                0 <= d <= 0x1_0000_0000_0000_0000,
        ;
        q as i64
    } else {
        let q = (-d) / MICROS_PER_DAY;
        assert(q <= 0x10_0000_0000) by (nonlinear_arith)
            requires
                q == (-d) / 86_400_000_000,
                0 <= -d <= 0x1_0000_0000_0000_0000,
        ;
        -(q as i64)
    }
}

/// Why a memory is proposed for eviction.
pub open spec fn stale_reason(m: Memory, now: i64) -> Seq<char> {
    let validated = match m.last_validated {
        None => "never validated"@,
        Some(v) => "last validated "@ + signed_decimal(days_between(now, v)) + " days ago"@,
    };
    "created "@ + signed_decimal(days_between(now, m.created_at)) + " days ago, last accessed "@
        + signed_decimal(days_between(now, m.last_accessed)) + " days ago, "@ + validated + ", "@ + decimal(
        m.access_count as nat,
    ) + " accesses"@
}

/// Describes a memory's age, last access, last validation and access count
/// (`now` and the memory's times in microseconds).
pub fn build_stale_reason(m: &Memory, now: i64) -> (r: String)
    ensures
        r@ == stale_reason(*m, now),
{
    let mut r = String::from_str("created ");
    r.append(decimal_string_i64(days_between_exec(now, m.created_at)).as_str());
    r.append(" days ago, last accessed ");
    r.append(decimal_string_i64(days_between_exec(now, m.last_accessed)).as_str());
    r.append(" days ago, ");
    match m.last_validated {
        None => r.append("never validated"),
        Some(v) => {
            r.append("last validated ");
            r.append(decimal_string_i64(days_between_exec(now, v)).as_str());
            r.append(" days ago");
        },
    }
    r.append(", ");
    r.append(decimal_string_u64(m.access_count).as_str());
    r.append(" accesses");
    proof {
        reveal_strlit("created ");
        reveal_strlit(" days ago, last accessed ");
        reveal_strlit(" days ago, ");
        reveal_strlit("never validated");
        reveal_strlit("last validated ");
        reveal_strlit(" days ago");
        reveal_strlit(", ");
        reveal_strlit(" accesses");
    }
    r
}

/// Number of stale candidates, as `stale_count` specifies.
pub fn count_stale(cs: &Vec<StaleScore>, config: &StalenessConfig) -> (r: u64)
    ensures
        r == stale_count(cs@, *config),
{
    let mut n: u64 = 0;
    let mut i: usize = 0;
    while i < cs.len()
        invariant
            i <= cs.len(),
            n == stale_count(cs@.take(i as int), *config),
            n <= i,
        decreases cs.len() - i,
    {
        proof {
            assert(cs@.take(i + 1).drop_last() =~= cs@.take(i as int));
            assert(cs@.take(i + 1).last() == cs@[i as int]);
        }
        let th = threshold_for_type(config, cs[i].memory_type);
        if f64_bits_ge(cs[i].score, th) {
            n = n + 1;
        }
        i = i + 1;
    }
    assert(cs@.take(cs.len() as int) =~= cs@);
    n
}

/// The label of a scored memory against its type's threshold.
pub open spec fn label_for(c: StaleScore, config: StalenessConfig) -> FreshnessLabel {
    label_of(c.score, type_config(config, c.memory_type).stale_threshold)
}

/// How many memories carry label `l`.
pub open spec fn label_count(cs: Seq<StaleScore>, config: StalenessConfig, l: FreshnessLabel) -> nat
    decreases cs.len(),
{
    if cs.len() == 0 {
        0
    } else {
        label_count(cs.drop_last(), config, l) + if label_for(cs.last(), config) == l {
            1nat
        } else {
            0nat
        }
    }
}

/// How many memories have type `t`.
pub open spec fn type_count(cs: Seq<StaleScore>, t: MemoryType) -> nat
    decreases cs.len(),
{
    if cs.len() == 0 {
        0
    } else {
        type_count(cs.drop_last(), t) + if cs.last().memory_type == t {
            1nat
        } else {
            0nat
        }
    }
}

/// How many memories of type `t` are labelled stale.
pub open spec fn type_stale_count(cs: Seq<StaleScore>, t: MemoryType, config: StalenessConfig) -> nat
    decreases cs.len(),
{
    if cs.len() == 0 {
        0
    } else {
        type_stale_count(cs.drop_last(), t, config) + if cs.last().memory_type == t && label_for(cs.last(), config)
            == FreshnessLabel::Stale {
            1nat
        } else {
            0nat
        }
    }
}

/// Total access count of the memories of type `t`.
pub open spec fn type_access_total(cs: Seq<StaleScore>, t: MemoryType) -> nat
    decreases cs.len(),
{
    if cs.len() == 0 {
        0
    } else {
        type_access_total(cs.drop_last(), t) + if cs.last().memory_type == t {
            cs.last().access_count as nat
        } else {
            0nat
        }
    }
}

/// Earliest creation time among the memories of type `t`.
pub open spec fn type_oldest(cs: Seq<StaleScore>, t: MemoryType) -> Option<i64>
    decreases cs.len(),
{
    if cs.len() == 0 {
        None
    } else {
        let prev = type_oldest(cs.drop_last(), t);
        if cs.last().memory_type != t {
            prev
        } else {
            match prev {
                Some(o) => Some(if cs.last().created_at < o { cs.last().created_at } else { o }),
                None => Some(cs.last().created_at),
            }
        }
    }
}

/// Latest creation time among the memories of type `t`.
pub open spec fn type_newest(cs: Seq<StaleScore>, t: MemoryType) -> Option<i64>
    decreases cs.len(),
{
    if cs.len() == 0 {
        None
    } else {
        let prev = type_newest(cs.drop_last(), t);
        if cs.last().memory_type != t {
            prev
        } else {
            match prev {
                Some(o) => Some(if cs.last().created_at > o { cs.last().created_at } else { o }),
                None => Some(cs.last().created_at),
            }
        }
    }
}

/// Per-type figures of a staleness report; averages are left to the
/// caller, which divides the totals by the count.
#[derive(Clone, Copy, Debug)]
pub struct TypeTally {
    pub memory_type: MemoryType,
    pub count: u64,
    pub stale_count: u64,
    pub access_total: u128,
    pub oldest: i64,
    pub newest: i64,
}

/// The tally of type `t` over `cs`.
pub open spec fn tally_matches(tl: TypeTally, cs: Seq<StaleScore>, config: StalenessConfig) -> bool {
    let t = tl.memory_type;
    &&& tl.count == type_count(cs, t)
    &&& tl.stale_count == type_stale_count(cs, t, config)
    &&& tl.access_total == type_access_total(cs, t)
    &&& type_oldest(cs, t) == Some(tl.oldest)
    &&& type_newest(cs, t) == Some(tl.newest)
}

/// The types of the memories, in order.
pub open spec fn types_of(cs: Seq<StaleScore>) -> Seq<MemoryType> {
    cs.map_values(|c: StaleScore| c.memory_type)
}

proof fn lemma_type_absent(cs: Seq<StaleScore>, t: MemoryType, config: StalenessConfig)
    requires
        !types_of(cs).contains(t),
    ensures
        type_count(cs, t) == 0,
        type_stale_count(cs, t, config) == 0,
        type_oldest(cs, t) is None,
        type_newest(cs, t) is None,
        type_access_total(cs, t) == 0,
    decreases cs.len(),
{
    if cs.len() > 0 {
        let p = cs.drop_last();
        assert(types_of(p) =~= types_of(cs).drop_last());
        if types_of(p).contains(t) {
            let k = choose|k: int| 0 <= k < p.len() && #[trigger] types_of(p)[k] == t;
            assert(types_of(cs)[k] == t);
        }
        lemma_type_absent(p, t, config);
        assert(types_of(cs)[cs.len() - 1] == cs.last().memory_type);
    }
}

/// The types of the tallies, in order.
pub open spec fn tally_types(ts: Seq<TypeTally>) -> Seq<MemoryType> {
    ts.map_values(|tl: TypeTally| tl.memory_type)
}

fn same_type(a: MemoryType, b: MemoryType) -> (r: bool)
    ensures
        r == (a == b),
{
    match (a, b) {
        (MemoryType::Episodic, MemoryType::Episodic) => true,
        (MemoryType::Semantic, MemoryType::Semantic) => true,
        (MemoryType::Procedural, MemoryType::Procedural) => true,
        _ => false,
    }
}

/// The freshness distribution of the memories and, per memory type in the
/// order types first occur, its count, stale count, total accesses and
/// oldest and newest creation times.
pub fn tally_staleness(cs: &Vec<StaleScore>, config: &StalenessConfig) -> (r: (StalenessDistribution, Vec<TypeTally>))
    ensures
        r.0.fresh == label_count(cs@, *config, FreshnessLabel::Fresh),
        r.0.aging == label_count(cs@, *config, FreshnessLabel::Aging),
        r.0.stale == label_count(cs@, *config, FreshnessLabel::Stale),
        tally_types(r.1@) == dedup_first(types_of(cs@)),
        forall|k: int| 0 <= k < r.1@.len() ==> tally_matches(#[trigger] r.1@[k], cs@, *config),
{
    let mut dist = StalenessDistribution { fresh: 0, aging: 0, stale: 0 };
    let mut ts: Vec<TypeTally> = Vec::new();
    let mut i: usize = 0;
    while i < cs.len()
        invariant
            i <= cs.len(),
            dist.fresh == label_count(cs@.take(i as int), *config, FreshnessLabel::Fresh),
            dist.aging == label_count(cs@.take(i as int), *config, FreshnessLabel::Aging),
            dist.stale == label_count(cs@.take(i as int), *config, FreshnessLabel::Stale),
            dist.fresh + dist.aging + dist.stale == i,
            tally_types(ts@) == dedup_first(types_of(cs@.take(i as int))),
            forall|k: int| 0 <= k < ts@.len() ==> tally_matches(#[trigger] ts@[k], cs@.take(i as int), *config),
            forall|k: int| 0 <= k < ts@.len() ==> (#[trigger] ts@[k]).count <= i && ts@[k].access_total <= i
                * 0xffff_ffff_ffff_ffffu128 && ts@[k].stale_count <= ts@[k].count,
        decreases cs.len() - i,
    {
        let ghost prev = cs@.take(i as int);
        let ghost next = cs@.take(i + 1);
        let x = cs[i];
        proof {
            assert(next.drop_last() =~= prev);
            assert(next.last() == x);
            assert(types_of(next) =~= types_of(prev).push(x.memory_type));
            assert(types_of(next).drop_last() =~= types_of(prev));
            lemma_dedup_first(types_of(prev));
        }
        let th = threshold_for_type(config, x.memory_type);
        let label = freshness_label(x.score, th);
        match label {
            FreshnessLabel::Fresh => {
                dist.fresh = dist.fresh + 1;
            },
            FreshnessLabel::Aging => {
                dist.aging = dist.aging + 1;
            },
            FreshnessLabel::Stale => {
                dist.stale = dist.stale + 1;
            },
        }
        let is_stale_label = match label {
            FreshnessLabel::Stale => true,
            _ => false,
        };
        let mut j: usize = 0;
        while j < ts.len() && !same_type(ts[j].memory_type, x.memory_type)
            invariant
                j <= ts@.len(),
                forall|q: int| 0 <= q < j ==> (#[trigger] ts@[q]).memory_type != x.memory_type,
            decreases ts.len() - j,
        {
            j = j + 1;
        }
        let ghost old_ts = ts@;
        if j < ts.len() {
            let old = ts[j];
            proof {
                assert(old.count <= i);
                assert(old.access_total <= i * 0xffff_ffff_ffff_ffffu128);
                assert(old.access_total + x.access_count <= (i + 1) * 0xffff_ffff_ffff_ffffu128) by (nonlinear_arith)
                    requires
                        old.access_total <= i * 0xffff_ffff_ffff_ffffu128,
                        x.access_count <= 0xffff_ffff_ffff_ffffu64,
                ;
                assert((i + 1) * 0xffff_ffff_ffff_ffffu128 <= 0xffff_ffff_ffff_ffffu128 * 0xffff_ffff_ffff_ffffu128) by (nonlinear_arith)
                    requires
                        i < 0xffff_ffff_ffff_ffffu128,
                ;
            }
            let updated = TypeTally {
                memory_type: old.memory_type,
                count: old.count + 1,
                stale_count: if is_stale_label { old.stale_count + 1 } else { old.stale_count },
                access_total: old.access_total + x.access_count as u128,
                oldest: if x.created_at < old.oldest { x.created_at } else { old.oldest },
                newest: if x.created_at > old.newest { x.created_at } else { old.newest },
            };
            ts.set(j, updated);
            proof {
                assert(dedup_first(types_of(prev)).contains(x.memory_type)) by {
                    assert(tally_types(old_ts)[j as int] == x.memory_type);
                }
                assert(tally_types(ts@) =~= tally_types(old_ts));
                assert forall|k: int| 0 <= k < ts@.len() implies tally_matches(#[trigger] ts@[k], next, *config) by {
                    if k != j {
                        assert(ts@[k] == old_ts[k]);
                        assert(tally_types(old_ts)[k] != tally_types(old_ts)[j as int]);
                        assert(old_ts[k].memory_type != x.memory_type);
                    } else {
                        assert(tally_matches(old_ts[k], prev, *config));
                        assert(type_count(next, x.memory_type) == type_count(prev, x.memory_type) + 1);
                    }
                }
            }
        } else {
            proof {
                assert(!dedup_first(types_of(prev)).contains(x.memory_type)) by {
                    if dedup_first(types_of(prev)).contains(x.memory_type) {
                        let q = choose|q: int| 0 <= q < tally_types(old_ts).len() && tally_types(old_ts)[q] == x.memory_type;
                        assert(old_ts[q].memory_type == x.memory_type);
                    }
                }
                lemma_type_absent(prev, x.memory_type, *config);
            }
            ts.push(TypeTally {
                memory_type: x.memory_type,
                count: 1,
                stale_count: if is_stale_label { 1 } else { 0 },
                access_total: x.access_count as u128,
                oldest: x.created_at,
                newest: x.created_at,
            });
            proof {
                assert(tally_types(ts@) =~= tally_types(old_ts).push(x.memory_type));
                assert forall|k: int| 0 <= k < ts@.len() implies tally_matches(#[trigger] ts@[k], next, *config) by {
                    if k < old_ts.len() {
                        assert(ts@[k] == old_ts[k]);
                        assert(old_ts[k].memory_type != x.memory_type);
                    }
                }
            }
        }
        proof {
            assert forall|k: int| 0 <= k < ts@.len() implies (#[trigger] ts@[k]).count <= i + 1 && ts@[k].access_total
                <= (i + 1) * 0xffff_ffff_ffff_ffffu128 && ts@[k].stale_count <= ts@[k].count by {
                if k < old_ts.len() && k != j {
                    assert(ts@[k] == old_ts[k]);
                    assert(i * 0xffff_ffff_ffff_ffffu128 <= (i + 1) * 0xffff_ffff_ffff_ffffu128) by (nonlinear_arith);
                }
            }
        }
        i = i + 1;
    }
    assert(cs@.take(cs.len() as int) =~= cs@);
    (dist, ts)
}

} // verus!
