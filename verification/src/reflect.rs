//! Reflection over stored facts: which entity names stand for one another,
//! and which live facts contradict each other.
use vstd::prelude::*;
use crate::access_tracker::strings_view;
use crate::audit::{add_distinct, contains_str, sort_strings, strictly_increasing};
use crate::groups::{PredicateGroups, clone_strings, group_view, pairs_to_map, distinct_keys, lemma_pairs_to_map_index};
use crate::memory::{Entity, Memory};
use crate::requests::ContradictionMatchType;
use crate::similarity::{F64_ONE, f64_gt, f64_bits_gt, jaro_winkler_bits, jaro_winkler_of};
use crate::text::{lowercase_of, str_eq, to_lowercase};

verus! {

/// The names of an entity as the alias map keys them: its aliases, then its
/// canonical name, each lower-cased.
pub open spec fn entity_names(e: Entity) -> Seq<Seq<char>> {
    e.aliases@.map_values(|a: String| lowercase_of(a@)).push(lowercase_of(e.name@))
}

/// `k` is a name of one of `es`.
pub open spec fn is_entity_name(es: Seq<Entity>, k: Seq<char>) -> bool {
    exists|i: int| 0 <= i < es.len() && #[trigger] entity_names(es[i]).contains(k)
}

/// `m` is a name, other than `k`, of an entity of `es` that `k` also names.
pub open spec fn co_named(es: Seq<Entity>, k: Seq<char>, m: Seq<char>) -> bool {
    m != k && exists|i: int|
        0 <= i < es.len() && #[trigger] entity_names(es[i]).contains(k) && entity_names(es[i]).contains(m)
}

proof fn lemma_strings_deep_view(v: Vec<String>)
    ensures
        v.deep_view() == strings_view(v@),
{
    assert(v.deep_view() =~= strings_view(v@));
}

proof fn lemma_names_extend(es: Seq<Entity>, i: int, k: Seq<char>, m: Seq<char>)
    requires
        0 <= i < es.len(),
    ensures
        is_entity_name(es.take(i + 1), k) <==> (is_entity_name(es.take(i), k) || entity_names(es[i]).contains(k)),
        co_named(es.take(i + 1), k, m) <==> (co_named(es.take(i), k, m) || (m != k
            && entity_names(es[i]).contains(k) && entity_names(es[i]).contains(m))),
{
    let t0 = es.take(i);
    let t1 = es.take(i + 1);
    assert(t1[i] == es[i]);
    if is_entity_name(t1, k) {
        let j = choose|j: int| 0 <= j < t1.len() && #[trigger] entity_names(t1[j]).contains(k);
        if j < i {
            assert(t0[j] == t1[j]);
        }
    }
    if is_entity_name(t0, k) {
        let j = choose|j: int| 0 <= j < t0.len() && #[trigger] entity_names(t0[j]).contains(k);
        assert(t0[j] == t1[j]);
    }
    if co_named(t1, k, m) {
        let j = choose|j: int|
            0 <= j < t1.len() && #[trigger] entity_names(t1[j]).contains(k) && entity_names(t1[j]).contains(m);
        if j < i {
            assert(t0[j] == t1[j]);
        }
    }
    if co_named(t0, k, m) {
        let j = choose|j: int|
            0 <= j < t0.len() && #[trigger] entity_names(t0[j]).contains(k) && entity_names(t0[j]).contains(m);
        assert(t0[j] == t1[j]);
    }
}

/// The names of `e` in the order `entity_names` gives them.
fn names_of(e: &Entity) -> (r: Vec<String>)
    ensures
        strings_view(r@) == entity_names(*e),
{
    let mut r: Vec<String> = Vec::new();
    let mut i: usize = 0;
    while i < e.aliases.len()
        invariant
            i <= e.aliases.len(),
            strings_view(r@) == e.aliases@.take(i as int).map_values(|a: String| lowercase_of(a@)),
        decreases e.aliases.len() - i,
    {
        let l = to_lowercase(e.aliases[i].as_str());
        let ghost before = strings_view(r@);
        r.push(l);
        assert(strings_view(r@) =~= before.push(lowercase_of(e.aliases@[i as int]@)));
        assert(e.aliases@.take(i + 1).map_values(|a: String| lowercase_of(a@)) =~= e.aliases@.take(
            i as int,
        ).map_values(|a: String| lowercase_of(a@)).push(lowercase_of(e.aliases@[i as int]@)));
        i = i + 1;
    }
    assert(e.aliases@.take(e.aliases.len() as int) =~= e.aliases@);
    let n = to_lowercase(e.name.as_str());
    let ghost before = strings_view(r@);
    r.push(n);
    assert(strings_view(r@) =~= before.push(lowercase_of(e.name@)));
    r
}

/// The strings of `v` other than `x`, in order.
fn others_than(v: &Vec<String>, x: &String) -> (r: Vec<String>)
    ensures
        forall|m: Seq<char>| strings_view(r@).contains(m) <==> (strings_view(v@).contains(m) && m != x@),
{
    let mut r: Vec<String> = Vec::new();
    let mut i: usize = 0;
    while i < v.len()
        invariant
            i <= v.len(),
            forall|m: Seq<char>| strings_view(r@).contains(m) <==> (strings_view(v@).take(i as int).contains(m) && m != x@),
        decreases v.len() - i,
    {
        let ghost before = strings_view(r@);
        let ghost t0 = strings_view(v@).take(i as int);
        let ghost t1 = strings_view(v@).take(i + 1);
        let ghost y = v@[i as int]@;
        proof {
            assert forall|m: Seq<char>| t1.contains(m) <==> (t0.contains(m) || m == y) by {
                if t1.contains(m) {
                    let k = choose|k: int| 0 <= k < t1.len() && t1[k] == m;
                    if k < i {
                        assert(t0[k] == m);
                    }
                }
                if t0.contains(m) {
                    let k = choose|k: int| 0 <= k < t0.len() && t0[k] == m;
                    assert(t1[k] == m);
                }
                if m == y {
                    assert(t1[i as int] == m);
                }
            }
        }
        if !str_eq(v[i].as_str(), x.as_str()) {
            r.push(v[i].clone());
            proof {
                let after = strings_view(r@);
                assert(after =~= before.push(y));
                assert forall|m: Seq<char>| after.contains(m) <==> (before.contains(m) || m == y) by {
                    if after.contains(m) {
                        let k = choose|k: int| 0 <= k < after.len() && after[k] == m;
                        if k < before.len() {
                            assert(before[k] == m);
                        }
                    }
                    if before.contains(m) {
                        let k = choose|k: int| 0 <= k < before.len() && before[k] == m;
                        assert(after[k] == m);
                    }
                    if m == y {
                        assert(after[before.len() as int] == m);
                    }
                }
            }
        }
        i = i + 1;
    }
    assert(strings_view(v@).take(v.len() as int) =~= strings_view(v@));
    r
}

/// Map from every entity name (lower-cased canonical names and aliases) to
/// the other names of the entities it names, sorted and without repeats.
pub fn build_entity_alias_map(entities: &[Entity]) -> (r: PredicateGroups)
    ensures
        forall|k: Seq<char>| r@.dom().contains(k) <==> is_entity_name(entities@, k),
        forall|k: Seq<char>| #[trigger] r@.dom().contains(k) ==> strictly_increasing(r@[k]),
        forall|k: Seq<char>, m: Seq<char>| #![trigger r@[k].contains(m)] r@.dom().contains(k) ==> (r@[k].contains(m)
            <==> co_named(entities@, k, m)),
{
    let ghost es = entities@;
    let mut acc = PredicateGroups::new();
    let mut i: usize = 0;
    while i < entities.len()
        invariant
            i <= entities.len(),
            es == entities@,
            forall|k: Seq<char>| acc@.dom().contains(k) <==> is_entity_name(es.take(i as int), k),
            forall|k: Seq<char>| #[trigger] acc@.dom().contains(k) ==> acc@[k].no_duplicates(),
            forall|k: Seq<char>, m: Seq<char>| #![trigger acc@[k].contains(m)] acc@.dom().contains(k) ==> (acc@[k].contains(m)
                <==> co_named(es.take(i as int), k, m)),
        decreases entities.len() - i,
    {
        let nv = names_of(&entities[i]);
        let ghost names = strings_view(nv@);
        let mut j: usize = 0;
        while j < nv.len()
            invariant
                i < entities.len(),
                j <= nv.len(),
                es == entities@,
                names == strings_view(nv@),
                names == entity_names(es[i as int]),
                forall|k: Seq<char>| acc@.dom().contains(k) <==> (is_entity_name(es.take(i as int), k)
                    || names.take(j as int).contains(k)),
                forall|k: Seq<char>| #[trigger] acc@.dom().contains(k) ==> acc@[k].no_duplicates(),
                forall|k: Seq<char>, m: Seq<char>| #![trigger acc@[k].contains(m)] acc@.dom().contains(k) ==> (acc@[k].contains(m)
                    <==> (co_named(es.take(i as int), k, m) || (names.take(j as int).contains(k) && m != k
                    && names.contains(m)))),
            decreases nv.len() - j,
        {
            let n = &nv[j];
            let others = others_than(&nv, n);
            let cur: Vec<String> = match acc.get(n.as_str()) {
                Some(v) => clone_strings(v),
                None => Vec::new(),
            };
            proof {
                lemma_strings_deep_view(cur);
                lemma_strings_deep_view(others);
            }
            let merged = add_distinct(cur, &others);
            proof {
                lemma_strings_deep_view(merged);
            }
            let ghost old_acc = acc@;
            let ghost mv = strings_view(merged@);
            acc.insert(n.clone(), merged);
            proof {
                let nn = names[j as int];
                assert(nn == n@);
                assert(acc@ == old_acc.insert(nn, mv));
                assert(acc@[nn] == mv);
                assert(forall|x: Seq<char>| mv.contains(x) <==> ((old_acc.dom().contains(nn) && old_acc[nn].contains(x)) || (names.contains(x) && x != nn)));

                let t0 = names.take(j as int);
                let t1 = names.take(j + 1);
                assert forall|k: Seq<char>| t1.contains(k) <==> (t0.contains(k) || k == nn) by {
                    if t1.contains(k) {
                        let q = choose|q: int| 0 <= q < t1.len() && t1[q] == k;
                        if q < j {
                            assert(t0[q] == k);
                        }
                    }
                    if t0.contains(k) {
                        let q = choose|q: int| 0 <= q < t0.len() && t0[q] == k;
                        assert(t1[q] == k);
                    }
                    if k == nn {
                        assert(t1[j as int] == k);
                    }
                }
                assert forall|k: Seq<char>| #[trigger] acc@.dom().contains(k) implies (forall|m: Seq<char>| acc@[k].contains(m)
                    <==> (co_named(es.take(i as int), k, m) || (t1.contains(k) && m != k && names.contains(m)))) by {
                    assert forall|m: Seq<char>| acc@[k].contains(m) <==> (co_named(es.take(i as int), k, m) || (t1.contains(k)
                        && m != k && names.contains(m))) by {
                        if k == nn {
                            if old_acc.dom().contains(k) {
                                assert(old_acc[k].contains(m) <==> (co_named(es.take(i as int), k, m) || (t0.contains(k)
                                    && m != k && names.contains(m))));
                            } else {
                                assert(!co_named(es.take(i as int), k, m)) by {
                                    if co_named(es.take(i as int), k, m) {
                                        let q = choose|q: int| 0 <= q < es.take(i as int).len()
                                            && #[trigger] entity_names(es.take(i as int)[q]).contains(k)
                                            && entity_names(es.take(i as int)[q]).contains(m);
                                        assert(is_entity_name(es.take(i as int), k));
                                    }
                                }
                            }
                        } else {
                            assert(old_acc.dom().contains(k));
                        }
                    }
                }
            }
            j = j + 1;
        }
        proof {
            assert(names.take(nv.len() as int) =~= names);
            assert forall|k: Seq<char>| acc@.dom().contains(k) <==> is_entity_name(es.take(i + 1), k) by {
                lemma_names_extend(es, i as int, k, k);
            }
            assert forall|k: Seq<char>| #[trigger] acc@.dom().contains(k) implies (forall|m: Seq<char>| acc@[k].contains(m)
                <==> co_named(es.take(i + 1), k, m)) by {
                assert forall|m: Seq<char>| acc@[k].contains(m) <==> co_named(es.take(i + 1), k, m) by {
                    lemma_names_extend(es, i as int, k, m);
                }
            }
        }
        i = i + 1;
    }
    assert(es.take(entities.len() as int) =~= es);
    let pairs = acc.into_pairs();
    let ghost ps = pairs@.map_values(|e: (String, Vec<String>)| group_view(e));
    let mut out = PredicateGroups::new();
    let mut q: usize = 0;
    while q < pairs.len()
        invariant
            q <= pairs.len(),
            ps == pairs@.map_values(|e: (String, Vec<String>)| group_view(e)),
            distinct_keys(ps),
            es == entities@,
            forall|k: Seq<char>| pairs_to_map(ps).dom().contains(k) <==> is_entity_name(es, k),
            forall|k: Seq<char>| #[trigger] pairs_to_map(ps).dom().contains(k) ==> pairs_to_map(ps)[k].no_duplicates(),
            forall|k: Seq<char>, m: Seq<char>| #![trigger pairs_to_map(ps)[k].contains(m)] pairs_to_map(ps).dom().contains(k) ==> (
                pairs_to_map(ps)[k].contains(m) <==> co_named(es, k, m)),
            forall|k: Seq<char>| out@.dom().contains(k) <==> (exists|p: int| 0 <= p < q && #[trigger] ps[p].0 == k),
            forall|p: int| 0 <= p < q ==> #[trigger] out@.dom().contains(ps[p].0),
            forall|k: Seq<char>| #[trigger] out@.dom().contains(k) ==> strictly_increasing(out@[k]),
            forall|k: Seq<char>, m: Seq<char>| #![trigger out@[k].contains(m)] out@.dom().contains(k) ==> (out@[k].contains(m)
                <==> co_named(es, k, m)),
        decreases pairs.len() - q,
    {
        proof {
            lemma_pairs_to_map_index(ps, q as int);
        }
        let key = pairs[q].0.clone();
        let list = clone_strings(&pairs[q].1);
        proof {
            lemma_strings_deep_view(list);
        }
        let sorted = sort_strings(list);
        proof {
            lemma_strings_deep_view(sorted);
        }
        let ghost old_out = out@;
        out.insert(key, sorted);
        proof {
            assert forall|k: Seq<char>| out@.dom().contains(k) <==> (exists|p: int| 0 <= p < q + 1 && #[trigger] ps[p].0
                == k) by {
                if k == ps[q as int].0 {
                    assert(ps[q as int].0 == k);
                }
                if exists|p: int| 0 <= p < q + 1 && #[trigger] ps[p].0 == k {
                    let p = choose|p: int| 0 <= p < q + 1 && #[trigger] ps[p].0 == k;
                    if p < q {
                        assert(old_out.dom().contains(k));
                    }
                }
            }
        }
        q = q + 1;
    }
    proof {
        assert forall|k: Seq<char>| out@.dom().contains(k) <==> is_entity_name(entities@, k) by {
            if pairs_to_map(ps).dom().contains(k) {
                let p = choose|p: int| 0 <= p < ps.len() && ps[p].0 == k;
                assert(out@.dom().contains(ps[p].0));
            }
        }
    }
    out
}

/// Bits of `0.75_f64`: predicates more similar than this count as the same
/// predicate spelled differently.
pub const REFLECT_FUZZY_PREDICATE_THRESHOLD: u64 = 0x3fe8_0000_0000_0000;

/// Two live facts that disagree: indices of the memories in the scanned
/// list, how they were matched, and the bits of the `f64` similarity of their
/// predicates.
#[derive(Clone, Copy, Debug)]
pub struct ContradictionPair {
    pub a: usize,
    pub b: usize,
    pub match_type: ContradictionMatchType,
    pub similarity: u64,
}

/// The object of a fact, empty when it has none.
pub open spec fn effective_object(m: Memory) -> Seq<char> {
    match m.object {
        Some(o) => o@,
        None => Seq::empty(),
    }
}

/// The normalised predicate of a fact, else its raw predicate, else empty.
pub open spec fn effective_predicate(m: Memory) -> Seq<char> {
    match m.normalized_predicate {
        Some(p) => p@,
        None => match m.predicate {
            Some(p) => p@,
            None => Seq::empty(),
        },
    }
}

/// The lower-cased subject of a fact.
pub open spec fn subject_key(m: Memory) -> Option<Seq<char>> {
    match m.subject {
        Some(s) => Some(lowercase_of(s@)),
        None => None,
    }
}

/// Subject and predicate under which exact contradictions are sought: the
/// lower-cased subject with the normalised predicate, or else the lower-cased
/// raw predicate.
pub open spec fn fact_key(m: Memory) -> Option<(Seq<char>, Seq<char>)> {
    match subject_key(m) {
        None => None,
        Some(s) => match m.normalized_predicate {
            Some(p) => Some((s, p@)),
            None => match m.predicate {
                Some(p) => Some((s, lowercase_of(p@))),
                None => None,
            },
        },
    }
}

/// Index of the first group keyed `k`.
pub open spec fn find_key<K>(gs: Seq<(K, Seq<int>)>, k: K) -> Option<int>
    decreases gs.len(),
{
    if gs.len() == 0 {
        None
    } else {
        match find_key(gs.drop_last(), k) {
            Some(i) => Some(i),
            None => if gs.last().0 == k {
                Some(gs.len() - 1)
            } else {
                None
            },
        }
    }
}

/// Indices grouped by key: groups in the order their keys first occur,
/// members in increasing order; indices without a key belong to no group.
pub open spec fn group_by_key<K>(keys: Seq<Option<K>>) -> Seq<(K, Seq<int>)>
    decreases keys.len(),
{
    if keys.len() == 0 {
        Seq::empty()
    } else {
        let gs = group_by_key(keys.drop_last());
        let i = keys.len() - 1;
        match keys.last() {
            None => gs,
            Some(k) => match find_key(gs, k) {
                Some(g) => gs.update(g, (k, gs[g].1.push(i))),
                None => gs.push((k, seq![i])),
            },
        }
    }
}

pub proof fn lemma_find_key<K>(gs: Seq<(K, Seq<int>)>, k: K)
    ensures
        match find_key(gs, k) {
            Some(i) => 0 <= i < gs.len() && gs[i].0 == k && forall|j: int| 0 <= j < i ==> gs[j].0 != k,
            None => forall|j: int| 0 <= j < gs.len() ==> gs[j].0 != k,
        },
    decreases gs.len(),
{
    if gs.len() > 0 {
        lemma_find_key(gs.drop_last(), k);
        assert(forall|j: int| 0 <= j < gs.len() - 1 ==> gs.drop_last()[j] == gs[j]);
    }
}

/// How two facts with different objects are judged: in the exact pass every
/// such pair contradicts; in the fuzzy pass only pairs whose predicates differ
/// yet are more similar than the threshold.
pub open spec fn pair_verdict(ma: Memory, mb: Memory, fuzzy: bool) -> Option<(ContradictionMatchType, u64)> {
    if !fuzzy {
        Some((ContradictionMatchType::ExactPredicate, F64_ONE))
    } else {
        let pa = effective_predicate(ma);
        let pb = effective_predicate(mb);
        if pa == pb {
            None
        } else {
            let s = jaro_winkler_of(pa, pb);
            if f64_gt(s, REFLECT_FUZZY_PREDICATE_THRESHOLD) {
                Some((ContradictionMatchType::FuzzyPredicate, s))
            } else {
                None
            }
        }
    }
}

/// One pair of a group: skipped when both ids are already matched or the
/// objects agree; otherwise reported (and both ids marked) when the verdict
/// says so.
pub open spec fn pair_step(
    ms: Seq<Memory>,
    st: (Seq<ContradictionPair>, Seq<Seq<char>>),
    a: int,
    b: int,
    fuzzy: bool,
) -> (Seq<ContradictionPair>, Seq<Seq<char>>) {
    let ma = ms[a];
    let mb = ms[b];
    if st.1.contains(ma.id@) && st.1.contains(mb.id@) {
        st
    } else if effective_object(ma) == effective_object(mb) {
        st
    } else {
        match pair_verdict(ma, mb, fuzzy) {
            None => st,
            Some((t, s)) => (
                st.0.push(ContradictionPair { a: a as usize, b: b as usize, match_type: t, similarity: s }),
                st.1.push(ma.id@).push(mb.id@),
            ),
        }
    }
}

/// The pairs of every group, from group `gi`, member `x` and partner `y` on:
/// each group's pairs `(g[x], g[y])` with `x < y`, in order.
pub open spec fn scan_groups(
    ms: Seq<Memory>,
    gs: Seq<Seq<int>>,
    gi: int,
    x: int,
    y: int,
    st: (Seq<ContradictionPair>, Seq<Seq<char>>),
    fuzzy: bool,
) -> (Seq<ContradictionPair>, Seq<Seq<char>>)
    decreases gs.len() - gi, (if 0 <= gi < gs.len() { gs[gi].len() } else { 0 }) - x,
        (if 0 <= gi < gs.len() { gs[gi].len() } else { 0 }) - y,
{
    if gi < 0 || gi >= gs.len() {
        st
    } else if x >= gs[gi].len() {
        scan_groups(ms, gs, gi + 1, 0, 1, st, fuzzy)
    } else if y >= gs[gi].len() {
        scan_groups(ms, gs, gi, x + 1, x + 2, st, fuzzy)
    } else {
        scan_groups(ms, gs, gi, x, y + 1, pair_step(ms, st, gs[gi][x], gs[gi][y], fuzzy), fuzzy)
    }
}

/// Members of the groups that the aliases of `subj` (lower-cased, other than
/// `subj` itself) key, alias by alias.
pub open spec fn alias_members(gs: Seq<(Seq<char>, Seq<int>)>, aliases: Seq<Seq<char>>, subj: Seq<char>) -> Seq<int>
    decreases aliases.len(),
{
    if aliases.len() == 0 {
        Seq::empty()
    } else {
        let rest = alias_members(gs, aliases.drop_last(), subj);
        let l = lowercase_of(aliases.last());
        if l == subj {
            rest
        } else {
            match find_key(gs, l) {
                Some(g) => rest + gs[g].1,
                None => rest,
            }
        }
    }
}

/// The alias pass from subject group `gi`, member `x` and alias member `y`
/// on: an unmatched fact and an unmatched fact about an alias of its subject,
/// with another id, the same predicate and another object, contradict.
pub open spec fn alias_scan(
    ms: Seq<Memory>,
    gs: Seq<(Seq<char>, Seq<int>)>,
    amap: Map<Seq<char>, Seq<Seq<char>>>,
    matched: Seq<Seq<char>>,
    gi: int,
    x: int,
    y: int,
    out: Seq<ContradictionPair>,
) -> Seq<ContradictionPair>
    decreases gs.len() - gi, (if 0 <= gi < gs.len() { gs[gi].1.len() } else { 0 }) - x,
        (if 0 <= gi < gs.len() && amap.dom().contains(gs[gi].0) {
            alias_members(gs, amap[gs[gi].0], gs[gi].0).len()
        } else {
            0
        }) - y,
{
    if gi < 0 || gi >= gs.len() {
        out
    } else if !amap.dom().contains(gs[gi].0) || x >= gs[gi].1.len() {
        alias_scan(ms, gs, amap, matched, gi + 1, 0, 0, out)
    } else {
        let am = alias_members(gs, amap[gs[gi].0], gs[gi].0);
        let mi = gs[gi].1[x];
        let m = ms[mi];
        if matched.contains(m.id@) || y >= am.len() {
            alias_scan(ms, gs, amap, matched, gi, x + 1, 0, out)
        } else {
            let oi = am[y];
            let o = ms[oi];
            let out2 = if o.id@ == m.id@ || matched.contains(o.id@) || effective_predicate(m)
                != effective_predicate(o) || effective_object(m) == effective_object(o) {
                out
            } else {
                out.push(
                    ContradictionPair {
                        a: mi as usize,
                        b: oi as usize,
                        match_type: ContradictionMatchType::SimilarSubject,
                        similarity: F64_ONE,
                    },
                )
            };
            alias_scan(ms, gs, amap, matched, gi, x, y + 1, out2)
        }
    }
}

/// The members of each group.
pub open spec fn group_members<K>(gs: Seq<(K, Seq<int>)>) -> Seq<Seq<int>> {
    gs.map_values(|g: (K, Seq<int>)| g.1)
}

/// The contradictions among live semantic facts: first pairs with the same
/// subject and predicate and different objects; then pairs with the same
/// subject, similar but different predicates and different objects, unless
/// both facts were already reported; then facts whose subjects are aliases of
/// one another, with the same predicate and different objects, where neither
/// was reported before.
pub open spec fn contradictions(ms: Seq<Memory>, amap: Map<Seq<char>, Seq<Seq<char>>>) -> Seq<ContradictionPair> {
    let g1 = group_by_key(ms.map_values(|m: Memory| fact_key(m)));
    let g2 = group_by_key(ms.map_values(|m: Memory| subject_key(m)));
    let s1 = scan_groups(ms, group_members(g1), 0, 0, 1, (Seq::empty(), Seq::empty()), false);
    let s2 = scan_groups(ms, group_members(g2), 0, 0, 1, s1, true);
    alias_scan(ms, g2, amap, s2.1, 0, 0, 0, s2.0)
}

spec fn idx_view(v: Vec<usize>) -> Seq<int> {
    v@.map_values(|x: usize| x as int)
}

spec fn subject_groups_view(gs: Seq<(String, Vec<usize>)>) -> Seq<(Seq<char>, Seq<int>)> {
    gs.map_values(|g: (String, Vec<usize>)| (g.0@, idx_view(g.1)))
}

spec fn fact_groups_view(gs: Seq<((String, String), Vec<usize>)>) -> Seq<((Seq<char>, Seq<char>), Seq<int>)> {
    gs.map_values(|g: ((String, String), Vec<usize>)| ((g.0.0@, g.0.1@), idx_view(g.1)))
}

spec fn members_view(gs: Seq<Vec<usize>>) -> Seq<Seq<int>> {
    gs.map_values(|v: Vec<usize>| idx_view(v))
}

/// Every member of every group is below `n`.
spec fn members_below(gs: Seq<Seq<int>>, n: int) -> bool {
    forall|g: int, j: int| 0 <= g < gs.len() && 0 <= j < gs[g].len() ==> 0 <= #[trigger] gs[g][j] < n
}

fn subject_key_of(m: &Memory) -> (r: Option<String>)
    ensures
        match r {
            Some(s) => subject_key(*m) == Some(s@),
            None => subject_key(*m) is None,
        },
{
    match &m.subject {
        Some(s) => Some(to_lowercase(s.as_str())),
        None => None,
    }
}

fn fact_key_of(m: &Memory) -> (r: Option<(String, String)>)
    ensures
        match r {
            Some(k) => fact_key(*m) == Some((k.0@, k.1@)),
            None => fact_key(*m) is None,
        },
{
    let s = match subject_key_of(m) {
        Some(s) => s,
        None => return None,
    };
    match &m.normalized_predicate {
        Some(p) => Some((s, p.clone())),
        None => match &m.predicate {
            Some(p) => Some((s, to_lowercase(p.as_str()))),
            None => None,
        },
    }
}

fn effective_object_of(m: &Memory) -> (r: &str)
    ensures
        r@ == effective_object(*m),
{
    match &m.object {
        Some(o) => o.as_str(),
        None => {
            proof {
                reveal_strlit("");
            }
            ""
        },
    }
}

fn effective_predicate_of(m: &Memory) -> (r: &str)
    ensures
        r@ == effective_predicate(*m),
{
    match &m.normalized_predicate {
        Some(p) => p.as_str(),
        None => match &m.predicate {
            Some(p) => p.as_str(),
            None => {
                proof {
                    reveal_strlit("");
                }
                ""
            },
        },
    }
}

fn copy_indices(v: &Vec<usize>) -> (r: Vec<usize>)
    ensures
        r@ == v@,
{
    let mut r: Vec<usize> = Vec::new();
    let mut i: usize = 0;
    while i < v.len()
        invariant
            i <= v.len(),
            r@ == v@.take(i as int),
        decreases v.len() - i,
    {
        r.push(v[i]);
        assert(r@ =~= v@.take(i + 1));
        i = i + 1;
    }
    assert(v@.take(v.len() as int) =~= v@);
    r
}

/// Index of the first subject group keyed `k`.
fn find_subject(gs: &Vec<(String, Vec<usize>)>, k: &str) -> (r: Option<usize>)
    ensures
        match r {
            Some(j) => find_key(subject_groups_view(gs@), k@) == Some(j as int),
            None => find_key(subject_groups_view(gs@), k@) is None,
        },
{
    let ghost gv = subject_groups_view(gs@);
    proof {
        lemma_find_key(gv, k@);
    }
    let mut j: usize = 0;
    while j < gs.len()
        invariant
            j <= gs.len(),
            gv == subject_groups_view(gs@),
            forall|q: int| 0 <= q < j ==> gv[q].0 != k@,
        decreases gs.len() - j,
    {
        if str_eq(gs[j].0.as_str(), k) {
            assert(gv[j as int].0 == k@);
            proof {
                lemma_find_key(gv, k@);
            }
            return Some(j);
        }
        j = j + 1;
    }
    proof {
        lemma_find_key(gv, k@);
    }
    None
}

/// Index of the first fact group keyed `(s, p)`.
fn find_fact(gs: &Vec<((String, String), Vec<usize>)>, s: &str, p: &str) -> (r: Option<usize>)
    ensures
        match r {
            Some(j) => find_key(fact_groups_view(gs@), (s@, p@)) == Some(j as int),
            None => find_key(fact_groups_view(gs@), (s@, p@)) is None,
        },
{
    let ghost gv = fact_groups_view(gs@);
    proof {
        lemma_find_key(gv, (s@, p@));
    }
    let mut j: usize = 0;
    while j < gs.len()
        invariant
            j <= gs.len(),
            gv == fact_groups_view(gs@),
            forall|q: int| 0 <= q < j ==> gv[q].0 != (s@, p@),
        decreases gs.len() - j,
    {
        if str_eq(gs[j].0.0.as_str(), s) && str_eq(gs[j].0.1.as_str(), p) {
            assert(gv[j as int].0 == (s@, p@));
            proof {
                lemma_find_key(gv, (s@, p@));
            }
            return Some(j);
        }
        j = j + 1;
    }
    proof {
        lemma_find_key(gv, (s@, p@));
    }
    None
}

/// Facts grouped by subject, in first-occurrence order.
fn group_subjects(ms: &[Memory]) -> (r: Vec<(String, Vec<usize>)>)
    ensures
        subject_groups_view(r@) == group_by_key(ms@.map_values(|m: Memory| subject_key(m))),
        members_below(group_members(subject_groups_view(r@)), ms.len() as int),
{
    let ghost keys = ms@.map_values(|m: Memory| subject_key(m));
    let mut gs: Vec<(String, Vec<usize>)> = Vec::new();
    let mut i: usize = 0;
    while i < ms.len()
        invariant
            i <= ms.len(),
            keys == ms@.map_values(|m: Memory| subject_key(m)),
            subject_groups_view(gs@) == group_by_key(keys.take(i as int)),
            members_below(group_members(subject_groups_view(gs@)), i as int),
        decreases ms.len() - i,
    {
        proof {
            assert(keys.take(i + 1).drop_last() =~= keys.take(i as int));
            assert(keys.take(i + 1).last() == subject_key(ms@[i as int]));
        }
        let ghost before = subject_groups_view(gs@);
        match subject_key_of(&ms[i]) {
            None => {},
            Some(k) => {
                let found = find_subject(&gs, k.as_str());
                proof {
                    lemma_find_key(before, k@);
                }
                match found {
                    Some(j) => {
                        let ghost old_gs = gs@;
                        let (kk, mut v) = gs.remove(j);
                        assert(kk@ == k@);
                        assert(idx_view(v) == before[j as int].1);
                        v.push(i);
                        assert(idx_view(v) =~= before[j as int].1.push(i as int));
                        gs.insert(j, (kk, v));
                        assert(gs@ =~= old_gs.update(j as int, (kk, v)));
                        proof {
                            assert(subject_groups_view(gs@) =~= before.update(j as int, (k@, before[j as int].1.push(i as int))));
                        }
                    },
                    None => {
                        let mut v: Vec<usize> = Vec::new();
                        v.push(i);
                        gs.push((k, v));
                        proof {
                            assert(idx_view(v) =~= seq![i as int]);
                            assert(subject_groups_view(gs@) =~= before.push((k@, seq![i as int])));
                        }
                    },
                }
            },
        }
        proof {
            let gm = group_members(subject_groups_view(gs@));
            let bm = group_members(before);
            assert forall|g: int, j: int| 0 <= g < gm.len() && 0 <= j < gm[g].len() implies 0 <= #[trigger] gm[g][j] < i + 1 by {
                if g < bm.len() && j < bm[g].len() {
                    assert(gm[g][j] == bm[g][j] || gm[g][j] == i);
                }
            }
        }
        i = i + 1;
    }
    assert(keys.take(ms.len() as int) =~= keys);
    gs
}

/// Facts grouped by subject and predicate key, in first-occurrence order.
fn group_facts(ms: &[Memory]) -> (r: Vec<((String, String), Vec<usize>)>)
    ensures
        fact_groups_view(r@) == group_by_key(ms@.map_values(|m: Memory| fact_key(m))),
        members_below(group_members(fact_groups_view(r@)), ms.len() as int),
{
    let ghost keys = ms@.map_values(|m: Memory| fact_key(m));
    let mut gs: Vec<((String, String), Vec<usize>)> = Vec::new();
    let mut i: usize = 0;
    while i < ms.len()
        invariant
            i <= ms.len(),
            keys == ms@.map_values(|m: Memory| fact_key(m)),
            fact_groups_view(gs@) == group_by_key(keys.take(i as int)),
            members_below(group_members(fact_groups_view(gs@)), i as int),
        decreases ms.len() - i,
    {
        proof {
            assert(keys.take(i + 1).drop_last() =~= keys.take(i as int));
            assert(keys.take(i + 1).last() == fact_key(ms@[i as int]));
        }
        let ghost before = fact_groups_view(gs@);
        match fact_key_of(&ms[i]) {
            None => {},
            Some(k) => {
                let found = find_fact(&gs, k.0.as_str(), k.1.as_str());
                proof {
                    lemma_find_key(before, (k.0@, k.1@));
                }
                match found {
                    Some(j) => {
                        let ghost old_gs = gs@;
                        let (kk, mut v) = gs.remove(j);
                        assert(kk.0@ == k.0@ && kk.1@ == k.1@);
                        assert(idx_view(v) == before[j as int].1);
                        v.push(i);
                        assert(idx_view(v) =~= before[j as int].1.push(i as int));
                        gs.insert(j, (kk, v));
                        assert(gs@ =~= old_gs.update(j as int, (kk, v)));
                        proof {
                            assert(fact_groups_view(gs@) =~= before.update(j as int, ((k.0@, k.1@), before[j as int].1.push(i as int))));
                        }
                    },
                    None => {
                        let mut v: Vec<usize> = Vec::new();
                        v.push(i);
                        gs.push((k, v));
                        proof {
                            assert(idx_view(v) =~= seq![i as int]);
                            assert(fact_groups_view(gs@) =~= before.push(((k.0@, k.1@), seq![i as int])));
                        }
                    },
                }
            },
        }
        proof {
            let gm = group_members(fact_groups_view(gs@));
            let bm = group_members(before);
            assert forall|g: int, j: int| 0 <= g < gm.len() && 0 <= j < gm[g].len() implies 0 <= #[trigger] gm[g][j] < i + 1 by {
                if g < bm.len() && j < bm[g].len() {
                    assert(gm[g][j] == bm[g][j] || gm[g][j] == i);
                }
            }
        }
        i = i + 1;
    }
    assert(keys.take(ms.len() as int) =~= keys);
    gs
}

fn subject_members(gs: &Vec<(String, Vec<usize>)>) -> (r: Vec<Vec<usize>>)
    ensures
        members_view(r@) == group_members(subject_groups_view(gs@)),
{
    let mut r: Vec<Vec<usize>> = Vec::new();
    let mut i: usize = 0;
    while i < gs.len()
        invariant
            i <= gs.len(),
            members_view(r@) == group_members(subject_groups_view(gs@)).take(i as int),
        decreases gs.len() - i,
    {
        let v = copy_indices(&gs[i].1);
        assert(group_members(subject_groups_view(gs@))[i as int] == idx_view(gs@[i as int].1));
        assert(idx_view(v) == idx_view(gs@[i as int].1));
        let ghost before = members_view(r@);
        r.push(v);
        assert(members_view(r@) =~= before.push(idx_view(v)));
        assert(group_members(subject_groups_view(gs@)).take(i + 1) =~= group_members(subject_groups_view(gs@)).take(
            i as int,
        ).push(idx_view(v)));
        i = i + 1;
    }
    assert(group_members(subject_groups_view(gs@)).take(gs.len() as int) =~= group_members(
        subject_groups_view(gs@),
    ));
    r
}

fn fact_members(gs: &Vec<((String, String), Vec<usize>)>) -> (r: Vec<Vec<usize>>)
    ensures
        members_view(r@) == group_members(fact_groups_view(gs@)),
{
    let mut r: Vec<Vec<usize>> = Vec::new();
    let mut i: usize = 0;
    while i < gs.len()
        invariant
            i <= gs.len(),
            members_view(r@) == group_members(fact_groups_view(gs@)).take(i as int),
        decreases gs.len() - i,
    {
        let v = copy_indices(&gs[i].1);
        assert(group_members(fact_groups_view(gs@))[i as int] == idx_view(gs@[i as int].1));
        assert(idx_view(v) == idx_view(gs@[i as int].1));
        let ghost before = members_view(r@);
        r.push(v);
        assert(members_view(r@) =~= before.push(idx_view(v)));
        assert(group_members(fact_groups_view(gs@)).take(i + 1) =~= group_members(fact_groups_view(gs@)).take(
            i as int,
        ).push(idx_view(v)));
        i = i + 1;
    }
    assert(group_members(fact_groups_view(gs@)).take(gs.len() as int) =~= group_members(fact_groups_view(gs@)));
    r
}

fn verdict_of(ma: &Memory, mb: &Memory, fuzzy: bool) -> (r: Option<(ContradictionMatchType, u64)>)
    ensures
        r == pair_verdict(*ma, *mb, fuzzy),
{
    if !fuzzy {
        return Some((ContradictionMatchType::ExactPredicate, F64_ONE));
    }
    let pa = effective_predicate_of(ma);
    let pb = effective_predicate_of(mb);
    if str_eq(pa, pb) {
        return None;
    }
    let sim = jaro_winkler_bits(pa, pb);
    if f64_bits_gt(sim, REFLECT_FUZZY_PREDICATE_THRESHOLD) {
        Some((ContradictionMatchType::FuzzyPredicate, sim))
    } else {
        None
    }
}

/// Runs one pass over the pairs of every group.
fn scan_pairs(
    ms: &[Memory],
    gs: &Vec<Vec<usize>>,
    out: Vec<ContradictionPair>,
    matched: Vec<String>,
    fuzzy: bool,
) -> (r: (Vec<ContradictionPair>, Vec<String>))
    requires
        members_below(members_view(gs@), ms@.len() as int),
    ensures
        (r.0@, strings_view(r.1@)) == scan_groups(ms@, members_view(gs@), 0, 0, 1, (out@, strings_view(matched@)), fuzzy),
{
    let ghost gv = members_view(gs@);
    let ghost target = scan_groups(ms@, gv, 0, 0, 1, (out@, strings_view(matched@)), fuzzy);
    let mut out = out;
    let mut matched = matched;
    let mut gi: usize = 0;
    let mut x: usize = 0;
    let mut y: usize = 1;
    while gi < gs.len()
        invariant
            gi <= gs.len(),
            gv == members_view(gs@),
            members_below(gv, ms@.len() as int),
            scan_groups(ms@, gv, gi as int, x as int, y as int, (out@, strings_view(matched@)), fuzzy) == target,
        decreases gs.len() - gi, (if gi < gs.len() { gs@[gi as int]@.len() } else { 0 }) - x,
            (if gi < gs.len() { gs@[gi as int]@.len() } else { 0 }) - y,
    {
        let glen = gs[gi].len();
        assert(gv[gi as int].len() == glen);
        if x >= glen {
            gi = gi + 1;
            x = 0;
            y = 1;
        } else if y >= glen {
            if x + 1 < glen {
                x = x + 1;
                y = x + 1;
            } else {
                proof {
                    let st = (out@, strings_view(matched@));
                    assert(scan_groups(ms@, gv, gi as int, x + 1, x + 2, st, fuzzy) == scan_groups(
                        ms@,
                        gv,
                        gi + 1,
                        0,
                        1,
                        st,
                        fuzzy,
                    ));
                }
                gi = gi + 1;
                x = 0;
                y = 1;
            }
        } else {
            let a = gs[gi][x];
            let b = gs[gi][y];
            assert(gv[gi as int][x as int] == a);
            assert(gv[gi as int][y as int] == b);
            assert(a < ms.len() && b < ms.len());
            let ma = &ms[a];
            let mb = &ms[b];
            let both = contains_str(&matched, ma.id.as_str()) && contains_str(&matched, mb.id.as_str());
            if !both && !str_eq(effective_object_of(ma), effective_object_of(mb)) {
                match verdict_of(ma, mb, fuzzy) {
                    Some((t, sim)) => {
                        out.push(ContradictionPair { a, b, match_type: t, similarity: sim });
                        let ghost mv = strings_view(matched@);
                        matched.push(ma.id.clone());
                        matched.push(mb.id.clone());
                        assert(strings_view(matched@) =~= mv.push(ma.id@).push(mb.id@));
                    },
                    None => {},
                }
            }
            y = y + 1;
        }
    }
    (out, matched)
}

/// Members of the groups keyed by the lower-cased aliases of `subj`.
fn alias_members_of(gs: &Vec<(String, Vec<usize>)>, aliases: &Vec<String>, subj: &String, n: usize) -> (r: Vec<usize>)
    requires
        members_below(group_members(subject_groups_view(gs@)), n as int),
    ensures
        idx_view(r) == alias_members(subject_groups_view(gs@), aliases.deep_view(), subj@),
        forall|j: int| 0 <= j < r@.len() ==> #[trigger] r@[j] < n,
{
    let ghost gv = subject_groups_view(gs@);
    let ghost dv = aliases.deep_view();
    proof {
        lemma_strings_deep_view(*aliases);
    }
    let mut r: Vec<usize> = Vec::new();
    let mut k: usize = 0;
    while k < aliases.len()
        invariant
            k <= aliases.len(),
            gv == subject_groups_view(gs@),
            dv == aliases.deep_view(),
            dv == strings_view(aliases@),
            members_below(group_members(gv), n as int),
            idx_view(r) == alias_members(gv, dv.take(k as int), subj@),
            forall|j: int| 0 <= j < r@.len() ==> #[trigger] r@[j] < n,
        decreases aliases.len() - k,
    {
        proof {
            assert(dv.take(k + 1).drop_last() =~= dv.take(k as int));
            assert(dv.take(k + 1).last() == aliases@[k as int]@);
        }
        let l = to_lowercase(aliases[k].as_str());
        if !str_eq(l.as_str(), subj.as_str()) {
            let found = find_subject(gs, l.as_str());
            proof {
                lemma_find_key(gv, l@);
            }
            match found {
                Some(g) => {
                    let ghost base = idx_view(r);
                    let mut q: usize = 0;
                    while q < gs[g].1.len()
                        invariant
                            g < gs.len(),
                            q <= gs@[g as int].1.len(),
                            gv == subject_groups_view(gs@),
                            members_below(group_members(gv), n as int),
                            idx_view(r) == base + gv[g as int].1.take(q as int),
                            forall|j: int| 0 <= j < r@.len() ==> #[trigger] r@[j] < n,
                        decreases gs@[g as int].1.len() - q,
                    {
                        let e = gs[g].1[q];
                        assert(gv[g as int].1[q as int] == e);
                        assert(group_members(gv)[g as int][q as int] == e);
                        let ghost before_r = idx_view(r);
                        r.push(e);
                        assert(idx_view(r) =~= before_r.push(e as int));
                        assert(gv[g as int].1.take(q + 1) =~= gv[g as int].1.take(q as int).push(e as int));
                        assert(idx_view(r) =~= base + gv[g as int].1.take(q + 1));
                        q = q + 1;
                    }
                    assert(gv[g as int].1.take(gs@[g as int].1.len() as int) =~= gv[g as int].1);
                },
                None => {},
            }
        }
        k = k + 1;
    }
    assert(dv.take(aliases.len() as int) =~= dv);
    r
}

/// The alias pass.
fn alias_pass(
    ms: &[Memory],
    gs: &Vec<(String, Vec<usize>)>,
    amap: &PredicateGroups,
    matched: &Vec<String>,
    out: Vec<ContradictionPair>,
) -> (r: Vec<ContradictionPair>)
    requires
        members_below(group_members(subject_groups_view(gs@)), ms@.len() as int),
    ensures
        r@ == alias_scan(ms@, subject_groups_view(gs@), amap@, strings_view(matched@), 0, 0, 0, out@),
{
    let ghost gv = subject_groups_view(gs@);
    let ghost mv = strings_view(matched@);
    let ghost target = alias_scan(ms@, gv, amap@, mv, 0, 0, 0, out@);
    let mut out = out;
    let mut gi: usize = 0;
    while gi < gs.len()
        invariant
            gi <= gs.len(),
            gv == subject_groups_view(gs@),
            mv == strings_view(matched@),
            members_below(group_members(gv), ms@.len() as int),
            alias_scan(ms@, gv, amap@, mv, gi as int, 0, 0, out@) == target,
        decreases gs.len() - gi,
    {
        let subj = &gs[gi].0;
        match amap.get(subj.as_str()) {
            None => {},
            Some(al) => {
                let am = alias_members_of(gs, al, subj, ms.len());
                let ghost amv = idx_view(am);
                let mut x: usize = 0;
                let mut y: usize = 0;
                while x < gs[gi].1.len()
                    invariant
                        gi < gs.len(),
                        x <= gs@[gi as int].1.len(),
                        gv == subject_groups_view(gs@),
                        mv == strings_view(matched@),
                        members_below(group_members(gv), ms@.len() as int),
                        amap@.dom().contains(gv[gi as int].0),
                        amv == idx_view(am),
                        amv == alias_members(gv, amap@[gv[gi as int].0], gv[gi as int].0),
                        forall|j: int| 0 <= j < am@.len() ==> #[trigger] am@[j] < ms@.len(),
                        alias_scan(ms@, gv, amap@, mv, gi as int, x as int, y as int, out@) == target,
                    decreases gs@[gi as int].1.len() - x, am@.len() - y,
                {
                    let mi = gs[gi].1[x];
                    assert(gv[gi as int].1[x as int] == mi);
                    assert(group_members(gv)[gi as int][x as int] == mi);
                    let m = &ms[mi];
                    if contains_str(matched, m.id.as_str()) || y >= am.len() {
                        x = x + 1;
                        y = 0;
                    } else {
                        let oi = am[y];
                        let o = &ms[oi];
                        let skip = str_eq(o.id.as_str(), m.id.as_str()) || contains_str(matched, o.id.as_str())
                            || !str_eq(effective_predicate_of(m), effective_predicate_of(o))
                            || str_eq(effective_object_of(m), effective_object_of(o));
                        if !skip {
                            out.push(
                                ContradictionPair {
                                    a: mi,
                                    b: oi,
                                    match_type: ContradictionMatchType::SimilarSubject,
                                    similarity: F64_ONE,
                                },
                            );
                        }
                        y = y + 1;
                    }
                }
            },
        }
        gi = gi + 1;
    }
    out
}

/// What every reported pair satisfies: both indices are in range and the
/// objects differ; an exact pair shares its subject and predicate key, a
/// fuzzy pair shares its subject and has different predicates more similar
/// than the threshold, and an alias pair joins two facts with other ids and
/// the same predicate.
pub open spec fn pair_ok(ms: Seq<Memory>, p: ContradictionPair) -> bool {
    let a = p.a as int;
    let b = p.b as int;
    &&& 0 <= a < ms.len()
    &&& 0 <= b < ms.len()
    &&& effective_object(ms[a]) != effective_object(ms[b])
    &&& match p.match_type {
        ContradictionMatchType::ExactPredicate => fact_key(ms[a]) is Some && fact_key(ms[a]) == fact_key(ms[b])
            && p.similarity == F64_ONE,
        ContradictionMatchType::FuzzyPredicate => subject_key(ms[a]) is Some && subject_key(ms[a]) == subject_key(
            ms[b],
        ) && effective_predicate(ms[a]) != effective_predicate(ms[b]) && f64_gt(
            p.similarity,
            REFLECT_FUZZY_PREDICATE_THRESHOLD,
        ),
        ContradictionMatchType::SimilarSubject => effective_predicate(ms[a]) == effective_predicate(ms[b])
            && ms[a].id@ != ms[b].id@ && p.similarity == F64_ONE,
    }
}

/// The facts at indices `i` and `j` fall in one group of the pass.
pub open spec fn same_group_key(ms: Seq<Memory>, i: int, j: int, fuzzy: bool) -> bool {
    if fuzzy {
        subject_key(ms[i]) is Some && subject_key(ms[i]) == subject_key(ms[j])
    } else {
        fact_key(ms[i]) is Some && fact_key(ms[i]) == fact_key(ms[j])
    }
}

proof fn lemma_group_by_key<K>(keys: Seq<Option<K>>)
    ensures
        forall|g: int, j: int|
            0 <= g < group_by_key(keys).len() && 0 <= j < group_by_key(keys)[g].1.len() ==> 0
                <= #[trigger] group_by_key(keys)[g].1[j] < keys.len() && keys[group_by_key(keys)[g].1[j]]
                == Some(group_by_key(keys)[g].0),
    decreases keys.len(),
{
    if keys.len() > 0 {
        let prev = keys.drop_last();
        lemma_group_by_key(prev);
        let gs = group_by_key(prev);
        let i = keys.len() - 1;
        assert(forall|q: int| 0 <= q < prev.len() ==> prev[q] == keys[q]);
        match keys.last() {
            None => {},
            Some(k) => {
                lemma_find_key(gs, k);
                let r = group_by_key(keys);
                match find_key(gs, k) {
                    Some(g0) => {
                        assert forall|g: int, j: int| 0 <= g < r.len() && 0 <= j < r[g].1.len() implies 0
                            <= #[trigger] r[g].1[j] < keys.len() && keys[r[g].1[j]] == Some(r[g].0) by {
                            if g != g0 || j < gs[g0].1.len() {
                                assert(r[g].1[j] == gs[g].1[j]);
                            }
                        }
                    },
                    None => {
                        assert forall|g: int, j: int| 0 <= g < r.len() && 0 <= j < r[g].1.len() implies 0
                            <= #[trigger] r[g].1[j] < keys.len() && keys[r[g].1[j]] == Some(r[g].0) by {
                            if g < gs.len() {
                                assert(r[g] == gs[g]);
                            }
                        }
                    },
                }
            },
        }
    }
}

proof fn lemma_scan_ok(
    ms: Seq<Memory>,
    gs: Seq<Seq<int>>,
    gi: int,
    x: int,
    y: int,
    st: (Seq<ContradictionPair>, Seq<Seq<char>>),
    fuzzy: bool,
)
    requires
        0 <= x,
        0 <= y,
        ms.len() <= usize::MAX,
        members_below(gs, ms.len() as int),
        forall|g: int, j: int, k: int| 0 <= g < gs.len() && 0 <= j < gs[g].len() && 0 <= k < gs[g].len()
            ==> same_group_key(ms, #[trigger] gs[g][j], #[trigger] gs[g][k], fuzzy),
        forall|q: int| 0 <= q < st.0.len() ==> pair_ok(ms, #[trigger] st.0[q]),
    ensures
        forall|q: int| 0 <= q < scan_groups(ms, gs, gi, x, y, st, fuzzy).0.len() ==> pair_ok(
            ms,
            #[trigger] scan_groups(ms, gs, gi, x, y, st, fuzzy).0[q],
        ),
    decreases gs.len() - gi, (if 0 <= gi < gs.len() { gs[gi].len() } else { 0 }) - x,
        (if 0 <= gi < gs.len() { gs[gi].len() } else { 0 }) - y,
{
    if gi < 0 || gi >= gs.len() {
    } else if x >= gs[gi].len() {
        lemma_scan_ok(ms, gs, gi + 1, 0, 1, st, fuzzy);
        assert(scan_groups(ms, gs, gi, x, y, st, fuzzy) == scan_groups(ms, gs, gi + 1, 0, 1, st, fuzzy));
    } else if y >= gs[gi].len() {
        lemma_scan_ok(ms, gs, gi, x + 1, x + 2, st, fuzzy);
        assert(scan_groups(ms, gs, gi, x, y, st, fuzzy) == scan_groups(ms, gs, gi, x + 1, x + 2, st, fuzzy));
    } else {
        let a = gs[gi][x];
        let b = gs[gi][y];
        assert(0 <= a < ms.len() && 0 <= b < ms.len());
        assert(same_group_key(ms, a, b, fuzzy));
        let st2 = pair_step(ms, st, a, b, fuzzy);
        assert forall|q: int| 0 <= q < st2.0.len() implies pair_ok(ms, #[trigger] st2.0[q]) by {
            if q < st.0.len() {
                assert(st2.0[q] == st.0[q]);
            }
        }
        lemma_scan_ok(ms, gs, gi, x, y + 1, st2, fuzzy);
        assert(scan_groups(ms, gs, gi, x, y, st, fuzzy) == scan_groups(ms, gs, gi, x, y + 1, st2, fuzzy));
    }
}

proof fn lemma_alias_members_below(gs: Seq<(Seq<char>, Seq<int>)>, aliases: Seq<Seq<char>>, subj: Seq<char>, n: int)
    requires
        members_below(group_members(gs), n),
    ensures
        forall|j: int| 0 <= j < alias_members(gs, aliases, subj).len() ==> 0 <= #[trigger] alias_members(
            gs,
            aliases,
            subj,
        )[j] < n,
    decreases aliases.len(),
{
    if aliases.len() > 0 {
        lemma_alias_members_below(gs, aliases.drop_last(), subj, n);
        let l = lowercase_of(aliases.last());
        lemma_find_key(gs, l);
        let rest = alias_members(gs, aliases.drop_last(), subj);
        if l != subj {
            match find_key(gs, l) {
                Some(g) => {
                    assert forall|j: int| 0 <= j < (rest + gs[g].1).len() implies 0 <= #[trigger] (rest
                        + gs[g].1)[j] < n by {
                        if j >= rest.len() {
                            assert(group_members(gs)[g][j - rest.len()] == gs[g].1[j - rest.len()]);
                        }
                    }
                },
                None => {},
            }
        }
    }
}

proof fn lemma_alias_scan_ok(
    ms: Seq<Memory>,
    gs: Seq<(Seq<char>, Seq<int>)>,
    amap: Map<Seq<char>, Seq<Seq<char>>>,
    matched: Seq<Seq<char>>,
    gi: int,
    x: int,
    y: int,
    out: Seq<ContradictionPair>,
)
    requires
        0 <= x,
        0 <= y,
        ms.len() <= usize::MAX,
        members_below(group_members(gs), ms.len() as int),
        forall|q: int| 0 <= q < out.len() ==> pair_ok(ms, #[trigger] out[q]),
    ensures
        forall|q: int| 0 <= q < alias_scan(ms, gs, amap, matched, gi, x, y, out).len() ==> pair_ok(
            ms,
            #[trigger] alias_scan(ms, gs, amap, matched, gi, x, y, out)[q],
        ),
    decreases gs.len() - gi, (if 0 <= gi < gs.len() { gs[gi].1.len() } else { 0 }) - x,
        (if 0 <= gi < gs.len() && amap.dom().contains(gs[gi].0) {
            alias_members(gs, amap[gs[gi].0], gs[gi].0).len()
        } else {
            0
        }) - y,
{
    if gi < 0 || gi >= gs.len() {
    } else if !amap.dom().contains(gs[gi].0) || x >= gs[gi].1.len() {
        lemma_alias_scan_ok(ms, gs, amap, matched, gi + 1, 0, 0, out);
        assert(alias_scan(ms, gs, amap, matched, gi, x, y, out) == alias_scan(ms, gs, amap, matched, gi + 1, 0, 0, out));
    } else {
        let am = alias_members(gs, amap[gs[gi].0], gs[gi].0);
        let mi = gs[gi].1[x];
        assert(group_members(gs)[gi][x] == mi);
        let m = ms[mi];
        if matched.contains(m.id@) || y >= am.len() {
            lemma_alias_scan_ok(ms, gs, amap, matched, gi, x + 1, 0, out);
            assert(alias_scan(ms, gs, amap, matched, gi, x, y, out) == alias_scan(ms, gs, amap, matched, gi, x + 1, 0, out));
        } else {
            lemma_alias_members_below(gs, amap[gs[gi].0], gs[gi].0, ms.len() as int);
            let oi = am[y];
            let o = ms[oi];
            let out2 = if o.id@ == m.id@ || matched.contains(o.id@) || effective_predicate(m)
                != effective_predicate(o) || effective_object(m) == effective_object(o) {
                out
            } else {
                out.push(
                    ContradictionPair {
                        a: mi as usize,
                        b: oi as usize,
                        match_type: ContradictionMatchType::SimilarSubject,
                        similarity: F64_ONE,
                    },
                )
            };
            assert forall|q: int| 0 <= q < out2.len() implies pair_ok(ms, #[trigger] out2[q]) by {
                if q < out.len() {
                    assert(out2[q] == out[q]);
                }
            }
            lemma_alias_scan_ok(ms, gs, amap, matched, gi, x, y + 1, out2);
            assert(alias_scan(ms, gs, amap, matched, gi, x, y, out) == alias_scan(ms, gs, amap, matched, gi, x, y + 1, out2));
        }
    }
}

proof fn lemma_contradictions_ok(ms: Seq<Memory>, amap: Map<Seq<char>, Seq<Seq<char>>>)
    requires
        ms.len() <= usize::MAX,
    ensures
        forall|q: int| 0 <= q < contradictions(ms, amap).len() ==> pair_ok(ms, #[trigger] contradictions(ms, amap)[q]),
{
    let k1 = ms.map_values(|m: Memory| fact_key(m));
    let k2 = ms.map_values(|m: Memory| subject_key(m));
    let g1 = group_by_key(k1);
    let g2 = group_by_key(k2);
    lemma_group_by_key(k1);
    lemma_group_by_key(k2);
    let m1 = group_members(g1);
    let m2 = group_members(g2);
    assert forall|g: int, j: int| 0 <= g < m1.len() && 0 <= j < m1[g].len() implies 0 <= #[trigger] m1[g][j]
        < ms.len() by {
        assert(m1[g][j] == g1[g].1[j]);
    }
    assert forall|g: int, j: int| 0 <= g < m2.len() && 0 <= j < m2[g].len() implies 0 <= #[trigger] m2[g][j]
        < ms.len() by {
        assert(m2[g][j] == g2[g].1[j]);
    }
    assert forall|g: int, j: int, k: int| 0 <= g < m1.len() && 0 <= j < m1[g].len() && 0 <= k < m1[g].len()
        implies same_group_key(ms, #[trigger] m1[g][j], #[trigger] m1[g][k], false) by {
        assert(m1[g][j] == g1[g].1[j]);
        assert(m1[g][k] == g1[g].1[k]);
        assert(k1[g1[g].1[j]] == fact_key(ms[g1[g].1[j]]));
        assert(k1[g1[g].1[k]] == fact_key(ms[g1[g].1[k]]));
    }
    assert forall|g: int, j: int, k: int| 0 <= g < m2.len() && 0 <= j < m2[g].len() && 0 <= k < m2[g].len()
        implies same_group_key(ms, #[trigger] m2[g][j], #[trigger] m2[g][k], true) by {
        assert(m2[g][j] == g2[g].1[j]);
        assert(m2[g][k] == g2[g].1[k]);
        assert(k2[g2[g].1[j]] == subject_key(ms[g2[g].1[j]]));
        assert(k2[g2[g].1[k]] == subject_key(ms[g2[g].1[k]]));
    }
    let st0: (Seq<ContradictionPair>, Seq<Seq<char>>) = (Seq::empty(), Seq::empty());
    lemma_scan_ok(ms, m1, 0, 0, 1, st0, false);
    let s1 = scan_groups(ms, m1, 0, 0, 1, st0, false);
    lemma_scan_ok(ms, m2, 0, 0, 1, s1, true);
    let s2 = scan_groups(ms, m2, 0, 0, 1, s1, true);
    lemma_alias_scan_ok(ms, g2, amap, s2.1, 0, 0, 0, s2.0);
}

proof fn lemma_pair_step_extends(
    ms: Seq<Memory>,
    st: (Seq<ContradictionPair>, Seq<Seq<char>>),
    a: int,
    b: int,
    fuzzy: bool,
)
    ensures
        st.0.len() <= pair_step(ms, st, a, b, fuzzy).0.len(),
        st.1.len() <= pair_step(ms, st, a, b, fuzzy).1.len(),
        forall|k: int| 0 <= k < st.0.len() ==> #[trigger] pair_step(ms, st, a, b, fuzzy).0[k] == st.0[k],
        forall|k: int| 0 <= k < st.1.len() ==> #[trigger] pair_step(ms, st, a, b, fuzzy).1[k] == st.1[k],
{
}

/// A scan only adds pairs and matched ids: what it starts from stays a
/// prefix of what it ends with.
proof fn lemma_scan_extends(
    ms: Seq<Memory>,
    gs: Seq<Seq<int>>,
    gi: int,
    x: int,
    y: int,
    st: (Seq<ContradictionPair>, Seq<Seq<char>>),
    fuzzy: bool,
)
    ensures
        st.0.len() <= scan_groups(ms, gs, gi, x, y, st, fuzzy).0.len(),
        st.1.len() <= scan_groups(ms, gs, gi, x, y, st, fuzzy).1.len(),
        forall|k: int| 0 <= k < st.0.len() ==> #[trigger] scan_groups(ms, gs, gi, x, y, st, fuzzy).0[k] == st.0[k],
        forall|k: int| 0 <= k < st.1.len() ==> #[trigger] scan_groups(ms, gs, gi, x, y, st, fuzzy).1[k] == st.1[k],
    decreases gs.len() - gi, (if 0 <= gi < gs.len() { gs[gi].len() } else { 0 }) - x,
        (if 0 <= gi < gs.len() { gs[gi].len() } else { 0 }) - y,
{
    if gi < 0 || gi >= gs.len() {
    } else if x >= gs[gi].len() {
        lemma_scan_extends(ms, gs, gi + 1, 0, 1, st, fuzzy);
    } else if y >= gs[gi].len() {
        lemma_scan_extends(ms, gs, gi, x + 1, x + 2, st, fuzzy);
    } else {
        let st2 = pair_step(ms, st, gs[gi][x], gs[gi][y], fuzzy);
        lemma_pair_step_extends(ms, st, gs[gi][x], gs[gi][y], fuzzy);
        lemma_scan_extends(ms, gs, gi, x, y + 1, st2, fuzzy);
    }
}

/// Some exact-predicate pair of `ps` has a fact with id `id`.
pub open spec fn reported_exactly(ms: Seq<Memory>, ps: Seq<ContradictionPair>, id: Seq<char>) -> bool {
    exists|q: int|
        0 <= q < ps.len() && ps[q].match_type == ContradictionMatchType::ExactPredicate && (ms[ps[q].a as int].id@ == id
            || ms[ps[q].b as int].id@ == id)
}

/// `ps` holds the exact-predicate pair `(a, b)`.
pub open spec fn has_exact_pair(ps: Seq<ContradictionPair>, a: int, b: int) -> bool {
    exists|q: int|
        0 <= q < ps.len() && ps[q].a as int == a && ps[q].b as int == b && ps[q].match_type
            == ContradictionMatchType::ExactPredicate
}

proof fn lemma_reported_extends(ms: Seq<Memory>, ps: Seq<ContradictionPair>, qs: Seq<ContradictionPair>, id: Seq<char>)
    requires
        ps.len() <= qs.len(),
        forall|k: int| 0 <= k < ps.len() ==> qs[k] == ps[k],
        reported_exactly(ms, ps, id),
    ensures
        reported_exactly(ms, qs, id),
{
    let q = choose|q: int|
        0 <= q < ps.len() && ps[q].match_type == ContradictionMatchType::ExactPredicate && (ms[ps[q].a as int].id@ == id
            || ms[ps[q].b as int].id@ == id);
    assert(qs[q] == ps[q]);
}

/// In the exact pass every pair is an exact-predicate pair and every matched
/// id belongs to one of them.
proof fn lemma_exact_scan_matched(
    ms: Seq<Memory>,
    gs: Seq<Seq<int>>,
    gi: int,
    x: int,
    y: int,
    st: (Seq<ContradictionPair>, Seq<Seq<char>>),
)
    requires
        0 <= gi,
        0 <= x,
        0 <= y,
        forall|q: int| 0 <= q < st.0.len() ==> (#[trigger] st.0[q]).match_type == ContradictionMatchType::ExactPredicate,
        forall|k: int| 0 <= k < st.1.len() ==> reported_exactly(ms, st.0, #[trigger] st.1[k]),
        members_below(gs, ms.len() as int),
        ms.len() <= usize::MAX,
    ensures
        forall|q: int|
            0 <= q < scan_groups(ms, gs, gi, x, y, st, false).0.len() ==> (#[trigger] scan_groups(
                ms,
                gs,
                gi,
                x,
                y,
                st,
                false,
            ).0[q]).match_type == ContradictionMatchType::ExactPredicate,
        forall|k: int|
            0 <= k < scan_groups(ms, gs, gi, x, y, st, false).1.len() ==> reported_exactly(
                ms,
                scan_groups(ms, gs, gi, x, y, st, false).0,
                #[trigger] scan_groups(ms, gs, gi, x, y, st, false).1[k],
            ),
    decreases gs.len() - gi, (if 0 <= gi < gs.len() { gs[gi].len() } else { 0 }) - x,
        (if 0 <= gi < gs.len() { gs[gi].len() } else { 0 }) - y,
{
    if gi < 0 || gi >= gs.len() {
    } else if x >= gs[gi].len() {
        lemma_exact_scan_matched(ms, gs, gi + 1, 0, 1, st);
    } else if y >= gs[gi].len() {
        lemma_exact_scan_matched(ms, gs, gi, x + 1, x + 2, st);
    } else {
        let a = gs[gi][x];
        let b = gs[gi][y];
        assert(0 <= a < ms.len() && 0 <= b < ms.len());
        let st2 = pair_step(ms, st, a, b, false);
        lemma_pair_step_extends(ms, st, a, b, false);
        assert forall|q: int| 0 <= q < st2.0.len() implies (#[trigger] st2.0[q]).match_type
            == ContradictionMatchType::ExactPredicate by {
            if q < st.0.len() {
                assert(st2.0[q] == st.0[q]);
            }
        }
        assert forall|k: int| 0 <= k < st2.1.len() implies reported_exactly(ms, st2.0, #[trigger] st2.1[k]) by {
            if k < st.1.len() {
                assert(st2.1[k] == st.1[k]);
                lemma_reported_extends(ms, st.0, st2.0, st.1[k]);
            } else {
                let q = st.0.len() as int;
                assert(st2.0[q].a as int == a && st2.0[q].b as int == b);
                assert(st2.1[k] == ms[a].id@ || st2.1[k] == ms[b].id@);
            }
        }
        lemma_exact_scan_matched(ms, gs, gi, x, y + 1, st2);
    }
}

/// The exact pass examines every pair of every group: each pair of members
/// not yet reached whose objects differ is reported, unless both ids were
/// matched by then.
proof fn lemma_exact_scan_complete(
    ms: Seq<Memory>,
    gs: Seq<Seq<int>>,
    gi: int,
    x: int,
    y: int,
    st: (Seq<ContradictionPair>, Seq<Seq<char>>),
    g: int,
    p: int,
    q: int,
)
    requires
        0 <= gi,
        0 <= x,
        members_below(gs, ms.len() as int),
        ms.len() <= usize::MAX,
        0 <= g < gs.len(),
        0 <= p < q < gs[g].len(),
        g > gi || (g == gi && (p > x || (p == x && q >= y))),
        effective_object(ms[gs[g][p]]) != effective_object(ms[gs[g][q]]),
    ensures
        has_exact_pair(scan_groups(ms, gs, gi, x, y, st, false).0, gs[g][p], gs[g][q]) || (scan_groups(
            ms,
            gs,
            gi,
            x,
            y,
            st,
            false,
        ).1.contains(ms[gs[g][p]].id@) && scan_groups(ms, gs, gi, x, y, st, false).1.contains(ms[gs[g][q]].id@)),
    decreases gs.len() - gi, (if 0 <= gi < gs.len() { gs[gi].len() } else { 0 }) - x,
        (if 0 <= gi < gs.len() { gs[gi].len() } else { 0 }) - y,
{
    let r = scan_groups(ms, gs, gi, x, y, st, false);
    if gi >= gs.len() {
    } else if x >= gs[gi].len() {
        lemma_exact_scan_complete(ms, gs, gi + 1, 0, 1, st, g, p, q);
    } else if y >= gs[gi].len() {
        lemma_exact_scan_complete(ms, gs, gi, x + 1, x + 2, st, g, p, q);
    } else {
        let a = gs[gi][x];
        let b = gs[gi][y];
        let st2 = pair_step(ms, st, a, b, false);
        lemma_pair_step_extends(ms, st, a, b, false);
        if g == gi && p == x && q == y {
            lemma_scan_extends(ms, gs, gi, x, y + 1, st2, false);
            assert(0 <= a < ms.len() && 0 <= b < ms.len());
            if st.1.contains(ms[a].id@) && st.1.contains(ms[b].id@) {
                let i1 = choose|i: int| 0 <= i < st.1.len() && st.1[i] == ms[a].id@;
                let i2 = choose|i: int| 0 <= i < st.1.len() && st.1[i] == ms[b].id@;
                assert(r.1[i1] == st2.1[i1]);
                assert(r.1[i2] == st2.1[i2]);
            } else {
                let k = st.0.len() as int;
                assert(st2.0[k].a as int == a && st2.0[k].b as int == b);
                assert(r.0[k] == st2.0[k]);
            }
        } else {
            lemma_exact_scan_complete(ms, gs, gi, x, y + 1, st2, g, p, q);
        }
    }
}

/// Groups of `group_by_key` have distinct keys and strictly increasing
/// members, and every index with a key is a member of some group.
proof fn lemma_group_by_key_complete<K>(keys: Seq<Option<K>>)
    ensures
        forall|g1: int, g2: int|
            0 <= g1 < group_by_key(keys).len() && 0 <= g2 < group_by_key(keys).len() && g1 != g2
                ==> #[trigger] group_by_key(keys)[g1].0 != #[trigger] group_by_key(keys)[g2].0,
        forall|g: int, p: int, q: int|
            0 <= g < group_by_key(keys).len() && 0 <= p < q < group_by_key(keys)[g].1.len()
                ==> #[trigger] group_by_key(keys)[g].1[p] < #[trigger] group_by_key(keys)[g].1[q],
        forall|i: int|
            0 <= i < keys.len() && (#[trigger] keys[i]) is Some ==> exists|g: int, p: int|
                0 <= g < group_by_key(keys).len() && 0 <= p < group_by_key(keys)[g].1.len()
                    && group_by_key(keys)[g].1[p] == i,
    decreases keys.len(),
{
    if keys.len() > 0 {
        let prev = keys.drop_last();
        lemma_group_by_key_complete(prev);
        lemma_group_by_key(prev);
        let gs = group_by_key(prev);
        let n = keys.len() - 1;
        let r = group_by_key(keys);
        assert forall|q: int| 0 <= q < prev.len() implies prev[q] == keys[q] by {}
        match keys.last() {
            None => {
                assert forall|i: int| 0 <= i < keys.len() && (#[trigger] keys[i]) is Some implies exists|g: int, p: int|
                    0 <= g < r.len() && 0 <= p < r[g].1.len() && r[g].1[p] == i by {
                    assert(prev[i] == keys[i]);
                }
            },
            Some(k) => {
                lemma_find_key(gs, k);
                match find_key(gs, k) {
                    Some(g0) => {
                        assert(r == gs.update(g0, (k, gs[g0].1.push(n))));
                        assert forall|g1: int, g2: int| 0 <= g1 < r.len() && 0 <= g2 < r.len() && g1 != g2 implies
                            #[trigger] r[g1].0 != #[trigger] r[g2].0 by {
                            assert(gs[g1].0 != gs[g2].0);
                        }
                        assert forall|g: int, p: int, q: int| 0 <= g < r.len() && 0 <= p < q < r[g].1.len() implies
                            #[trigger] r[g].1[p] < #[trigger] r[g].1[q] by {
                            if g == g0 {
                                assert(gs[g0].1[p] < prev.len());
                                if q < gs[g0].1.len() {
                                    assert(gs[g0].1[p] < gs[g0].1[q]);
                                }
                            }
                        }
                        assert forall|i: int| 0 <= i < keys.len() && (#[trigger] keys[i]) is Some implies exists|g: int, p: int|
                            0 <= g < r.len() && 0 <= p < r[g].1.len() && r[g].1[p] == i by {
                            if i < n {
                                assert(prev[i] == keys[i]);
                                let (g, p) = choose|g: int, p: int| 0 <= g < gs.len() && 0 <= p < gs[g].1.len() && gs[g].1[p] == i;
                                assert(r[g].1[p] == i);
                            } else {
                                assert(r[g0].1[gs[g0].1.len() as int] == i);
                            }
                        }
                    },
                    None => {
                        assert(r == gs.push((k, seq![n])));
                        assert forall|g1: int, g2: int| 0 <= g1 < r.len() && 0 <= g2 < r.len() && g1 != g2 implies
                            #[trigger] r[g1].0 != #[trigger] r[g2].0 by {
                            if g1 < gs.len() && g2 < gs.len() {
                                assert(gs[g1].0 != gs[g2].0);
                            }
                        }
                        assert forall|g: int, p: int, q: int| 0 <= g < r.len() && 0 <= p < q < r[g].1.len() implies
                            #[trigger] r[g].1[p] < #[trigger] r[g].1[q] by {
                            if g < gs.len() {
                                assert(gs[g].1[p] < gs[g].1[q]);
                            }
                        }
                        assert forall|i: int| 0 <= i < keys.len() && (#[trigger] keys[i]) is Some implies exists|g: int, p: int|
                            0 <= g < r.len() && 0 <= p < r[g].1.len() && r[g].1[p] == i by {
                            if i < n {
                                assert(prev[i] == keys[i]);
                                let (g, p) = choose|g: int, p: int| 0 <= g < gs.len() && 0 <= p < gs[g].1.len() && gs[g].1[p] == i;
                                assert(r[g].1[p] == i);
                            } else {
                                assert(r[gs.len() as int].1[0] == i);
                            }
                        }
                    },
                }
            },
        }
    }
}

proof fn lemma_alias_scan_extends(
    ms: Seq<Memory>,
    gs: Seq<(Seq<char>, Seq<int>)>,
    amap: Map<Seq<char>, Seq<Seq<char>>>,
    matched: Seq<Seq<char>>,
    gi: int,
    x: int,
    y: int,
    out: Seq<ContradictionPair>,
)
    ensures
        out.len() <= alias_scan(ms, gs, amap, matched, gi, x, y, out).len(),
        forall|k: int| 0 <= k < out.len() ==> #[trigger] alias_scan(ms, gs, amap, matched, gi, x, y, out)[k] == out[k],
    decreases gs.len() - gi, (if 0 <= gi < gs.len() { gs[gi].1.len() } else { 0 }) - x,
        (if 0 <= gi < gs.len() && amap.dom().contains(gs[gi].0) {
            alias_members(gs, amap[gs[gi].0], gs[gi].0).len()
        } else {
            0
        }) - y,
{
    if gi < 0 || gi >= gs.len() {
    } else if !amap.dom().contains(gs[gi].0) || x >= gs[gi].1.len() {
        lemma_alias_scan_extends(ms, gs, amap, matched, gi + 1, 0, 0, out);
    } else {
        let am = alias_members(gs, amap[gs[gi].0], gs[gi].0);
        let mi = gs[gi].1[x];
        let m = ms[mi];
        if matched.contains(m.id@) || y >= am.len() {
            lemma_alias_scan_extends(ms, gs, amap, matched, gi, x + 1, 0, out);
        } else {
            let oi = am[y];
            let o = ms[oi];
            let out2 = if o.id@ == m.id@ || matched.contains(o.id@) || effective_predicate(m)
                != effective_predicate(o) || effective_object(m) == effective_object(o) {
                out
            } else {
                out.push(
                    ContradictionPair {
                        a: mi as usize,
                        b: oi as usize,
                        match_type: ContradictionMatchType::SimilarSubject,
                        similarity: F64_ONE,
                    },
                )
            };
            lemma_alias_scan_extends(ms, gs, amap, matched, gi, x, y + 1, out2);
        }
    }
}

/// Every contradiction of the exact kind is found: for any two facts `i < j`
/// with the same lower-cased subject and predicate and different objects,
/// the result reports the pair `(i, j)` as an exact-predicate contradiction,
/// or both facts were already reported in exact-predicate pairs. So no pair
/// of a group is passed over, adjacent or not.
pub proof fn lemma_exact_contradictions_found(
    ms: Seq<Memory>,
    amap: Map<Seq<char>, Seq<Seq<char>>>,
    i: int,
    j: int,
)
    requires
        ms.len() <= usize::MAX,
        0 <= i < j < ms.len(),
        fact_key(ms[i]) is Some,
        fact_key(ms[i]) == fact_key(ms[j]),
        effective_object(ms[i]) != effective_object(ms[j]),
    ensures
        has_exact_pair(contradictions(ms, amap), i, j) || (reported_exactly(ms, contradictions(ms, amap), ms[i].id@)
            && reported_exactly(ms, contradictions(ms, amap), ms[j].id@)),
{
    let k1 = ms.map_values(|m: Memory| fact_key(m));
    let k2 = ms.map_values(|m: Memory| subject_key(m));
    let g1 = group_by_key(k1);
    let g2 = group_by_key(k2);
    lemma_group_by_key(k1);
    lemma_group_by_key_complete(k1);
    let m1 = group_members(g1);
    assert forall|g: int, jj: int| 0 <= g < m1.len() && 0 <= jj < m1[g].len() implies 0 <= #[trigger] m1[g][jj]
        < ms.len() by {
        assert(m1[g][jj] == g1[g].1[jj]);
    }
    assert(k1[i] == fact_key(ms[i]));
    assert(k1[j] == fact_key(ms[j]));
    let (ga, pa) = choose|g: int, p: int| 0 <= g < g1.len() && 0 <= p < g1[g].1.len() && g1[g].1[p] == i;
    let (gb, pb) = choose|g: int, p: int| 0 <= g < g1.len() && 0 <= p < g1[g].1.len() && g1[g].1[p] == j;
    assert(k1[g1[ga].1[pa]] == Some(g1[ga].0));
    assert(k1[g1[gb].1[pb]] == Some(g1[gb].0));
    assert(ga == gb);
    if pb <= pa {
        if pb < pa {
            assert(g1[ga].1[pb] < g1[ga].1[pa]);
        }
    }
    assert(pa < pb);
    assert(m1[ga] == g1[ga].1);
    let st0: (Seq<ContradictionPair>, Seq<Seq<char>>) = (Seq::empty(), Seq::empty());
    let s1 = scan_groups(ms, m1, 0, 0, 1, st0, false);
    lemma_exact_scan_complete(ms, m1, 0, 0, 1, st0, ga, pa, pb);
    lemma_exact_scan_matched(ms, m1, 0, 0, 1, st0);
    let m2 = group_members(g2);
    let s2 = scan_groups(ms, m2, 0, 0, 1, s1, true);
    lemma_scan_extends(ms, m2, 0, 0, 1, s1, true);
    let r = alias_scan(ms, g2, amap, s2.1, 0, 0, 0, s2.0);
    lemma_alias_scan_extends(ms, g2, amap, s2.1, 0, 0, 0, s2.0);
    assert(r == contradictions(ms, amap));
    if has_exact_pair(s1.0, i, j) {
        let q = choose|q: int| 0 <= q < s1.0.len() && s1.0[q].a as int == i && s1.0[q].b as int == j && s1.0[q].match_type
            == ContradictionMatchType::ExactPredicate;
        assert(s2.0[q] == s1.0[q]);
        assert(r[q] == s2.0[q]);
    } else {
        let ia = choose|k: int| 0 <= k < s1.1.len() && s1.1[k] == ms[i].id@;
        let ib = choose|k: int| 0 <= k < s1.1.len() && s1.1[k] == ms[j].id@;
        assert(reported_exactly(ms, s1.0, s1.1[ia]));
        assert(reported_exactly(ms, s1.0, s1.1[ib]));
        assert forall|k: int| 0 <= k < s1.0.len() implies r[k] == s1.0[k] by {
            assert(s2.0[k] == s1.0[k]);
        }
        lemma_reported_extends(ms, s1.0, r, ms[i].id@);
        lemma_reported_extends(ms, s1.0, r, ms[j].id@);
    }
}

/// The contradictions among live semantic facts (see `contradictions`);
/// pairs name the facts by their index in `valid_semantics`.
pub fn detect_contradictions(valid_semantics: &[Memory], entity_aliases: &PredicateGroups) -> (r: Vec<ContradictionPair>)
    ensures
        r@ == contradictions(valid_semantics@, entity_aliases@),
        forall|q: int| 0 <= q < r@.len() ==> pair_ok(valid_semantics@, #[trigger] r@[q]),
{
    let count: usize = valid_semantics.len();
    proof {
        lemma_contradictions_ok(valid_semantics@, entity_aliases@);
    }
    let g1 = group_facts(valid_semantics);
    let g2 = group_subjects(valid_semantics);
    let m1 = fact_members(&g1);
    let m2 = subject_members(&g2);
    let none: Vec<String> = Vec::new();
    assert(strings_view(none@) =~= Seq::<Seq<char>>::empty());
    let (out, matched) = scan_pairs(valid_semantics, &m1, Vec::new(), none, false);
    let (out, matched) = scan_pairs(valid_semantics, &m2, out, matched, true);
    alias_pass(valid_semantics, &g2, entity_aliases, &matched, out)
}

} // verus!
