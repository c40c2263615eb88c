//! Predicate normalisation: collapses free-form predicates (typos, casing,
//! separators) into canonical group names, so that `uses`, `depends-on` and
//! `requires` all resolve to `depends_on`.
use vstd::prelude::*;
use crate::config::{NamespacePredicatesConfig, PredicatesConfig, merge_groups, namespace_overrides, resolve_namespace_groups};
use crate::groups::{PredicateGroups, distinct_keys, group_view, pairs_to_map, lemma_pairs_to_map_index};
use crate::order::{seq_lt, str_lt, lemma_lt_irreflexive, lemma_lt_transitive, lemma_lt_asymmetric};
use crate::similarity::{f64_gt, f64_bits_gt, jaro_winkler_bits, jaro_winkler_of};
use crate::text::{normalize_text, normalized_text, str_eq};

verus! {

/// Bits of `0.85_f64`: a fuzzy match must score strictly above it.
pub const FUZZY_THRESHOLD: u64 = 0x3feb_3333_3333_3333;

/// A (canonical, members) group list viewed as plain sequences.
pub open spec fn group_views(v: Seq<(String, Vec<String>)>) -> Seq<(Seq<char>, Seq<Seq<char>>)> {
    v.map_values(|e: (String, Vec<String>)| group_view(e))
}

/// Group keys strictly increase along `s`.
pub open spec fn keys_increasing<V>(s: Seq<(Seq<char>, V)>) -> bool {
    forall|i: int, j: int| 0 <= i < j < s.len() ==> seq_lt(s[i].0, s[j].0)
}

/// `s` lists the groups of `m`, each once, in increasing key order.
pub open spec fn in_key_order(
    s: Seq<(Seq<char>, Seq<Seq<char>>)>,
    m: Map<Seq<char>, Seq<Seq<char>>>,
) -> bool {
    keys_increasing(s) && pairs_to_map(s) == m
}

/// The names that belong to a group: its canonical name, then its members.
pub open spec fn group_names(g: (Seq<char>, Seq<Seq<char>>)) -> Seq<Seq<char>> {
    seq![g.0] + g.1
}

/// Some synonym entry has member `m`.
pub open spec fn has_member(e: Seq<(Seq<char>, Seq<char>)>, m: Seq<char>) -> bool {
    exists|i: int| 0 <= i < e.len() && e[i].0 == m
}

/// Adds the normalised `names` of group `canonical` to the synonym list `acc`,
/// in order, skipping a name that is already a member (the first group wins).
pub open spec fn add_names(
    acc: Seq<(Seq<char>, Seq<char>)>,
    names: Seq<Seq<char>>,
    canonical: Seq<char>,
) -> Seq<(Seq<char>, Seq<char>)>
    decreases names.len(),
{
    if names.len() == 0 {
        acc
    } else {
        let prev = add_names(acc, names.drop_last(), canonical);
        let nm = normalized_text(names.last());
        if has_member(prev, nm) {
            prev
        } else {
            prev.push((nm, canonical))
        }
    }
}

/// The synonym list (member, canonical) built from groups taken in order.
pub open spec fn build_synonyms(groups: Seq<(Seq<char>, Seq<Seq<char>>)>) -> Seq<
    (Seq<char>, Seq<char>),
>
    decreases groups.len(),
{
    if groups.len() == 0 {
        Seq::empty()
    } else {
        let g = groups.last();
        add_names(build_synonyms(groups.drop_last()), group_names(g), g.0)
    }
}

/// Canonical name of the first entry whose member is `t`.
pub open spec fn lookup(e: Seq<(Seq<char>, Seq<char>)>, t: Seq<char>) -> Option<Seq<char>>
    decreases e.len(),
{
    if e.len() == 0 {
        None
    } else if e[0].0 == t {
        Some(e[0].1)
    } else {
        lookup(e.drop_first(), t)
    }
}

/// Best fuzzy match of `t` among the entries: the canonical name and score of
/// the first entry with the highest Jaro-Winkler score strictly above the
/// threshold.
pub open spec fn fuzzy_best(e: Seq<(Seq<char>, Seq<char>)>, t: Seq<char>) -> Option<(Seq<char>, u64)>
    decreases e.len(),
{
    if e.len() == 0 {
        None
    } else {
        let b = fuzzy_best(e.drop_last(), t);
        let s = jaro_winkler_of(t, e.last().0);
        if f64_gt(s, FUZZY_THRESHOLD) && (b is None || f64_gt(s, b.unwrap().1)) {
            Some((e.last().1, s))
        } else {
            b
        }
    }
}

/// What `normalize` returns for `input`, given the synonym list `e`: the
/// normalised text if it is empty; else the canonical name of its exact
/// entry; else the canonical name of the best fuzzy match; else the
/// normalised text itself.
pub open spec fn normalized_predicate(e: Seq<(Seq<char>, Seq<char>)>, input: Seq<char>) -> Seq<char> {
    let t = normalized_text(input);
    if t.len() == 0 {
        t
    } else {
        match lookup(e, t) {
            Some(c) => c,
            None => match fuzzy_best(e, t) {
                Some(b) => b.0,
                None => t,
            },
        }
    }
}

struct SynonymEntry {
    member: String,
    canonical: String,
}

spec fn entry_view(e: SynonymEntry) -> (Seq<char>, Seq<char>) {
    (e.member@, e.canonical@)
}

/// Collapses free-form predicates into canonical group names.
pub struct PredicateNormalizer {
    synonyms: Vec<SynonymEntry>,
}

/// Sorts groups by canonical name.
fn sort_groups(v: Vec<(String, Vec<String>)>) -> (r: Vec<(String, Vec<String>)>)
    requires
        distinct_keys(group_views(v@)),
    ensures
        keys_increasing(group_views(r@)),
        forall|p: (Seq<char>, Seq<Seq<char>>)|
            group_views(r@).contains(p) == group_views(v@).contains(p),
{
    let mut rem = v;
    let mut out: Vec<(String, Vec<String>)> = Vec::new();
    while rem.len() > 0
        invariant
            keys_increasing(group_views(out@)),
            distinct_keys(group_views(rem@)),
            forall|i: int, j: int|
                0 <= i < out@.len() && 0 <= j < rem@.len() ==> seq_lt(
                    #[trigger] out@[i].0@,
                    #[trigger] rem@[j].0@,
                ),
            forall|p: (Seq<char>, Seq<Seq<char>>)|
                group_views(out@).contains(p) || group_views(rem@).contains(p)
                    <==> group_views(v@).contains(p),
        decreases rem.len(),
    {
        let mut m: usize = 0;
        let mut j: usize = 1;
        while j < rem.len()
            invariant
                0 <= m < rem.len(),
                1 <= j <= rem.len(),
                m < j,
                distinct_keys(group_views(rem@)),
                forall|k: int| 0 <= k < j && k != m ==> seq_lt(rem@[m as int].0@, #[trigger] rem@[k].0@),
            decreases rem.len() - j,
        {
            if str_lt(rem[j].0.as_str(), rem[m].0.as_str()) {
                proof {
                    assert forall|k: int| 0 <= k < j + 1 && k != j implies seq_lt(
                        rem@[j as int].0@,
                        #[trigger] rem@[k].0@,
                    ) by {
                        if k != m {
                            lemma_lt_transitive(rem@[j as int].0@, rem@[m as int].0@, rem@[k].0@);
                        }
                    }
                }
                m = j;
            } else {
                proof {
                    assert(group_views(rem@)[j as int].0 != group_views(rem@)[m as int].0);
                    crate::order::lemma_lt_total(rem@[j as int].0@, rem@[m as int].0@);
                }
            }
            j = j + 1;
        }
        let ghost old_rem = rem@;
        let ghost old_out = out@;
        let e = rem.remove(m);
        out.push(e);
        proof {
            let gr = group_views(old_rem);
            let go = group_views(old_out);
            assert(group_views(rem@) =~= gr.remove(m as int));
            assert(group_views(out@) =~= go.push(gr[m as int]));
            assert forall|a: int, b: int|
                0 <= a < group_views(rem@).len() && 0 <= b < group_views(rem@).len() && a != b implies
                group_views(rem@)[a].0 != group_views(rem@)[b].0 by {
                let a1 = if a < m { a } else { a + 1 };
                let b1 = if b < m { b } else { b + 1 };
                assert(group_views(rem@)[a] == gr[a1]);
                assert(group_views(rem@)[b] == gr[b1]);
            }
            assert forall|a: int, b: int| 0 <= a < b < group_views(out@).len() implies seq_lt(
                group_views(out@)[a].0,
                group_views(out@)[b].0,
            ) by {
                if b == old_out.len() {
                    assert(out@[a].0@ == old_out[a].0@);
                    assert(seq_lt(old_out[a].0@, old_rem[m as int].0@));
                }
            }
            assert forall|a: int, b: int| 0 <= a < out@.len() && 0 <= b < rem@.len() implies seq_lt(
                #[trigger] out@[a].0@,
                #[trigger] rem@[b].0@,
            ) by {
                let b1 = if b < m { b } else { b + 1 };
                assert(rem@[b] == old_rem[b1]);
                if a < old_out.len() {
                    assert(out@[a] == old_out[a]);
                } else {
                    assert(b1 != m);
                }
            }
            assert forall|p: (Seq<char>, Seq<Seq<char>>)|
                group_views(out@).contains(p) || group_views(rem@).contains(p) <==> group_views(
                    v@,
                ).contains(p) by {
                if group_views(v@).contains(p) {
                    if go.contains(p) {
                        let i = choose|i: int| 0 <= i < go.len() && go[i] == p;
                        assert(group_views(out@)[i] == p);
                    } else {
                        assert(gr.contains(p));
                        let i = choose|i: int| 0 <= i < gr.len() && gr[i] == p;
                        if i == m {
                            assert(group_views(out@)[go.len() as int] == p);
                        } else {
                            let i1 = if i < m { i } else { i - 1 };
                            assert(group_views(rem@)[i1] == p);
                        }
                    }
                }
                if group_views(out@).contains(p) {
                    let i = choose|i: int|
                        0 <= i < group_views(out@).len() && group_views(out@)[i] == p;
                    if i < go.len() {
                        assert(go[i] == p);
                        assert(go.contains(p));
                    } else {
                        assert(gr[m as int] == p);
                        assert(gr.contains(p));
                    }
                }
                if group_views(rem@).contains(p) {
                    let i = choose|i: int|
                        0 <= i < group_views(rem@).len() && group_views(rem@)[i] == p;
                    let i1 = if i < m { i } else { i + 1 };
                    assert(gr[i1] == p);
                    assert(gr.contains(p));
                }
            }
        }
    }
    assert(group_views(rem@).len() == 0);
    out
}

/// Two association lists with distinct keys and the same pairs stand for the
/// same map.
proof fn lemma_same_pairs_same_map(
    a: Seq<(Seq<char>, Seq<Seq<char>>)>,
    b: Seq<(Seq<char>, Seq<Seq<char>>)>,
)
    requires
        distinct_keys(a),
        distinct_keys(b),
        forall|p: (Seq<char>, Seq<Seq<char>>)| a.contains(p) == b.contains(p),
    ensures
        pairs_to_map(a) == pairs_to_map(b),
{
    assert forall|k: Seq<char>| #[trigger] pairs_to_map(a).dom().contains(k) implies pairs_to_map(
        b,
    ).dom().contains(k) && pairs_to_map(a)[k] == pairs_to_map(b)[k] by {
        let i = choose|i: int| 0 <= i < a.len() && a[i].0 == k;
        assert(a.contains(a[i]));
        let j = choose|j: int| 0 <= j < b.len() && b[j] == a[i];
        lemma_pairs_to_map_index(a, i);
        lemma_pairs_to_map_index(b, j);
    }
    assert forall|k: Seq<char>| #[trigger] pairs_to_map(b).dom().contains(k) implies pairs_to_map(
        a,
    ).dom().contains(k) by {
        let j = choose|j: int| 0 <= j < b.len() && b[j].0 == k;
        assert(b.contains(b[j]));
        let i = choose|i: int| 0 <= i < a.len() && a[i] == b[j];
        assert(a[i].0 == k);
    }
    assert(pairs_to_map(a) =~= pairs_to_map(b));
}

proof fn lemma_increasing_distinct(s: Seq<(Seq<char>, Seq<Seq<char>>)>)
    requires
        keys_increasing(s),
    ensures
        distinct_keys(s),
{
    assert forall|i: int, j: int| 0 <= i < s.len() && 0 <= j < s.len() && i != j implies s[i].0
        != s[j].0 by {
        if i < j {
            assert(seq_lt(s[i].0, s[j].0));
            if s[i].0 == s[j].0 {
                lemma_lt_irreflexive(s[i].0);
            }
        } else {
            assert(seq_lt(s[j].0, s[i].0));
            if s[i].0 == s[j].0 {
                lemma_lt_irreflexive(s[i].0);
            }
        }
    }
}

/// Index of the first entry whose member is `t`.
fn find_member(syn: &Vec<SynonymEntry>, t: &str) -> (r: Option<usize>)
    ensures
        match r {
            Some(i) => i < syn@.len() && syn@[i as int].member@ == t@
                && lookup(syn@.map_values(|e: SynonymEntry| entry_view(e)), t@) == Some(syn@[i as int].canonical@),
            None => lookup(syn@.map_values(|e: SynonymEntry| entry_view(e)), t@) is None
                && !has_member(syn@.map_values(|e: SynonymEntry| entry_view(e)), t@),
        },
{
    let ghost e = syn@.map_values(|x: SynonymEntry| entry_view(x));
    let mut i: usize = 0;
    assert(e.skip(0) =~= e);
    while i < syn.len()
        invariant
            i <= syn.len(),
            e == syn@.map_values(|x: SynonymEntry| entry_view(x)),
            forall|k: int| 0 <= k < i ==> e[k].0 != t@,
            lookup(e, t@) == lookup(e.skip(i as int), t@),
        decreases syn.len() - i,
    {
        if str_eq(syn[i].member.as_str(), t) {
            assert(e.skip(i as int)[0] == e[i as int]);
            return Some(i);
        }
        assert(e.skip(i as int).drop_first() =~= e.skip(i + 1));
        i = i + 1;
    }
    assert(e.skip(i as int).len() == 0);
    None
}

/// Adds the normal form of `name` to the synonym list under `canonical`,
/// unless it is already a member.
fn add_name(synonyms: &mut Vec<SynonymEntry>, name: &String, canonical: &String)
    ensures
        final(synonyms)@.map_values(|e: SynonymEntry| entry_view(e)) == ({
            let prev = old(synonyms)@.map_values(|e: SynonymEntry| entry_view(e));
            let nm = normalized_text(name@);
            if has_member(prev, nm) {
                prev
            } else {
                prev.push((nm, canonical@))
            }
        }),
{
    let nm = normalize_text(name.as_str());
    let ghost prev = synonyms@.map_values(|e: SynonymEntry| entry_view(e));
    match find_member(synonyms, nm.as_str()) {
        Some(i) => {
            assert(prev[i as int].0 == nm@);
        },
        None => {
            let ghost before = synonyms@;
            synonyms.push(SynonymEntry { member: nm, canonical: canonical.clone() });
            assert(synonyms@.map_values(|e: SynonymEntry| entry_view(e)) =~= prev.push(
                (nm@, canonical@),
            ));
        },
    }
}

impl PredicateNormalizer {
    /// The synonym list: (normalised member, canonical group name) pairs.
    pub closed spec fn entries(&self) -> Seq<(Seq<char>, Seq<char>)> {
        self.synonyms@.map_values(|e: SynonymEntry| entry_view(e))
    }

    /// Builds the synonym list from `groups`, visiting groups in increasing
    /// order of canonical name and, within a group, the canonical name before
    /// its members. A name whose normal form already belongs to an earlier
    /// entry keeps that entry.
    pub fn new(groups: PredicateGroups) -> (n: Self)
        ensures
            exists|s: Seq<(Seq<char>, Seq<Seq<char>>)>|
                in_key_order(s, groups@) && n.entries() == build_synonyms(s),
    {
        let ghost gmap = groups@;
        let pairs = groups.into_pairs();
        let sorted = sort_groups(pairs);
        let ghost s = group_views(sorted@);
        proof {
            lemma_increasing_distinct(s);
            lemma_same_pairs_same_map(s, group_views(pairs@));
            assert(group_views(pairs@) == pairs@.map_values(|e: (String, Vec<String>)| group_view(e)));
        }
        let mut synonyms: Vec<SynonymEntry> = Vec::new();
        let mut gi: usize = 0;
        while gi < sorted.len()
            invariant
                gi <= sorted.len(),
                s == group_views(sorted@),
                synonyms@.map_values(|e: SynonymEntry| entry_view(e)) == build_synonyms(
                    s.take(gi as int),
                ),
            decreases sorted.len() - gi,
        {
            let canonical = &sorted[gi].0;
            let members = &sorted[gi].1;
            let ghost g = s[gi as int];
            let ghost names = group_names(g);
            let ghost base = build_synonyms(s.take(gi as int));
            assert(s.take(gi + 1).drop_last() =~= s.take(gi as int));
            assert(s.take(gi + 1).last() == g);
            assert(names.take(1).drop_last() =~= names.take(0));
            assert(names.take(1).last() == canonical@);
            assert(names.take(0).len() == 0);
            assert(add_names(base, names.take(0), g.0) == base);
            add_name(&mut synonyms, canonical, canonical);
            let mut j: usize = 0;
            while j < members.len()
                invariant
                    j <= members.len(),
                    gi < sorted.len(),
                    s == group_views(sorted@),
                    g == s[gi as int],
                    names == group_names(g),
                    g.0 == canonical@,
                    g.1 == members.deep_view(),
                    names.len() == members.len() + 1,
                    synonyms@.map_values(|e: SynonymEntry| entry_view(e)) == add_names(
                        base,
                        names.take(j + 1),
                        g.0,
                    ),
                decreases members.len() - j,
            {
                assert(members[j as int]@ == names[j + 1]);
                assert(names.take(j + 2).drop_last() =~= names.take(j + 1));
                assert(names.take(j + 2).last() == names[j + 1]);
                add_name(&mut synonyms, &members[j], canonical);
                j = j + 1;
            }
            assert(names.take(names.len() as int) =~= names);
            gi = gi + 1;
        }
        assert(s.take(sorted.len() as int) =~= s);
        PredicateNormalizer { synonyms }
    }

    /// Normalises free text: trim, lower-case, turn `-`, `_`, `/` into spaces,
    /// collapse white space.
    pub fn text_normalize(s: &str) -> (r: String)
        ensures
            r@ == normalized_text(s@),
    {
        normalize_text(s)
    }

    /// Maps a predicate to its canonical group name: exact match on the
    /// normal form first, then the best Jaro-Winkler match above 0.85, else
    /// the normal form itself.
    pub fn normalize(&self, input: &str) -> (r: String)
        ensures
            r@ == normalized_predicate(self.entries(), input@),
    {
        let text = normalize_text(input);
        if text.as_str().is_empty() {
            return text;
        }
        match find_member(&self.synonyms, text.as_str()) {
            Some(i) => {
                return self.synonyms[i].canonical.clone();
            },
            None => {},
        }
        let ghost e = self.entries();
        let mut best: Option<(usize, u64)> = None;
        let mut i: usize = 0;
        while i < self.synonyms.len()
            invariant
                i <= self.synonyms.len(),
                e == self.entries(),
                e.len() == self.synonyms.len(),
                match best {
                    Some(b) => b.0 < i && fuzzy_best(e.take(i as int), text@) == Some(
                        (e[b.0 as int].1, b.1),
                    ),
                    None => fuzzy_best(e.take(i as int), text@) is None,
                },
            decreases self.synonyms.len() - i,
        {
            let score = jaro_winkler_bits(text.as_str(), self.synonyms[i].member.as_str());
            assert(e.take(i + 1).drop_last() =~= e.take(i as int));
            assert(e.take(i + 1).last() == e[i as int]);
            let better = match best {
                None => true,
                Some(b) => f64_bits_gt(score, b.1),
            };
            if f64_bits_gt(score, FUZZY_THRESHOLD) && better {
                best = Some((i, score));
            }
            i = i + 1;
        }
        assert(e.take(self.synonyms.len() as int) =~= e);
        match best {
            Some(b) => self.synonyms[b.0].canonical.clone(),
            None => text,
        }
    }
}

proof fn lemma_fuzzy_best(e: Seq<(Seq<char>, Seq<char>)>, t: Seq<char>)
    ensures
        fuzzy_best(e, t) matches Some(b) ==> exists|j: int|
            0 <= j < e.len() && e[j].1 == b.0 && jaro_winkler_of(t, e[j].0) == b.1 && f64_gt(b.1, FUZZY_THRESHOLD),
        forall|k: int|
            0 <= k < e.len() && f64_gt(#[trigger] jaro_winkler_of(t, e[k].0), FUZZY_THRESHOLD) ==> fuzzy_best(e, t) is Some
                && !f64_gt(jaro_winkler_of(t, e[k].0), fuzzy_best(e, t).unwrap().1),
    decreases e.len(),
{
    if e.len() > 0 {
        let p = e.drop_last();
        lemma_fuzzy_best(p, t);
        let b = fuzzy_best(p, t);
        let r = fuzzy_best(e, t);
        let n = e.len() - 1;
        assert(e[n] == e.last());
        if let Some(rr) = r {
            if r != b {
                assert(e[n].1 == rr.0);
            } else {
                let j = choose|j: int| 0 <= j < p.len() && p[j].1 == rr.0 && jaro_winkler_of(t, p[j].0) == rr.1 && f64_gt(
                    rr.1,
                    FUZZY_THRESHOLD,
                );
                assert(e[j] == p[j]);
            }
        }
        assert forall|k: int| 0 <= k < e.len() && f64_gt(#[trigger] jaro_winkler_of(t, e[k].0), FUZZY_THRESHOLD) implies r is Some
            && !f64_gt(jaro_winkler_of(t, e[k].0), r.unwrap().1) by {
            if k < n {
                assert(e[k] == p[k]);
            }
        }
    }
}

proof fn lemma_lookup_absent(e: Seq<(Seq<char>, Seq<char>)>, t: Seq<char>)
    requires
        forall|k: int| 0 <= k < e.len() ==> e[k].0 != t,
    ensures
        lookup(e, t) is None,
    decreases e.len(),
{
    if e.len() > 0 {
        assert forall|k: int| 0 <= k < e.drop_first().len() implies e.drop_first()[k].0 != t by {
            assert(e.drop_first()[k] == e[k + 1]);
        }
        lemma_lookup_absent(e.drop_first(), t);
    }
}

/// What normalising a non-blank predicate gives, for any synonym list: the
/// canonical name of the first entry spelled like its normal form; failing
/// that, the canonical name of an entry whose Jaro-Winkler score is above
/// 0.85 and not beaten by any other entry's; failing that, the normal form
/// itself.
pub proof fn lemma_normalize_rules(e: Seq<(Seq<char>, Seq<char>)>, input: Seq<char>)
    requires
        normalized_text(input).len() > 0,
    ensures
        ({
            let t = normalized_text(input);
            let r = normalized_predicate(e, input);
            &&& (exists|k: int| 0 <= k < e.len() && e[k].0 == t) ==> exists|j: int|
                0 <= j < e.len() && e[j].0 == t && r == e[j].1 && forall|q: int| 0 <= q < j ==> e[q].0 != t
            &&& ((forall|k: int| 0 <= k < e.len() ==> e[k].0 != t) && exists|k: int|
                0 <= k < e.len() && f64_gt(jaro_winkler_of(t, e[k].0), FUZZY_THRESHOLD)) ==> exists|j: int|
                0 <= j < e.len() && r == e[j].1 && f64_gt(jaro_winkler_of(t, e[j].0), FUZZY_THRESHOLD) && forall|k: int|
                    0 <= k < e.len() && f64_gt(#[trigger] jaro_winkler_of(t, e[k].0), FUZZY_THRESHOLD) ==> !f64_gt(
                        jaro_winkler_of(t, e[k].0),
                        jaro_winkler_of(t, e[j].0),
                    )
            &&& (forall|k: int|
                0 <= k < e.len() ==> e[k].0 != t && !f64_gt(jaro_winkler_of(t, e[k].0), FUZZY_THRESHOLD)) ==> r == t
        }),
{
    let t = normalized_text(input);
    lemma_fuzzy_best(e, t);
    if exists|k: int| 0 <= k < e.len() && e[k].0 == t {
        let k = choose|k: int| 0 <= k < e.len() && e[k].0 == t;
        assert(has_member(e, t));
        lemma_lookup_first(e, t);
    } else {
        lemma_lookup_absent(e, t);
        if let Some(b) = fuzzy_best(e, t) {
            let j = choose|j: int|
                0 <= j < e.len() && e[j].1 == b.0 && jaro_winkler_of(t, e[j].0) == b.1 && f64_gt(b.1, FUZZY_THRESHOLD);
            assert(normalized_predicate(e, input) == e[j].1);
        } else {
            assert forall|k: int| 0 <= k < e.len() implies !f64_gt(jaro_winkler_of(t, e[k].0), FUZZY_THRESHOLD) by {}
        }
    }
}

/// `entries` is the synonym list that `PredicateNormalizer::new` builds
/// from groups `m`.
pub open spec fn built_from(entries: Seq<(Seq<char>, Seq<char>)>, m: Map<Seq<char>, Seq<Seq<char>>>) -> bool {
    exists|s: Seq<(Seq<char>, Seq<Seq<char>>)>| in_key_order(s, m) && entries == build_synonyms(s)
}

/// The predicate groups in force in namespace `ns`: the global groups `g`
/// with the namespace's overrides applied, if it has any.
pub open spec fn groups_in(
    g: Map<Seq<char>, Seq<Seq<char>>>,
    nss: Seq<(String, NamespacePredicatesConfig)>,
    ns: Seq<char>,
) -> Map<Seq<char>, Seq<Seq<char>>> {
    match namespace_overrides(nss, ns) {
        Some(o) => merge_groups(g, o),
        None => g,
    }
}

proof fn lemma_no_overrides(nss: Seq<(String, NamespacePredicatesConfig)>, ns: Seq<char>)
    requires
        forall|i: int| 0 <= i < nss.len() ==> nss[i].0@ != ns,
    ensures
        namespace_overrides(nss, ns) is None,
    decreases nss.len(),
{
    if nss.len() > 0 {
        assert forall|i: int| 0 <= i < nss.drop_first().len() implies nss.drop_first()[i].0@ != ns by {
            assert(nss.drop_first()[i] == nss[i + 1]);
        }
        lemma_no_overrides(nss.drop_first(), ns);
    }
}

/// The synonym list of the first normaliser named `ns`, else `default`.
pub open spec fn pick_entries(
    bn: Seq<(String, PredicateNormalizer)>,
    ns: Seq<char>,
    default: Seq<(Seq<char>, Seq<char>)>,
) -> Seq<(Seq<char>, Seq<char>)>
    decreases bn.len(),
{
    if bn.len() == 0 {
        default
    } else if bn[0].0@ == ns {
        bn[0].1.entries()
    } else {
        pick_entries(bn.drop_first(), ns, default)
    }
}

/// A normaliser per namespace with overrides, and one for the others.
pub struct Normalizers {
    default: PredicateNormalizer,
    by_namespace: Vec<(String, PredicateNormalizer)>,
    global: Ghost<Map<Seq<char>, Seq<Seq<char>>>>,
    namespaces: Ghost<Seq<(String, NamespacePredicatesConfig)>>,
}

impl Normalizers {
    /// The groups whose normaliser serves namespace `ns`.
    pub closed spec fn groups_for(&self, ns: Seq<char>) -> Map<Seq<char>, Seq<Seq<char>>> {
        groups_in(self.global@, self.namespaces@, ns)
    }

    /// The synonym list of the normaliser that serves namespace `ns`.
    pub closed spec fn entries_for(&self, ns: Seq<char>) -> Seq<(Seq<char>, Seq<char>)> {
        pick_entries(self.by_namespace@, ns, self.default.entries())
    }

    /// Each normaliser was built from the groups of its namespace.
    pub closed spec fn wf(&self) -> bool {
        &&& built_from(self.default.entries(), self.global@)
        &&& self.by_namespace@.len() == self.namespaces@.len()
        &&& forall|i: int| 0 <= i < self.by_namespace@.len() ==> (#[trigger] self.by_namespace@[i]).0@
            == self.namespaces@[i].0@ && built_from(
            self.by_namespace@[i].1.entries(),
            groups_in(self.global@, self.namespaces@, self.namespaces@[i].0@),
        )
    }

    /// Normalisers for the global groups and for every namespace with
    /// overrides.
    pub fn build(predicates: &PredicatesConfig) -> (n: Self)
        ensures
            n.wf(),
            forall|ns: Seq<char>| n.groups_for(ns) == groups_in(predicates.groups@, predicates.namespaces@, ns),
    {
        let default = PredicateNormalizer::new(predicates.groups.copy());
        let mut by_namespace: Vec<(String, PredicateNormalizer)> = Vec::new();
        let mut i: usize = 0;
        while i < predicates.namespaces.len()
            invariant
                i <= predicates.namespaces@.len(),
                by_namespace@.len() == i,
                forall|j: int| 0 <= j < i ==> (#[trigger] by_namespace@[j]).0@ == predicates.namespaces@[j].0@
                    && built_from(
                    by_namespace@[j].1.entries(),
                    groups_in(predicates.groups@, predicates.namespaces@, predicates.namespaces@[j].0@),
                ),
            decreases predicates.namespaces.len() - i,
        {
            let name = predicates.namespaces[i].0.clone();
            let groups = resolve_namespace_groups(predicates, name.as_str());
            let n = PredicateNormalizer::new(groups);
            by_namespace.push((name, n));
            i = i + 1;
        }
        Normalizers {
            default,
            by_namespace,
            global: Ghost(predicates.groups@),
            namespaces: Ghost(predicates.namespaces@),
        }
    }

    /// The normaliser of namespace `ns`: its own when it has overrides, else
    /// the one of the global groups.
    pub fn for_namespace(&self, ns: &str) -> (r: &PredicateNormalizer)
        requires
            self.wf(),
        ensures
            built_from(r.entries(), self.groups_for(ns@)),
            r.entries() == self.entries_for(ns@),
    {
        let mut i: usize = 0;
        assert(self.by_namespace@.skip(0) =~= self.by_namespace@);
        while i < self.by_namespace.len()
            invariant
                self.wf(),
                i <= self.by_namespace@.len(),
                forall|j: int| 0 <= j < i ==> self.by_namespace@[j].0@ != ns@,
                self.entries_for(ns@) == pick_entries(self.by_namespace@.skip(i as int), ns@, self.default.entries()),
            decreases self.by_namespace.len() - i,
        {
            assert(self.by_namespace@.skip(i as int)[0] == self.by_namespace@[i as int]);
            if str_eq(self.by_namespace[i].0.as_str(), ns) {
                return &self.by_namespace[i].1;
            }
            assert(self.by_namespace@.skip(i as int).drop_first() =~= self.by_namespace@.skip(i + 1));
            i = i + 1;
        }
        proof {
            assert forall|j: int| 0 <= j < self.namespaces@.len() implies self.namespaces@[j].0@ != ns@ by {
                assert(self.by_namespace@[j].0@ == self.namespaces@[j].0@);
            }
            lemma_no_overrides(self.namespaces@, ns@);
        }
        &self.default
    }
}

/// `name` is the canonical name or one of the members of group `k` of `m`.
pub open spec fn names_group(m: Map<Seq<char>, Seq<Seq<char>>>, k: Seq<char>, name: Seq<char>) -> bool {
    m.dom().contains(k) && (name == k || m[k].contains(name))
}

proof fn lemma_add_names_shape(acc: Seq<(Seq<char>, Seq<char>)>, names: Seq<Seq<char>>, c: Seq<char>)
    ensures
        acc.len() <= add_names(acc, names, c).len(),
        forall|i: int| 0 <= i < acc.len() ==> #[trigger] add_names(acc, names, c)[i] == acc[i],
        forall|i: int|
            acc.len() <= i < add_names(acc, names, c).len() ==> (#[trigger] add_names(acc, names, c)[i]).1 == c
                && exists|j: int| 0 <= j < names.len() && add_names(acc, names, c)[i].0 == normalized_text(names[j]),
        forall|j: int| 0 <= j < names.len() ==> has_member(add_names(acc, names, c), normalized_text(#[trigger] names[j])),
    decreases names.len(),
{
    if names.len() > 0 {
        let p = names.drop_last();
        lemma_add_names_shape(acc, p, c);
        let prev = add_names(acc, p, c);
        let r = add_names(acc, names, c);
        let nm = normalized_text(names.last());
        assert forall|i: int| acc.len() <= i < r.len() implies (#[trigger] r[i]).1 == c
            && exists|j: int| 0 <= j < names.len() && r[i].0 == normalized_text(names[j]) by {
            if i < prev.len() {
                assert(r[i] == prev[i]);
                let j = choose|j: int| 0 <= j < p.len() && prev[i].0 == normalized_text(p[j]);
                assert(names[j] == p[j]);
            } else {
                assert(r[i] == (nm, c));
                assert(names[names.len() - 1] == names.last());
            }
        }
        assert forall|j: int| 0 <= j < names.len() implies has_member(r, normalized_text(#[trigger] names[j])) by {
            if j < names.len() - 1 {
                assert(names[j] == p[j]);
                assert(has_member(prev, normalized_text(p[j])));
                let q = choose|q: int| 0 <= q < prev.len() && prev[q].0 == normalized_text(p[j]);
                assert(r[q] == prev[q]);
            } else if has_member(prev, nm) {
                let q = choose|q: int| 0 <= q < prev.len() && prev[q].0 == nm;
                assert(r[q] == prev[q]);
            } else {
                assert(r[prev.len() as int].0 == nm);
            }
        }
    }
}

proof fn lemma_build_synonyms_shape(s: Seq<(Seq<char>, Seq<Seq<char>>)>)
    ensures
        forall|i: int|
            0 <= i < build_synonyms(s).len() ==> exists|g: int, j: int|
                0 <= g < s.len() && 0 <= j < group_names(s[g]).len() && #[trigger] build_synonyms(s)[i] == (
                    normalized_text(group_names(s[g])[j]),
                    s[g].0,
                ),
        forall|g: int, j: int|
            0 <= g < s.len() && 0 <= j < group_names(s[g]).len() ==> has_member(
                build_synonyms(s),
                normalized_text(#[trigger] group_names(s[g])[j]),
            ),
    decreases s.len(),
{
    if s.len() > 0 {
        let p = s.drop_last();
        let last = s.last();
        lemma_build_synonyms_shape(p);
        let base = build_synonyms(p);
        let b = build_synonyms(s);
        lemma_add_names_shape(base, group_names(last), last.0);
        assert(b == add_names(base, group_names(last), last.0));
        assert forall|i: int| 0 <= i < b.len() implies exists|g: int, j: int|
            0 <= g < s.len() && 0 <= j < group_names(s[g]).len() && #[trigger] b[i] == (
                normalized_text(group_names(s[g])[j]),
                s[g].0,
            ) by {
            if i < base.len() {
                assert(b[i] == base[i]);
                let (g, j) = choose|g: int, j: int|
                    0 <= g < p.len() && 0 <= j < group_names(p[g]).len() && base[i] == (
                        normalized_text(group_names(p[g])[j]),
                        p[g].0,
                    );
                assert(s[g] == p[g]);
            } else {
                let j = choose|j: int|
                    0 <= j < group_names(last).len() && b[i].0 == normalized_text(group_names(last)[j]);
                assert(s[s.len() - 1] == last);
                assert(b[i] == (normalized_text(group_names(s[s.len() - 1])[j]), s[s.len() - 1].0));
            }
        }
        assert forall|g: int, j: int| 0 <= g < s.len() && 0 <= j < group_names(s[g]).len() implies has_member(
            b,
            normalized_text(#[trigger] group_names(s[g])[j]),
        ) by {
            if g < s.len() - 1 {
                assert(s[g] == p[g]);
                assert(has_member(base, normalized_text(group_names(p[g])[j])));
                let q = choose|q: int| 0 <= q < base.len() && base[q].0 == normalized_text(group_names(p[g])[j]);
                assert(b[q] == base[q]);
            } else {
                assert(s[g] == last);
                assert(has_member(b, normalized_text(group_names(last)[j])));
            }
        }
    }
}

proof fn lemma_lookup_first(e: Seq<(Seq<char>, Seq<char>)>, t: Seq<char>)
    requires
        has_member(e, t),
    ensures
        exists|i: int|
            0 <= i < e.len() && e[i].0 == t && lookup(e, t) == Some(e[i].1) && forall|q: int| 0 <= q < i ==> e[q].0 != t,
    decreases e.len(),
{
    if e[0].0 != t {
        let i = choose|i: int| 0 <= i < e.len() && e[i].0 == t;
        assert(e.drop_first()[i - 1] == e[i]);
        lemma_lookup_first(e.drop_first(), t);
        let q = choose|q: int|
            0 <= q < e.drop_first().len() && e.drop_first()[q].0 == t && lookup(e.drop_first(), t) == Some(
                e.drop_first()[q].1,
            ) && forall|p: int| 0 <= p < q ==> e.drop_first()[p].0 != t;
        assert(e[q + 1] == e.drop_first()[q]);
        assert forall|p: int| 0 <= p < q + 1 implies e[p].0 != t by {
            if p > 0 {
                assert(e[p] == e.drop_first()[p - 1]);
            }
        }
    } else {
        assert forall|p: int| 0 <= p < 0 implies e[p].0 != t by {}
    }
}

/// The synonym list of the first `a` groups is a prefix of the list of all
/// of them.
proof fn lemma_build_prefix(s: Seq<(Seq<char>, Seq<Seq<char>>)>, a: int)
    requires
        0 <= a <= s.len(),
    ensures
        build_synonyms(s.take(a)).len() <= build_synonyms(s).len(),
        forall|i: int| 0 <= i < build_synonyms(s.take(a)).len() ==> #[trigger] build_synonyms(s)[i] == build_synonyms(
            s.take(a),
        )[i],
    decreases s.len(),
{
    if a == s.len() {
        assert(s.take(a) =~= s);
    } else {
        let p = s.drop_last();
        lemma_build_prefix(p, a);
        assert(p.take(a) =~= s.take(a));
        let last = s.last();
        lemma_add_names_shape(build_synonyms(p), group_names(last), last.0);
    }
}

/// A predicate spelled, once normalised, like a name of group `k` goes to
/// `k` when every other group with a name spelled that way has a greater
/// canonical name: a synonym listed in several groups belongs to the first
/// of them in key order. So `uses`, `Depends-On` and `requires` all give
/// `depends_on` when they are its members.
pub proof fn lemma_group_name_normalizes(
    entries: Seq<(Seq<char>, Seq<char>)>,
    m: Map<Seq<char>, Seq<Seq<char>>>,
    k: Seq<char>,
    name: Seq<char>,
    input: Seq<char>,
)
    requires
        built_from(entries, m),
        names_group(m, k, name),
        normalized_text(input) == normalized_text(name),
        normalized_text(name).len() > 0,
        forall|k2: Seq<char>, n2: Seq<char>|
            k2 != k && #[trigger] names_group(m, k2, n2) && normalized_text(n2) == normalized_text(name) ==> seq_lt(k, k2),
    ensures
        normalized_predicate(entries, input) == k,
{
    let s = choose|s: Seq<(Seq<char>, Seq<Seq<char>>)>| in_key_order(s, m) && entries == build_synonyms(s);
    lemma_increasing_distinct(s);
    let t = normalized_text(name);
    let gi = choose|i: int| 0 <= i < s.len() && s[i].0 == k;
    lemma_pairs_to_map_index(s, gi);
    let j: int = if name == k {
        0
    } else {
        let q = choose|q: int| 0 <= q < s[gi].1.len() && s[gi].1[q] == name;
        q + 1
    };
    let sp = s.take(gi + 1);
    assert(sp[gi] == s[gi]);
    assert(group_names(sp[gi])[j] == name);
    lemma_build_synonyms_shape(sp);
    let pre = build_synonyms(sp);
    assert(has_member(pre, normalized_text(group_names(sp[gi])[j])));
    let w = choose|w: int| 0 <= w < pre.len() && pre[w].0 == t;
    lemma_build_prefix(s, gi + 1);
    assert(entries[w] == pre[w]);
    assert(has_member(entries, t));
    lemma_lookup_first(entries, t);
    let i = choose|i: int|
        0 <= i < entries.len() && entries[i].0 == t && lookup(entries, t) == Some(entries[i].1) && forall|q: int|
            0 <= q < i ==> entries[q].0 != t;
    assert(i <= w);
    assert(entries[i] == pre[i]);
    let (g3, j3) = choose|g: int, jj: int|
        0 <= g < sp.len() && 0 <= jj < group_names(sp[g]).len() && pre[i] == (normalized_text(group_names(sp[g])[jj]), sp[g].0);
    assert(sp[g3] == s[g3]);
    if g3 != gi {
        lemma_pairs_to_map_index(s, g3);
        let n3 = group_names(s[g3])[j3];
        if j3 > 0 {
            assert(s[g3].1[j3 - 1] == n3);
        }
        assert(names_group(m, s[g3].0, n3));
        assert(seq_lt(k, s[g3].0));
        assert(seq_lt(s[g3].0, s[gi].0));
        lemma_lt_asymmetric(k, s[g3].0);
    }
}

} // verus!
