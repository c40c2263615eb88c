//! Reconciliation between the metadata store and the vector store: which ids
//! one has and the other lacks, and what a fix deletes.
use vstd::prelude::*;
use crate::access_tracker::{dedup_first, strings_view};
use crate::format::{decimal, decimal_string, decimal_string_u64};
use crate::ids::{parse_uuid, uuid_of};
use crate::order::{seq_lt, str_lt, lemma_lt_transitive, lemma_lt_total, lemma_lt_irreflexive};
use crate::pipeline::CoreError;
use crate::memory::Memory;
use crate::predicate::{Normalizers, normalized_predicate};
use crate::reflect::{find_key, group_by_key, lemma_find_key};
use crate::text::{chars_of, str_eq, string_of_chars};

verus! {

/// Outcome of an audit; ids are bare (without their namespace).
pub struct AuditReport {
    pub sqlite_only: Vec<String>,
    pub qdrant_only: Vec<String>,
    pub fixed: Vec<String>,
}

/// Outcome of a predicate backfill.
#[derive(Clone, Copy, Debug)]
pub struct BackfillReport {
    pub scanned: u64,
    pub updated: u64,
}

/// Views strictly increase along `s`.
pub open spec fn strictly_increasing(s: Seq<Seq<char>>) -> bool {
    forall|i: int, j: int| 0 <= i < j < s.len() ==> seq_lt(s[i], s[j])
}

pub(crate) fn contains_str(v: &Vec<String>, x: &str) -> (b: bool)
    ensures
        b == strings_view(v@).contains(x@),
{
    let mut i: usize = 0;
    while i < v.len()
        invariant
            i <= v.len(),
            forall|k: int| 0 <= k < i ==> v@[k]@ != x@,
        decreases v.len() - i,
    {
        if str_eq(v[i].as_str(), x) {
            assert(strings_view(v@)[i as int] == x@);
            return true;
        }
        i = i + 1;
    }
    proof {
        if strings_view(v@).contains(x@) {
            let k = choose|k: int| 0 <= k < strings_view(v@).len() && strings_view(v@)[k] == x@;
            assert(v@[k]@ == x@);
        }
    }
    false
}

/// Sorts distinct strings.
pub(crate) fn sort_strings(v: Vec<String>) -> (r: Vec<String>)
    requires
        strings_view(v@).no_duplicates(),
    ensures
        strictly_increasing(strings_view(r@)),
        forall|x: Seq<char>| strings_view(r@).contains(x) == strings_view(v@).contains(x),
{
    let ghost orig = strings_view(v@);
    let mut rem = v;
    let mut out: Vec<String> = Vec::new();
    while rem.len() > 0
        invariant
            strictly_increasing(strings_view(out@)),
            strings_view(rem@).no_duplicates(),
            forall|i: int, j: int| 0 <= i < out@.len() && 0 <= j < rem@.len() ==> seq_lt(#[trigger] out@[i]@, #[trigger] rem@[j]@),
            forall|x: Seq<char>| strings_view(out@).contains(x) || strings_view(rem@).contains(x) <==> orig.contains(x),
        decreases rem.len(),
    {
        let mut m: usize = 0;
        let mut j: usize = 1;
        while j < rem.len()
            invariant
                0 <= m < rem.len(),
                1 <= j <= rem.len(),
                m < j,
                strings_view(rem@).no_duplicates(),
                forall|k: int| 0 <= k < j && k != m ==> seq_lt(rem@[m as int]@, #[trigger] rem@[k]@),
            decreases rem.len() - j,
        {
            if str_lt(rem[j].as_str(), rem[m].as_str()) {
                proof {
                    assert forall|k: int| 0 <= k < j + 1 && k != j implies seq_lt(rem@[j as int]@, #[trigger] rem@[k]@) by {
                        if k != m {
                            lemma_lt_transitive(rem@[j as int]@, rem@[m as int]@, rem@[k]@);
                        }
                    }
                }
                m = j;
            } else {
                proof {
                    assert(strings_view(rem@)[j as int] != strings_view(rem@)[m as int]);
                    lemma_lt_total(rem@[j as int]@, rem@[m as int]@);
                }
            }
            j = j + 1;
        }
        let ghost old_rem = rem@;
        let ghost old_out = out@;
        let e = rem.remove(m);
        out.push(e);
        proof {
            let gr = strings_view(old_rem);
            let go = strings_view(old_out);
            assert(strings_view(rem@) =~= gr.remove(m as int));
            assert(strings_view(out@) =~= go.push(gr[m as int]));
            assert forall|a: int, b: int| 0 <= a < b < strings_view(out@).len() implies seq_lt(
                strings_view(out@)[a],
                strings_view(out@)[b],
            ) by {
                if b == old_out.len() {
                    assert(seq_lt(old_out[a]@, old_rem[m as int]@));
                }
            }
            assert forall|a: int, b: int| 0 <= a < out@.len() && 0 <= b < rem@.len() implies seq_lt(
                #[trigger] out@[a]@,
                #[trigger] rem@[b]@,
            ) by {
                let b1 = if b < m { b } else { b + 1 };
                assert(rem@[b] == old_rem[b1]);
                if a < old_out.len() {
                    assert(out@[a] == old_out[a]);
                } else {
                    assert(b1 != m);
                }
            }
            assert forall|x: Seq<char>| strings_view(out@).contains(x) || strings_view(rem@).contains(x) <==> orig.contains(x) by {
                if orig.contains(x) {
                    if go.contains(x) {
                        let i = choose|i: int| 0 <= i < go.len() && go[i] == x;
                        assert(strings_view(out@)[i] == x);
                    } else {
                        let i = choose|i: int| 0 <= i < gr.len() && gr[i] == x;
                        if i == m {
                            assert(strings_view(out@)[go.len() as int] == x);
                        } else {
                            let i1 = if i < m { i } else { i - 1 };
                            assert(strings_view(rem@)[i1] == x);
                        }
                    }
                }
                if strings_view(out@).contains(x) {
                    let i = choose|i: int| 0 <= i < strings_view(out@).len() && strings_view(out@)[i] == x;
                    if i < go.len() {
                        assert(go[i] == x);
                    } else {
                        assert(gr[m as int] == x);
                    }
                }
                if strings_view(rem@).contains(x) {
                    let i = choose|i: int| 0 <= i < strings_view(rem@).len() && strings_view(rem@)[i] == x;
                    let i1 = if i < m { i } else { i + 1 };
                    assert(gr[i1] == x);
                }
            }
        }
    }
    out
}

/// Appends to `acc` the strings of `v` it does not hold yet.
pub(crate) fn add_distinct(start: Vec<String>, v: &Vec<String>) -> (acc: Vec<String>)
    requires
        strings_view(start@).no_duplicates(),
    ensures
        strings_view(acc@).no_duplicates(),
        forall|x: Seq<char>| strings_view(acc@).contains(x) <==> (strings_view(start@).contains(x) || strings_view(v@).contains(x)),
{
    let mut acc = start;
    let mut i: usize = 0;
    while i < v.len()
        invariant
            i <= v.len(),
            strings_view(acc@).no_duplicates(),
            forall|x: Seq<char>| strings_view(acc@).contains(x) <==> (strings_view(start@).contains(x) || strings_view(v@).take(i as int).contains(x)),
        decreases v.len() - i,
    {
        let ghost before = strings_view(acc@);
        let ghost t0 = strings_view(v@).take(i as int);
        let ghost t1 = strings_view(v@).take(i + 1);
        let ghost y = v@[i as int]@;
        proof {
            assert(t1 =~= t0.push(y));
            assert forall|x: Seq<char>| t1.contains(x) <==> (t0.contains(x) || x == y) by {
                if t1.contains(x) {
                    let k = choose|k: int| 0 <= k < t1.len() && t1[k] == x;
                    if k < i {
                        assert(t0[k] == x);
                    }
                }
                if t0.contains(x) {
                    let k = choose|k: int| 0 <= k < t0.len() && t0[k] == x;
                    assert(t1[k] == x);
                }
                if x == y {
                    assert(t1[i as int] == x);
                }
            }
        }
        if !contains_str(&acc, v[i].as_str()) {
            acc.push(v[i].clone());
            proof {
                let after = strings_view(acc@);
                assert(after =~= before.push(y));
                assert forall|x: Seq<char>| after.contains(x) <==> (before.contains(x) || x == y) by {
                    if after.contains(x) {
                        let k = choose|k: int| 0 <= k < after.len() && after[k] == x;
                        if k < before.len() {
                            assert(before[k] == x);
                        }
                    }
                    if before.contains(x) {
                        let k = choose|k: int| 0 <= k < before.len() && before[k] == x;
                        assert(after[k] == x);
                    }
                    if x == y {
                        assert(after[before.len() as int] == x);
                    }
                }
            }
        }
        i = i + 1;
    }
    assert(strings_view(v@).take(v.len() as int) =~= strings_view(v@));
    acc
}

/// The namespaces an audit visits: every namespace either store knows, and
/// the default one, each once, in increasing order.
pub fn audit_namespaces(sqlite: &Vec<String>, qdrant: &Vec<String>, default_ns: &String) -> (r: Vec<String>)
    ensures
        strictly_increasing(strings_view(r@)),
        forall|x: Seq<char>| strings_view(r@).contains(x) <==> (strings_view(sqlite@).contains(x)
            || strings_view(qdrant@).contains(x) || x == default_ns@),
{
    let empty: Vec<String> = Vec::new();
    assert(strings_view(empty@).no_duplicates());
    let all = add_distinct(empty, sqlite);
    let ghost a1 = strings_view(all@);
    assert(forall|x: Seq<char>| a1.contains(x) <==> strings_view(sqlite@).contains(x));
    let all = add_distinct(all, qdrant);
    let ghost a2 = strings_view(all@);
    assert(forall|x: Seq<char>| a2.contains(x) <==> (a1.contains(x) || strings_view(qdrant@).contains(x)));
    let mut d: Vec<String> = Vec::new();
    d.push(default_ns.clone());
    assert(strings_view(d@) =~= seq![default_ns@]);
    let all = add_distinct(all, &d);
    proof {
        assert forall|x: Seq<char>| strings_view(all@).contains(x) <==> (strings_view(sqlite@).contains(x)
            || strings_view(qdrant@).contains(x) || x == default_ns@) by {
            if x == default_ns@ {
                assert(strings_view(d@)[0] == x);
            }
            if strings_view(d@).contains(x) {
                let k = choose|k: int| 0 <= k < strings_view(d@).len() && strings_view(d@)[k] == x;
                assert(k == 0);
            }
            assert(a1.contains(x) <==> strings_view(sqlite@).contains(x));
            assert(a2.contains(x) <==> (a1.contains(x) || strings_view(qdrant@).contains(x)));
        }
    }
    sort_strings(all)
}

/// Ids of `a`, each once in first-occurrence order, that `b` lacks.
pub open spec fn missing_from(a: Seq<Seq<char>>, b: Seq<Seq<char>>) -> Seq<Seq<char>> {
    dedup_first(a).filter(|x: Seq<char>| !b.contains(x))
}

/// The ids that `a` holds and `b` does not.
pub fn ids_missing_from(a: &Vec<String>, b: &Vec<String>) -> (r: Vec<String>)
    ensures
        strings_view(r@) == missing_from(strings_view(a@), strings_view(b@)),
{
    let mut distinct: Vec<String> = Vec::new();
    let mut i: usize = 0;
    let ghost av = strings_view(a@);
    while i < a.len()
        invariant
            i <= a.len(),
            av == strings_view(a@),
            strings_view(distinct@) == dedup_first(av.take(i as int)),
        decreases a.len() - i,
    {
        assert(av.take(i + 1).drop_last() =~= av.take(i as int));
        assert(av.take(i + 1).last() == a@[i as int]@);
        if !contains_str(&distinct, a[i].as_str()) {
            let ghost before = strings_view(distinct@);
            distinct.push(a[i].clone());
            assert(strings_view(distinct@) =~= before.push(a@[i as int]@));
        }
        i = i + 1;
    }
    assert(av.take(a.len() as int) =~= av);
    let ghost d = strings_view(distinct@);
    let mut out: Vec<String> = Vec::new();
    let mut k: usize = 0;
    while k < distinct.len()
        invariant
            k <= distinct.len(),
            d == strings_view(distinct@),
            strings_view(out@) == d.take(k as int).filter(|x: Seq<char>| !strings_view(b@).contains(x)),
        decreases distinct.len() - k,
    {
        let keep = !contains_str(b, distinct[k].as_str());
        proof {
            reveal(Seq::filter);
            assert(d.take(k + 1).drop_last() =~= d.take(k as int));
            assert(d.take(k + 1).last() == distinct@[k as int]@);
        }
        if keep {
            let ghost before = strings_view(out@);
            out.push(distinct[k].clone());
            assert(strings_view(out@) =~= before.push(distinct@[k as int]@));
        }
        k = k + 1;
    }
    assert(d.take(distinct.len() as int) =~= d);
    out
}

/// `<namespace>:<id>`, how an audit remembers which collection an id lives
/// in.
pub fn tag_id(namespace: &str, id: &str) -> (r: String)
    ensures
        r@ == namespace@ + ":"@ + id@,
{
    let mut r = String::from_str(namespace);
    r.append(":");
    r.append(id);
    r
}

/// Index of the first `:` in `s`.
pub open spec fn first_colon(s: Seq<char>) -> Option<int>
    decreases s.len(),
{
    if s.len() == 0 {
        None
    } else {
        match first_colon(s.drop_last()) {
            Some(i) => Some(i),
            None => if s.last() == ':' {
                Some(s.len() - 1)
            } else {
                None
            },
        }
    }
}

/// `str::split_once(':')`: the text before and after the first `:`.
pub open spec fn split_at_colon(s: Seq<char>) -> Option<(Seq<char>, Seq<char>)> {
    match first_colon(s) {
        Some(i) => Some((s.take(i), s.skip(i + 1))),
        None => None,
    }
}

proof fn lemma_first_colon_bounds(s: Seq<char>)
    ensures
        match first_colon(s) {
            Some(i) => 0 <= i < s.len() && s[i] == ':' && forall|k: int| 0 <= k < i ==> s[k] != ':',
            None => forall|k: int| 0 <= k < s.len() ==> s[k] != ':',
        },
    decreases s.len(),
{
    if s.len() > 0 {
        lemma_first_colon_bounds(s.drop_last());
        assert(forall|k: int| 0 <= k < s.len() - 1 ==> s.drop_last()[k] == s[k]);
    }
}

proof fn lemma_first_colon_is(s: Seq<char>, i: int)
    requires
        0 <= i < s.len(),
        s[i] == ':',
        forall|k: int| 0 <= k < i ==> s[k] != ':',
    ensures
        first_colon(s) == Some(i),
    decreases s.len(),
{
    if i < s.len() - 1 {
        lemma_first_colon_is(s.drop_last(), i);
    } else {
        lemma_first_colon_bounds(s.drop_last());
        assert forall|k: int| 0 <= k < s.drop_last().len() implies s.drop_last()[k] != ':' by {
            assert(s.drop_last()[k] == s[k]);
        }
        match first_colon(s.drop_last()) {
            Some(j) => {
                assert(s[j] == ':');
            },
            None => {},
        }
    }
}

/// Splits a tagged id at its first `:`.
pub fn untag(tagged: &str) -> (r: Option<(String, String)>)
    ensures
        match split_at_colon(tagged@) {
            Some((a, b)) => r matches Some((x, y)) && x@ == a && y@ == b,
            None => r is None,
        },
{
    let cs = chars_of(tagged);
    let mut i: usize = 0;
    while i < cs.len() && cs[i] != ':'
        invariant
            i <= cs.len(),
            cs@ == tagged@,
            forall|k: int| 0 <= k < i ==> cs@[k] != ':',
        decreases cs.len() - i,
    {
        i = i + 1;
    }
    if i == cs.len() {
        proof {
            lemma_first_colon_bounds(tagged@);
            match first_colon(tagged@) {
                Some(j) => {
                    assert(cs@[j] == ':');
                },
                None => {},
            }
        }
        return None;
    }
    proof {
        lemma_first_colon_is(tagged@, i as int);
    }
    let mut head: Vec<char> = Vec::new();
    let mut k: usize = 0;
    while k < i
        invariant
            k <= i,
            i < cs.len(),
            head@ == cs@.take(k as int),
        decreases i - k,
    {
        head.push(cs[k]);
        k = k + 1;
        assert(head@ =~= cs@.take(k as int));
    }
    let mut tail: Vec<char> = Vec::new();
    let mut k2: usize = i + 1;
    while k2 < cs.len()
        invariant
            i + 1 <= k2 <= cs.len(),
            tail@ == cs@.subrange(i + 1, k2 as int),
        decreases cs.len() - k2,
    {
        tail.push(cs[k2]);
        k2 = k2 + 1;
        assert(tail@ =~= cs@.subrange(i + 1, k2 as int));
    }
    assert(cs@.subrange(i + 1, cs.len() as int) =~= cs@.skip(i + 1));
    Some((string_of_chars(&head), string_of_chars(&tail)))
}

/// A tagged id splits back into its namespace and id, when the namespace
/// holds no `:`.
pub proof fn lemma_untag_tag(namespace: Seq<char>, id: Seq<char>)
    requires
        !namespace.contains(':'),
    ensures
        split_at_colon(namespace + ":"@ + id) == Some((namespace, id)),
{
    reveal_strlit(":");
    let s = namespace + ":"@ + id;
    let n = namespace.len() as int;
    assert(s[n] == ':');
    assert forall|k: int| 0 <= k < n implies s[k] != ':' by {
        assert(s[k] == namespace[k]);
    }
    lemma_first_colon_is(s, n);
    assert(s.take(n) =~= namespace);
    assert(s.skip(n + 1) =~= id);
}

/// The bare ids of tagged ids that split at a `:`, in order.
pub open spec fn bare_ids(tagged: Seq<Seq<char>>) -> Seq<Seq<char>>
    decreases tagged.len(),
{
    if tagged.len() == 0 {
        Seq::empty()
    } else {
        let prev = bare_ids(tagged.drop_last());
        match split_at_colon(tagged.last()) {
            Some((_, id)) => prev.push(id),
            None => prev,
        }
    }
}

fn strip_tags(tagged: &Vec<String>) -> (r: Vec<String>)
    ensures
        strings_view(r@) == bare_ids(strings_view(tagged@)),
{
    let ghost t = strings_view(tagged@);
    let mut out: Vec<String> = Vec::new();
    let mut i: usize = 0;
    while i < tagged.len()
        invariant
            i <= tagged.len(),
            t == strings_view(tagged@),
            strings_view(out@) == bare_ids(t.take(i as int)),
        decreases tagged.len() - i,
    {
        assert(t.take(i + 1).drop_last() =~= t.take(i as int));
        assert(t.take(i + 1).last() == tagged@[i as int]@);
        match untag(tagged[i].as_str()) {
            Some((_, id)) => {
                let ghost before = strings_view(out@);
                out.push(id);
                assert(strings_view(out@) =~= before.push(out@[out@.len() - 1]@));
            },
            None => {},
        }
        i = i + 1;
    }
    assert(t.take(tagged.len() as int) =~= t);
    out
}

/// Builds the audit report. With `fix`, refuses when more vector-only ids
/// than `fix_limit` would be deleted; otherwise reports them as fixed. Ids
/// are reported without their namespace tag.
pub fn audit_report(fix: bool, fix_limit: u64, sqlite_only: Vec<String>, qdrant_only_tagged: &Vec<String>) -> (r: Result<AuditReport, CoreError>)
    ensures
        fix && qdrant_only_tagged@.len() > fix_limit ==> (r matches Err(CoreError::Validation(m))
            && m@ == "audit refuses to auto-fix "@ + decimal(qdrant_only_tagged@.len()) + " qdrant-only ids (limit "@
                + decimal(fix_limit as nat) + ")"@),
        fix && qdrant_only_tagged@.len() <= fix_limit ==> (r matches Ok(rep) && rep.sqlite_only@ == sqlite_only@
            && strings_view(rep.fixed@) == bare_ids(strings_view(qdrant_only_tagged@)) && rep.qdrant_only@.len() == 0),
        !fix ==> (r matches Ok(rep) && rep.sqlite_only@ == sqlite_only@
            && strings_view(rep.qdrant_only@) == bare_ids(strings_view(qdrant_only_tagged@)) && rep.fixed@.len() == 0),
{
    if fix {
        if qdrant_only_tagged.len() as u64 > fix_limit {
            let mut m = String::from_str("audit refuses to auto-fix ");
            let n = decimal_string(qdrant_only_tagged.len());
            m.append(n.as_str());
            m.append(" qdrant-only ids (limit ");
            let l = decimal_string_u64(fix_limit);
            m.append(l.as_str());
            m.append(")");
            return Err(CoreError::Validation(m));
        }
        let fixed = strip_tags(qdrant_only_tagged);
        Ok(AuditReport { sqlite_only, fixed, qdrant_only: Vec::new() })
    } else {
        let qdrant_only = strip_tags(qdrant_only_tagged);
        Ok(AuditReport { sqlite_only, qdrant_only, fixed: Vec::new() })
    }
}

/// The namespace a tagged id is deleted from, when it splits and its id is a
/// UUID.
pub open spec fn delete_key(tagged: Seq<char>) -> Option<Seq<char>> {
    match split_at_colon(tagged) {
        Some((ns, id)) => if uuid_of(id) is Some {
            Some(ns)
        } else {
            None
        },
        None => None,
    }
}

/// The UUID of a tagged id.
pub open spec fn delete_uuid(tagged: Seq<char>) -> u128 {
    match split_at_colon(tagged) {
        Some((ns, id)) => match uuid_of(id) {
            Some(u) => u,
            None => 0,
        },
        None => 0,
    }
}

pub open spec fn delete_groups_view(r: Seq<(String, Vec<u128>)>) -> Seq<(Seq<char>, Seq<u128>)> {
    r.map_values(|e: (String, Vec<u128>)| (e.0@, e.1@))
}

/// The groups `tagged` splits into, by namespace in first-occurrence order,
/// each with the UUIDs of its ids in order.
pub open spec fn delete_groups(tagged: Seq<Seq<char>>) -> Seq<(Seq<char>, Seq<u128>)> {
    group_by_key(tagged.map_values(|t: Seq<char>| delete_key(t))).map_values(
        |g: (Seq<char>, Seq<int>)| (g.0, g.1.map_values(|i: int| delete_uuid(tagged[i]))),
    )
}

/// The vector-store deletes of an audit fix: the tagged ids grouped by
/// namespace (first-occurrence order), ids that do not split or are not
/// UUIDs left out.
pub fn group_deletes(tagged: &Vec<String>) -> (r: Vec<(String, Vec<u128>)>)
    ensures
        delete_groups_view(r@) == delete_groups(strings_view(tagged@)),
{
    let ghost tv = strings_view(tagged@);
    let ghost keys = tv.map_values(|t: Seq<char>| delete_key(t));
    let ghost mut idx: Seq<(Seq<char>, Seq<int>)> = Seq::empty();
    let mut out: Vec<(String, Vec<u128>)> = Vec::new();
    let mut i: usize = 0;
    while i < tagged.len()
        invariant
            i <= tagged@.len(),
            tv == strings_view(tagged@),
            keys == tv.map_values(|t: Seq<char>| delete_key(t)),
            idx == group_by_key(keys.take(i as int)),
            out@.len() == idx.len(),
            forall|g: int| 0 <= g < idx.len() ==> (#[trigger] out@[g]).0@ == idx[g].0 && out@[g].1@
                == idx[g].1.map_values(|j: int| delete_uuid(tv[j])),
        decreases tagged.len() - i,
    {
        proof {
            assert(keys.take(i + 1).drop_last() =~= keys.take(i as int));
            assert(keys.take(i + 1).last() == delete_key(tv[i as int]));
            assert(tv[i as int] == tagged@[i as int]@);
        }
        match untag(tagged[i].as_str()) {
            None => {},
            Some((ns, id)) => {
                match parse_uuid(id.as_str()) {
                    None => {},
                    Some(u) => {
                        let ghost before = idx;
                        proof {
                            lemma_find_key(before, ns@);
                        }
                        let mut g: usize = 0;
                        while g < out.len() && !str_eq(out[g].0.as_str(), ns.as_str())
                            invariant
                                g <= out@.len(),
                                out@.len() == before.len(),
                                forall|q: int| 0 <= q < before.len() ==> (#[trigger] out@[q]).0@ == before[q].0,
                                forall|q: int| 0 <= q < g ==> before[q].0 != ns@,
                            decreases out.len() - g,
                        {
                            g = g + 1;
                        }
                        if g < out.len() {
                            proof {
                                lemma_find_key(before, ns@);
                                assert(find_key(before, ns@) == Some(g as int));
                            }
                            let (name, mut ids) = out.remove(g);
                            ids.push(u);
                            out.insert(g, (name, ids));
                            proof {
                                idx = before.update(g as int, (ns@, before[g as int].1.push(i as int)));
                                assert forall|q: int| 0 <= q < idx.len() implies (#[trigger] out@[q]).0@ == idx[q].0
                                    && out@[q].1@ == idx[q].1.map_values(|j: int| delete_uuid(tv[j])) by {
                                    if q == g {
                                        assert(idx[q].1.map_values(|j: int| delete_uuid(tv[j])) =~= before[q].1.map_values(
                                            |j: int| delete_uuid(tv[j]),
                                        ).push(u));
                                    }
                                }
                            }
                        } else {
                            proof {
                                lemma_find_key(before, ns@);
                            }
                            let mut ids: Vec<u128> = Vec::new();
                            ids.push(u);
                            out.push((ns, ids));
                            proof {
                                idx = before.push((ns@, seq![i as int]));
                                assert forall|q: int| 0 <= q < idx.len() implies (#[trigger] out@[q]).0@ == idx[q].0
                                    && out@[q].1@ == idx[q].1.map_values(|j: int| delete_uuid(tv[j])) by {
                                    if q == before.len() {
                                        assert(idx[q].1.map_values(|j: int| delete_uuid(tv[j])) =~= seq![u]);
                                    }
                                }
                            }
                        }
                    },
                }
            },
        }
        i = i + 1;
    }
    proof {
        assert(keys.take(tagged.len() as int) =~= keys);
        assert(delete_groups_view(out@) =~= delete_groups(tv));
    }
    out
}

/// The normalised predicate a backfill writes for row `m`: its predicate
/// through its namespace's normaliser, also where that leaves it unchanged.
/// A row without a predicate gets nothing.
pub open spec fn backfill_value(m: Memory, n: Normalizers) -> Option<Seq<char>> {
    match m.predicate {
        Some(p) => Some(normalized_predicate(n.entries_for(m.namespace@), p@)),
        None => None,
    }
}

/// The updates a predicate backfill makes, in row order: the index of each
/// row that has a predicate, with its normalised value; and the report (rows
/// scanned, rows updated). A dry run reports the same numbers and writes
/// nothing.
pub fn plan_backfill(rows: &Vec<Memory>, normalizers: &Normalizers) -> (r: (Vec<(usize, String)>, BackfillReport))
    requires
        normalizers.wf(),
    ensures
        r.1.scanned == rows@.len(),
        r.1.updated == r.0@.len(),
        r.0@.len() == rows@.filter(|m: Memory| m.predicate is Some).len(),
        forall|k: int| 0 <= k < r.0@.len() ==> (#[trigger] r.0@[k]).0 < rows@.len() && backfill_value(
            rows@[r.0@[k].0 as int],
            *normalizers,
        ) == Some(r.0@[k].1@),
        forall|k1: int, k2: int| 0 <= k1 < k2 < r.0@.len() ==> (#[trigger] r.0@[k1]).0 < (#[trigger] r.0@[k2]).0,
        forall|i: int| 0 <= i < rows@.len() && (#[trigger] backfill_value(rows@[i], *normalizers)) is Some ==> exists|k: int|
            0 <= k < r.0@.len() && r.0@[k].0 == i,
{
    let mut updates: Vec<(usize, String)> = Vec::new();
    let mut i: usize = 0;
    while i < rows.len()
        invariant
            i <= rows@.len(),
            normalizers.wf(),
            updates@.len() <= i,
            updates@.len() == rows@.take(i as int).filter(|m: Memory| m.predicate is Some).len(),
            forall|k: int| 0 <= k < updates@.len() ==> (#[trigger] updates@[k]).0 < i && backfill_value(
                rows@[updates@[k].0 as int],
                *normalizers,
            ) == Some(updates@[k].1@),
            forall|k1: int, k2: int| 0 <= k1 < k2 < updates@.len() ==> (#[trigger] updates@[k1]).0 < (#[trigger] updates@[k2]).0,
            forall|j: int| 0 <= j < i && (#[trigger] backfill_value(rows@[j], *normalizers)) is Some ==> exists|k: int|
                0 <= k < updates@.len() && updates@[k].0 == j,
        decreases rows.len() - i,
    {
        proof {
            reveal(Seq::filter);
            assert(rows@.take(i + 1).drop_last() =~= rows@.take(i as int));
            assert(rows@.take(i + 1).last() == rows@[i as int]);
        }
        let row = &rows[i];
        match &row.predicate {
            None => {},
            Some(p) => {
                let n = normalizers.for_namespace(row.namespace.as_str());
                let v = n.normalize(p.as_str());
                {
                    let ghost before = updates@;
                    updates.push((i, v));
                    proof {
                        assert(updates@[before.len() as int].0 == i);
                        assert forall|j: int| 0 <= j < i + 1 && (#[trigger] backfill_value(rows@[j], *normalizers)) is Some implies exists|k: int|
                            0 <= k < updates@.len() && updates@[k].0 == j by {
                            if j < i {
                                let k0 = choose|k: int| 0 <= k < before.len() && before[k].0 == j;
                                assert(updates@[k0].0 == j);
                            } else {
                                assert(updates@[before.len() as int].0 == j);
                            }
                        }
                    }
                }
            },
        }
        i = i + 1;
    }
    assert(rows@.take(rows.len() as int) =~= rows@);
    let count: u64 = updates.len() as u64;
    (updates, BackfillReport { scanned: rows.len() as u64, updated: count })
}

} // verus!
