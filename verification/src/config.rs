//! Configuration: thresholds, predicate groups per namespace, reconciliation
//! and cache sizes, and their defaults.
use vstd::prelude::*;
use crate::groups::{PredicateGroups, distinct_keys, group_view, pairs_to_map, lemma_pairs_to_map_index, clone_strings};
use crate::text::str_eq;

verus! {

/// Bits of `0.95_f32`, the default duplicate thresholds.
pub const DEFAULT_DUPLICATE_THRESHOLD: u32 = 0x3f73_3333;
/// Bits of `0.50_f32`, the default update threshold.
pub const DEFAULT_UPDATE_THRESHOLD: u32 = 0x3f00_0000;
pub const DEFAULT_READER_POOL_SIZE: usize = 4;
pub const DEFAULT_AUDIT_FIX_LIMIT: u64 = 1000;
pub const DEFAULT_EMBEDDING_CACHE_CAPACITY: usize = 256;
pub const DEFAULT_RESULT_CACHE_CAPACITY: usize = 128;

/// Deduplication of episodic and procedural memories: a new memory whose
/// nearest neighbour scores at least `threshold` (bits of an `f32`) is
/// rejected.
#[derive(Clone, Copy, Debug)]
pub struct DedupConfig {
    pub threshold: u32,
}

impl Default for DedupConfig {
    fn default() -> (c: DedupConfig)
        ensures
            c.threshold == DEFAULT_DUPLICATE_THRESHOLD,
    {
        DedupConfig { threshold: DEFAULT_DUPLICATE_THRESHOLD }
    }
}

/// Conflict resolution of semantic triples, by object similarity (bits of
/// `f32` values).
#[derive(Clone, Copy, Debug)]
pub struct ConflictConfig {
    pub object_fuzzy_duplicate: u32,
    pub object_fuzzy_update: u32,
}

impl Default for ConflictConfig {
    fn default() -> (c: ConflictConfig)
        ensures
            c.object_fuzzy_duplicate == DEFAULT_DUPLICATE_THRESHOLD,
            c.object_fuzzy_update == DEFAULT_UPDATE_THRESHOLD,
    {
        ConflictConfig {
            object_fuzzy_duplicate: DEFAULT_DUPLICATE_THRESHOLD,
            object_fuzzy_update: DEFAULT_UPDATE_THRESHOLD,
        }
    }
}

/// Predicate groups of one namespace, overriding the global ones.
pub struct NamespacePredicatesConfig {
    pub groups: PredicateGroups,
}

/// Global predicate groups and per-namespace overrides.
pub struct PredicatesConfig {
    pub groups: PredicateGroups,
    /// Namespace name and its overrides; the first entry of a name counts.
    pub namespaces: Vec<(String, NamespacePredicatesConfig)>,
}

impl PredicatesConfig {
    /// No groups and no namespace overrides.
    pub fn new() -> (c: Self)
        ensures
            c.groups@ == Map::<Seq<char>, Seq<Seq<char>>>::empty(),
            c.namespaces@.len() == 0,
    {
        PredicatesConfig { groups: PredicateGroups::new(), namespaces: Vec::new() }
    }
}

#[derive(Clone, Copy, Debug)]
pub struct ReconciliationConfig {
    pub audit_interval_hours: Option<u64>,
    pub audit_fix_limit: u64,
}

impl Default for ReconciliationConfig {
    fn default() -> (c: ReconciliationConfig)
        ensures
            c.audit_interval_hours is None,
            c.audit_fix_limit == DEFAULT_AUDIT_FIX_LIMIT,
    {
        ReconciliationConfig { audit_interval_hours: None, audit_fix_limit: DEFAULT_AUDIT_FIX_LIMIT }
    }
}

#[derive(Clone, Copy, Debug)]
pub struct CacheConfig {
    pub embedding_capacity: usize,
    pub result_capacity: usize,
}

impl Default for CacheConfig {
    fn default() -> (c: CacheConfig)
        ensures
            c.embedding_capacity == DEFAULT_EMBEDDING_CACHE_CAPACITY,
            c.result_capacity == DEFAULT_RESULT_CACHE_CAPACITY,
    {
        CacheConfig {
            embedding_capacity: DEFAULT_EMBEDDING_CACHE_CAPACITY,
            result_capacity: DEFAULT_RESULT_CACHE_CAPACITY,
        }
    }
}

/// `[deduplication]` of the configuration file.
#[derive(Clone, Copy, Debug, Default)]
pub struct DedupFile {
    pub threshold: Option<u32>,
}

/// `[conflict]` of the configuration file.
#[derive(Clone, Copy, Debug, Default)]
pub struct ConflictFile {
    pub object_fuzzy_duplicate: Option<u32>,
    pub object_fuzzy_update: Option<u32>,
}

/// `[predicates]` of the configuration file.
pub struct PredicatesFile {
    pub groups: PredicateGroups,
}

/// `[namespaces.<name>]` of the configuration file.
pub struct NamespaceFile {
    pub predicates: PredicatesFile,
}

/// `[reconciliation]` of the configuration file.
#[derive(Clone, Copy, Debug, Default)]
pub struct ReconciliationFile {
    pub audit_interval_hours: Option<u64>,
    pub audit_fix_limit: Option<u64>,
}

/// The configuration file, every section optional.
pub struct FileConfig {
    pub deduplication: DedupFile,
    pub conflict: ConflictFile,
    pub predicates: PredicatesFile,
    pub namespaces: Vec<(String, NamespaceFile)>,
    pub reconciliation: ReconciliationFile,
    pub reader_pool_size: Option<usize>,
}

impl Default for FileConfig {
    /// A file with no settings at all.
    fn default() -> (c: FileConfig)
        ensures
            c.deduplication.threshold is None,
            c.conflict.object_fuzzy_duplicate is None,
            c.conflict.object_fuzzy_update is None,
            c.predicates.groups@ == Map::<Seq<char>, Seq<Seq<char>>>::empty(),
            c.namespaces@.len() == 0,
            c.reconciliation.audit_interval_hours is None,
            c.reconciliation.audit_fix_limit is None,
            c.reader_pool_size is None,
    {
        FileConfig {
            deduplication: DedupFile { threshold: None },
            conflict: ConflictFile { object_fuzzy_duplicate: None, object_fuzzy_update: None },
            predicates: PredicatesFile { groups: PredicateGroups::new() },
            namespaces: Vec::new(),
            reconciliation: ReconciliationFile { audit_interval_hours: None, audit_fix_limit: None },
            reader_pool_size: None,
        }
    }
}

/// The configuration after defaults are applied.
pub struct LoadedConfig {
    pub deduplication: DedupConfig,
    pub conflict: ConflictConfig,
    pub predicates: PredicatesConfig,
    pub reconciliation: ReconciliationConfig,
    pub reader_pool_size: usize,
}

/// Why the configuration could not be loaded.
#[derive(Debug)]
pub enum ConfigError {
    /// Reading or writing the file failed; the message of the I/O error.
    Io(String),
    /// The file is not valid TOML for this schema; the parser's message.
    Parse(String),
}

/// Fills every missing value of `file` with its default.
pub fn resolve(file: FileConfig) -> (c: LoadedConfig)
    ensures
        c.deduplication.threshold == file.deduplication.threshold.unwrap_or(DEFAULT_DUPLICATE_THRESHOLD),
        c.conflict.object_fuzzy_duplicate == file.conflict.object_fuzzy_duplicate.unwrap_or(
            DEFAULT_DUPLICATE_THRESHOLD,
        ),
        c.conflict.object_fuzzy_update == file.conflict.object_fuzzy_update.unwrap_or(
            DEFAULT_UPDATE_THRESHOLD,
        ),
        c.predicates.groups@ == file.predicates.groups@,
        c.predicates.namespaces@.len() == file.namespaces@.len(),
        forall|i: int| 0 <= i < file.namespaces@.len() ==>
            (#[trigger] c.predicates.namespaces@[i]).0@ == file.namespaces@[i].0@
            && c.predicates.namespaces@[i].1.groups@ == file.namespaces@[i].1.predicates.groups@,
        c.reconciliation.audit_interval_hours == file.reconciliation.audit_interval_hours,
        c.reconciliation.audit_fix_limit == file.reconciliation.audit_fix_limit.unwrap_or(
            DEFAULT_AUDIT_FIX_LIMIT,
        ),
        c.reader_pool_size == file.reader_pool_size.unwrap_or(DEFAULT_READER_POOL_SIZE),
{
    let deduplication = DedupConfig {
        threshold: match file.deduplication.threshold {
            Some(t) => t,
            None => DEFAULT_DUPLICATE_THRESHOLD,
        },
    };
    let conflict = ConflictConfig {
        object_fuzzy_duplicate: match file.conflict.object_fuzzy_duplicate {
            Some(t) => t,
            None => DEFAULT_DUPLICATE_THRESHOLD,
        },
        object_fuzzy_update: match file.conflict.object_fuzzy_update {
            Some(t) => t,
            None => DEFAULT_UPDATE_THRESHOLD,
        },
    };
    let ghost fns = file.namespaces@;
    let mut source = file.namespaces;
    let mut namespaces: Vec<(String, NamespacePredicatesConfig)> = Vec::new();
    let mut i: usize = 0;
    let n = source.len();
    // Moves each namespace's groups out of the file, in order.
    let mut rev: Vec<(String, NamespaceFile)> = Vec::new();
    while source.len() > 0
        invariant
            source@.len() + rev@.len() == n,
            n == fns.len(),
            forall|k: int| 0 <= k < source@.len() ==> #[trigger] source@[k] == fns[k],
            forall|k: int| 0 <= k < rev@.len() ==> #[trigger] rev@[k] == fns[n - 1 - k],
        decreases source.len(),
    {
        let e = source.pop().unwrap();
        rev.push(e);
    }
    while rev.len() > 0
        invariant
            rev@.len() + namespaces@.len() == n,
            n == fns.len(),
            forall|k: int| 0 <= k < rev@.len() ==> #[trigger] rev@[k] == fns[n - 1 - k],
            forall|k: int| 0 <= k < namespaces@.len() ==>
                (#[trigger] namespaces@[k]).0@ == fns[k].0@
                && namespaces@[k].1.groups@ == fns[k].1.predicates.groups@,
        decreases rev.len(),
    {
        let (name, nsf) = rev.pop().unwrap();
        namespaces.push((name, NamespacePredicatesConfig { groups: nsf.predicates.groups }));
    }
    let predicates = PredicatesConfig { groups: file.predicates.groups, namespaces };
    LoadedConfig {
        deduplication,
        conflict,
        predicates,
        reconciliation: ReconciliationConfig {
            audit_interval_hours: file.reconciliation.audit_interval_hours,
            audit_fix_limit: match file.reconciliation.audit_fix_limit {
                Some(l) => l,
                None => DEFAULT_AUDIT_FIX_LIMIT,
            },
        },
        reader_pool_size: match file.reader_pool_size {
            Some(s) => s,
            None => DEFAULT_READER_POOL_SIZE,
        },
    }
}

/// The overrides of the first namespace entry named `name`.
pub open spec fn namespace_overrides(
    ns: Seq<(String, NamespacePredicatesConfig)>,
    name: Seq<char>,
) -> Option<Map<Seq<char>, Seq<Seq<char>>>>
    decreases ns.len(),
{
    if ns.len() == 0 {
        None
    } else if ns[0].0@ == name {
        Some(ns[0].1.groups@)
    } else {
        namespace_overrides(ns.drop_first(), name)
    }
}

/// Global groups `g` with namespace overrides `o` applied: an override with
/// members replaces (or adds) its group, an override with no members removes
/// the global group of that name.
pub open spec fn merge_groups(
    g: Map<Seq<char>, Seq<Seq<char>>>,
    o: Map<Seq<char>, Seq<Seq<char>>>,
) -> Map<Seq<char>, Seq<Seq<char>>> {
    Map::new(
        |k: Seq<char>|
            (g.dom().contains(k) && !o.dom().contains(k)) || (o.dom().contains(k) && o[k].len()
                > 0),
        |k: Seq<char>|
            if o.dom().contains(k) {
                o[k]
            } else {
                g[k]
            },
    )
}

/// Applies the overrides `p` one after another to `g`.
pub open spec fn apply_overrides(
    g: Map<Seq<char>, Seq<Seq<char>>>,
    p: Seq<(Seq<char>, Seq<Seq<char>>)>,
) -> Map<Seq<char>, Seq<Seq<char>>>
    decreases p.len(),
{
    if p.len() == 0 {
        g
    } else {
        let prev = apply_overrides(g, p.drop_last());
        let (k, v) = p.last();
        if v.len() == 0 {
            prev.remove(k)
        } else {
            prev.insert(k, v)
        }
    }
}

proof fn lemma_pairs_to_map_push(p: Seq<(Seq<char>, Seq<Seq<char>>)>)
    requires
        p.len() > 0,
        distinct_keys(p),
    ensures
        pairs_to_map(p) == pairs_to_map(p.drop_last()).insert(p.last().0, p.last().1),
        distinct_keys(p.drop_last()),
{
    let q = p.drop_last();
    let n = p.len() - 1;
    assert(distinct_keys(q)) by {
        assert forall|i: int, j: int| 0 <= i < q.len() && 0 <= j < q.len() && i != j implies q[i].0
            != q[j].0 by {
            assert(q[i] == p[i]);
            assert(q[j] == p[j]);
        }
    }
    let lhs = pairs_to_map(p);
    let rhs = pairs_to_map(q).insert(p.last().0, p.last().1);
    assert forall|k: Seq<char>| #[trigger] lhs.dom().contains(k) == rhs.dom().contains(k) by {
        if lhs.dom().contains(k) && k != p.last().0 {
            let i = choose|i: int| 0 <= i < p.len() && p[i].0 == k;
            assert(i != n);
            assert(q[i].0 == k);
        }
        if rhs.dom().contains(k) {
            if k == p.last().0 {
                assert(p[n].0 == k);
            } else {
                let i = choose|i: int| 0 <= i < q.len() && q[i].0 == k;
                assert(p[i].0 == k);
            }
        }
    }
    assert forall|k: Seq<char>| #[trigger] lhs.dom().contains(k) implies lhs[k] == rhs[k] by {
        let i = choose|i: int| 0 <= i < p.len() && p[i].0 == k;
        lemma_pairs_to_map_index(p, i);
        if i < n {
            lemma_pairs_to_map_index(q, i);
            assert(p[i].0 != p[n].0);
        }
    }
    assert(lhs =~= rhs);
}

/// Applying overrides one by one is `merge_groups` with their map, when the
/// override names are distinct.
pub proof fn lemma_apply_overrides_is_merge(
    g: Map<Seq<char>, Seq<Seq<char>>>,
    p: Seq<(Seq<char>, Seq<Seq<char>>)>,
)
    requires
        distinct_keys(p),
    ensures
        apply_overrides(g, p) == merge_groups(g, pairs_to_map(p)),
    decreases p.len(),
{
    if p.len() == 0 {
        assert(pairs_to_map(p) =~= Map::<Seq<char>, Seq<Seq<char>>>::empty());
        assert(merge_groups(g, pairs_to_map(p)) =~= g);
    } else {
        lemma_pairs_to_map_push(p);
        lemma_apply_overrides_is_merge(g, p.drop_last());
        let (k, v) = p.last();
        let m = pairs_to_map(p.drop_last());
        if v.len() == 0 {
            assert(merge_groups(g, m).remove(k) =~= merge_groups(g, m.insert(k, v)));
        } else {
            assert(merge_groups(g, m).insert(k, v) =~= merge_groups(g, m.insert(k, v)));
        }
    }
}

/// Finds the first namespace entry named `name`.
fn find_namespace(ns: &Vec<(String, NamespacePredicatesConfig)>, name: &str) -> (r: Option<usize>)
    ensures
        match r {
            Some(i) => i < ns@.len() && namespace_overrides(ns@, name@) == Some(ns@[i as int].1.groups@),
            None => namespace_overrides(ns@, name@) is None,
        },
{
    let mut i: usize = 0;
    assert(ns@.skip(0) =~= ns@);
    while i < ns.len()
        invariant
            i <= ns.len(),
            namespace_overrides(ns@, name@) == namespace_overrides(ns@.skip(i as int), name@),
        decreases ns.len() - i,
    {
        assert(ns@.skip(i as int)[0] == ns@[i as int]);
        if str_eq(ns[i].0.as_str(), name) {
            return Some(i);
        }
        assert(ns@.skip(i as int).drop_first() =~= ns@.skip(i + 1));
        i = i + 1;
    }
    None
}

/// The predicate groups in force in `namespace`: the global groups with that
/// namespace's overrides applied.
pub fn resolve_namespace_groups(predicates: &PredicatesConfig, namespace: &str) -> (r:
    PredicateGroups)
    ensures
        r@ == match namespace_overrides(predicates.namespaces@, namespace@) {
            Some(o) => merge_groups(predicates.groups@, o),
            None => predicates.groups@,
        },
{
    let mut merged = predicates.groups.copy();
    match find_namespace(&predicates.namespaces, namespace) {
        None => merged,
        Some(ni) => {
            let pairs = predicates.namespaces[ni].1.groups.as_pairs();
            let ghost g = predicates.groups@;
            let ghost p = pairs@.map_values(|e: (String, Vec<String>)| group_view(e));
            let mut i: usize = 0;
            while i < pairs.len()
                invariant
                    i <= pairs.len(),
                    p == pairs@.map_values(|e: (String, Vec<String>)| group_view(e)),
                    merged@ == apply_overrides(g, p.take(i as int)),
                decreases pairs.len() - i,
            {
                assert(p.take(i + 1).drop_last() =~= p.take(i as int));
                assert(p.take(i + 1).last() == group_view(pairs@[i as int]));
                let key = &pairs[i].0;
                let members = &pairs[i].1;
                if members.len() == 0 {
                    merged.remove(key.as_str());
                } else {
                    let m = clone_strings(members);
                    merged.insert(key.clone(), m);
                }
                i = i + 1;
            }
            proof {
                assert(p.take(pairs.len() as int) =~= p);
                lemma_apply_overrides_is_merge(g, p);
            }
            merged
        },
    }
}

} // verus!
