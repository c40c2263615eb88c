//! Small closed vocabularies: memory types, journal operation kinds,
//! embedding model tiers and database locations, with their textual forms.
use vstd::prelude::*;
use crate::text::{lowercase_of, str_eq, to_lowercase};

verus! {

/// The three kinds of memory the store keeps.
#[derive(Clone, Copy, Debug, PartialEq, Eq, Hash, Structural)]
pub enum MemoryType {
    Episodic,
    Semantic,
    Procedural,
}

/// Canonical lower-case name of a memory type.
pub open spec fn memory_type_name(t: MemoryType) -> Seq<char> {
    match t {
        MemoryType::Episodic => "episodic"@,
        MemoryType::Semantic => "semantic"@,
        MemoryType::Procedural => "procedural"@,
    }
}

/// The memory type named by `s`, compared case-insensitively.
pub open spec fn memory_type_from(s: Seq<char>) -> Option<MemoryType> {
    let l = lowercase_of(s);
    if l == "episodic"@ {
        Some(MemoryType::Episodic)
    } else if l == "semantic"@ {
        Some(MemoryType::Semantic)
    } else if l == "procedural"@ {
        Some(MemoryType::Procedural)
    } else {
        None
    }
}

impl MemoryType {
    pub fn as_str(&self) -> (s: &'static str)
        ensures
            s@ == memory_type_name(*self),
    {
        match self {
            MemoryType::Episodic => "episodic",
            MemoryType::Semantic => "semantic",
            MemoryType::Procedural => "procedural",
        }
    }

    /// Parses a memory type name, ignoring case. The error reads
    /// `unknown memory type: <s>`.
    pub fn parse(s: &str) -> (r: Result<MemoryType, String>)
        ensures
            match memory_type_from(s@) {
                Some(t) => r == Ok::<MemoryType, String>(t),
                None => r is Err && r->Err_0@ == "unknown memory type: "@ + s@,
            },
    {
        let l = to_lowercase(s);
        if str_eq(l.as_str(), "episodic") {
            Ok(MemoryType::Episodic)
        } else if str_eq(l.as_str(), "semantic") {
            Ok(MemoryType::Semantic)
        } else if str_eq(l.as_str(), "procedural") {
            Ok(MemoryType::Procedural)
        } else {
            let mut msg = String::from_str("unknown memory type: ");
            msg.append(s);
            Err(msg)
        }
    }
}

impl std::str::FromStr for MemoryType {
    type Err = String;

    fn from_str(s: &str) -> (r: Result<MemoryType, String>)
        ensures
            match memory_type_from(s@) {
                Some(t) => r == Ok::<MemoryType, String>(t),
                None => r is Err && r->Err_0@ == "unknown memory type: "@ + s@,
            },
    {
        MemoryType::parse(s)
    }
}

/// Parses a list of memory type names; the first name that is not a type
/// gives the error.
pub fn parse_memory_types(names: &Vec<String>) -> (r: Result<Vec<MemoryType>, String>)
    ensures
        match r {
            Ok(ts) => ts@.len() == names@.len() && forall|i: int| 0 <= i < names@.len() ==> memory_type_from(
                #[trigger] names@[i]@,
            ) == Some(ts@[i]),
            Err(e) => exists|i: int|
                0 <= i < names@.len() && memory_type_from(#[trigger] names@[i]@) is None && (forall|j: int|
                    0 <= j < i ==> memory_type_from(#[trigger] names@[j]@) is Some) && e@ == "unknown memory type: "@
                    + names@[i]@,
        },
{
    let mut ts: Vec<MemoryType> = Vec::new();
    let mut i: usize = 0;
    while i < names.len()
        invariant
            i <= names@.len(),
            ts@.len() == i,
            forall|j: int| 0 <= j < i ==> memory_type_from(#[trigger] names@[j]@) == Some(ts@[j]),
        decreases names.len() - i,
    {
        match MemoryType::parse(names[i].as_str()) {
            Ok(t) => {
                ts.push(t);
            },
            Err(e) => {
                return Err(e);
            },
        }
        i = i + 1;
    }
    Ok(ts)
}

/// Kind of a dual-write operation recorded in the journal.
#[derive(Clone, Copy, Debug, PartialEq, Eq, Structural)]
pub enum PendingOpKind {
    Store,
    Forget,
    Supersede,
}

/// Name under which a journal kind is stored.
pub open spec fn pending_op_kind_name(k: PendingOpKind) -> Seq<char> {
    match k {
        PendingOpKind::Store => "store"@,
        PendingOpKind::Forget => "forget"@,
        PendingOpKind::Supersede => "supersede"@,
    }
}

/// The journal kind stored under the exact name `s`.
pub open spec fn pending_op_kind_from(s: Seq<char>) -> Option<PendingOpKind> {
    if s == "store"@ {
        Some(PendingOpKind::Store)
    } else if s == "forget"@ {
        Some(PendingOpKind::Forget)
    } else if s == "supersede"@ {
        Some(PendingOpKind::Supersede)
    } else {
        None
    }
}

impl PendingOpKind {
    pub fn as_str(self) -> (s: &'static str)
        ensures
            s@ == pending_op_kind_name(self),
    {
        match self {
            PendingOpKind::Store => "store",
            PendingOpKind::Forget => "forget",
            PendingOpKind::Supersede => "supersede",
        }
    }

    /// The kind stored under `s` (case-sensitive), if any.
    pub fn parse(s: &str) -> (r: Option<PendingOpKind>)
        ensures
            r == pending_op_kind_from(s@),
    {
        if str_eq(s, "store") {
            Some(PendingOpKind::Store)
        } else if str_eq(s, "forget") {
            Some(PendingOpKind::Forget)
        } else if str_eq(s, "supersede") {
            Some(PendingOpKind::Supersede)
        } else {
            None
        }
    }
}

/// Embedding model sizes.
#[derive(Clone, Copy, Debug, PartialEq, Eq, Structural)]
pub enum ModelTier {
    Small,
    Mid,
    Best,
}

/// Vector dimension of each tier's model.
pub open spec fn tier_dimension(t: ModelTier) -> usize {
    match t {
        ModelTier::Small => 384,
        ModelTier::Mid => 384,
        ModelTier::Best => 768,
    }
}

/// Name of each tier's model.
pub open spec fn tier_model_name(t: ModelTier) -> Seq<char> {
    match t {
        ModelTier::Small => "all-MiniLM-L6-v2"@,
        ModelTier::Mid => "bge-small-en-v1.5"@,
        ModelTier::Best => "bge-base-en-v1.5"@,
    }
}

/// The tier named by `s`, compared case-insensitively.
pub open spec fn tier_from(s: Seq<char>) -> Option<ModelTier> {
    let l = lowercase_of(s);
    if l == "small"@ {
        Some(ModelTier::Small)
    } else if l == "mid"@ {
        Some(ModelTier::Mid)
    } else if l == "best"@ {
        Some(ModelTier::Best)
    } else {
        None
    }
}

impl ModelTier {
    pub fn dimension(self) -> (d: usize)
        ensures
            d == tier_dimension(self),
    {
        match self {
            ModelTier::Small | ModelTier::Mid => 384,
            ModelTier::Best => 768,
        }
    }

    pub fn model_name(self) -> (s: &'static str)
        ensures
            s@ == tier_model_name(self),
    {
        match self {
            ModelTier::Small => "all-MiniLM-L6-v2",
            ModelTier::Mid => "bge-small-en-v1.5",
            ModelTier::Best => "bge-base-en-v1.5",
        }
    }

    /// Parses a tier name, ignoring case. The error reads
    /// `unknown model tier: <s> (expected: small, mid, best)`.
    pub fn parse(s: &str) -> (r: Result<ModelTier, String>)
        ensures
            match tier_from(s@) {
                Some(t) => r == Ok::<ModelTier, String>(t),
                None => r is Err && r->Err_0@ == "unknown model tier: "@ + s@
                    + " (expected: small, mid, best)"@,
            },
    {
        let l = to_lowercase(s);
        if str_eq(l.as_str(), "small") {
            Ok(ModelTier::Small)
        } else if str_eq(l.as_str(), "mid") {
            Ok(ModelTier::Mid)
        } else if str_eq(l.as_str(), "best") {
            Ok(ModelTier::Best)
        } else {
            let mut msg = String::from_str("unknown model tier: ");
            msg.append(s);
            msg.append(" (expected: small, mid, best)");
            Err(msg)
        }
    }
}

impl Default for ModelTier {
    fn default() -> (t: ModelTier)
        ensures
            t == ModelTier::Best,
    {
        ModelTier::Best
    }
}

impl std::str::FromStr for ModelTier {
    type Err = String;

    fn from_str(s: &str) -> (r: Result<ModelTier, String>)
        ensures
            match tier_from(s@) {
                Some(t) => r == Ok::<ModelTier, String>(t),
                None => r is Err && r->Err_0@ == "unknown model tier: "@ + s@
                    + " (expected: small, mid, best)"@,
            },
    {
        ModelTier::parse(s)
    }
}

/// Where the SQLite connections of a store come from.
#[derive(Debug)]
pub enum ConnectionSource {
    /// On-disk database at the given path.
    File(String),
    /// Shared in-memory database addressed by URI.
    SharedMemory { uri: String },
}

impl ConnectionSource {
    pub fn is_memory(&self) -> (b: bool)
        ensures
            b == (self is SharedMemory),
    {
        match self {
            ConnectionSource::File(_) => false,
            ConnectionSource::SharedMemory { .. } => true,
        }
    }
}

/// What startup does about the embedding model recorded in the store.
#[derive(Clone, Copy, Debug, PartialEq, Eq, Structural)]
pub enum ModelCheck {
    /// The store records this model already.
    Matches,
    /// The store records no model yet: record the current one.
    Record,
}

/// Compares the model the store recorded (if any) with the current one: a
/// different model is refused, since vectors of two models do not compare.
pub fn check_embedding_model(stored: Option<&str>, current: &str) -> (r: Result<ModelCheck, String>)
    ensures
        match stored {
            None => r == Ok::<ModelCheck, String>(ModelCheck::Record),
            Some(s) => if s@ == current@ {
                r == Ok::<ModelCheck, String>(ModelCheck::Matches)
            } else {
                r is Err && r->Err_0@ == "embedding model mismatch: stored="@ + s@ + ", current="@ + current@
                    + ". Changing models would corrupt vector similarity. Use the same model or start with a fresh database."@
            },
        },
{
    match stored {
        None => Ok(ModelCheck::Record),
        Some(s) => {
            if str_eq(s, current) {
                Ok(ModelCheck::Matches)
            } else {
                let mut m = String::from_str("embedding model mismatch: stored=");
                m.append(s);
                m.append(", current=");
                m.append(current);
                m.append(". Changing models would corrupt vector similarity. Use the same model or start with a fresh database.");
                proof {
                    reveal_strlit("embedding model mismatch: stored=");
                    reveal_strlit(", current=");
                    reveal_strlit(". Changing models would corrupt vector similarity. Use the same model or start with a fresh database.");
                }
                Err(m)
            }
        },
    }
}

/// Why embedding failed.
#[derive(Debug)]
pub enum EmbedError {
    /// The model could not be loaded; the loader's message.
    Init(String),
    /// A text could not be embedded; the model's message.
    Embed(String),
}

impl EmbedError {
    /// The error as text: `failed to initialize embedding model: <m>` or
    /// `embedding failed: <m>`.
    pub fn message(&self) -> (r: String)
        ensures
            r@ == match self {
                EmbedError::Init(m) => "failed to initialize embedding model: "@ + m@,
                EmbedError::Embed(m) => "embedding failed: "@ + m@,
            },
    {
        match self {
            EmbedError::Init(m) => {
                let mut r = String::from_str("failed to initialize embedding model: ");
                r.append(m.as_str());
                r
            },
            EmbedError::Embed(m) => {
                let mut r = String::from_str("embedding failed: ");
                r.append(m.as_str());
                r
            },
        }
    }
}

} // verus!
