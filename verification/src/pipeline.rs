//! The decisions of the store pipeline: memory type detection, request
//! validation, the searchable text, deduplication, conflict resolution and
//! supersede checks.
use vstd::prelude::*;
use crate::config::DedupConfig;
use crate::format::{decimal, decimal_string};
use crate::ids::{parse_uuid, uuid_of};
use crate::kinds::{MemoryType, memory_type_name};
use crate::access_tracker::strings_view;
use crate::groups::clone_strings;
use crate::memory::{Memory, clone_opt, clone_opt_json, opt_view};
use crate::similarity::{F64_ONE, f32_ge, f32_bits_ge, f64_gt, f64_bits_gt, f64_lt, f64_bits_lt};
use crate::predicate::{PredicateNormalizer, normalized_predicate};
use crate::text::{str_eq, trim_lowercase, trimmed_lowercase};
use vstd::utf8::encode_utf8;

verus! {

pub const MAX_CONTENT_LENGTH: usize = 4096;
pub const MAX_SUBJECT_LENGTH: usize = 512;
pub const MAX_PREDICATE_LENGTH: usize = 256;
pub const MAX_OBJECT_LENGTH: usize = 4096;
pub const MAX_ENTITIES_PER_REQUEST: usize = 50;

/// Errors of the store pipeline that the library decides.
#[derive(Debug)]
pub enum CoreError {
    /// The request is malformed, or refers to something that is not there.
    Validation(String),
    /// An existing memory is too similar; `similarity` holds `f32` bits.
    Duplicate { existing_id: String, similarity: u32 },
    /// The object is neither clearly the same nor clearly different; `ratio`
    /// holds `f32` bits.
    ConflictAmbiguous { existing_id: String, ratio: u32 },
    /// More than one live fact has this subject and predicate.
    MultiMatchConflict { existing_ids: Vec<String> },
}

/// The text recall reranks a stored memory by: its triple joined by spaces
/// when it is semantic, else its content.
pub open spec fn memory_text(m: &Memory) -> Seq<char> {
    if m.memory_type == MemoryType::Semantic {
        opt_or_empty(opt_view(m.subject)) + " "@ + opt_or_empty(opt_view(m.predicate)) + " "@
            + opt_or_empty(opt_view(m.object))
    } else {
        opt_or_empty(opt_view(m.content))
    }
}

pub fn memory_search_text(m: &Memory) -> (s: String)
    ensures
        s@ == memory_text(m),
{
    let mut out = String::new();
    if m.memory_type == MemoryType::Semantic {
        append_opt(&mut out, &m.subject);
        out.append(" ");
        append_opt(&mut out, &m.predicate);
        out.append(" ");
        append_opt(&mut out, &m.object);
    } else {
        append_opt(&mut out, &m.content);
    }
    out
}

/// The check a store makes against what is already stored before it
/// writes.
#[derive(Clone, Copy, Debug, PartialEq, Eq, Structural)]
pub enum PreWriteCheck {
    /// A supersede names its target: neither deduplication nor conflict
    /// detection runs.
    Skip,
    /// Episodic and procedural memories: reject near-duplicate embeddings.
    Dedup,
    /// Semantic memories: compare with the live facts of the same subject
    /// and predicate.
    Conflict,
}

/// Which check a store of type `t` makes: none when it supersedes a named
/// memory, conflict detection for a fact, deduplication otherwise.
pub fn pre_write_check(t: MemoryType, supersedes: bool) -> (c: PreWriteCheck)
    ensures
        c == (if supersedes {
            PreWriteCheck::Skip
        } else if t == MemoryType::Semantic {
            PreWriteCheck::Conflict
        } else {
            PreWriteCheck::Dedup
        }),
{
    if supersedes {
        PreWriteCheck::Skip
    } else if t == MemoryType::Semantic {
        PreWriteCheck::Conflict
    } else {
        PreWriteCheck::Dedup
    }
}

/// A request to store a memory.
pub struct StoreRequest {
    pub content: Option<String>,
    pub memory_type: Option<MemoryType>,
    pub subject: Option<String>,
    pub predicate: Option<String>,
    pub object: Option<String>,
    /// Bits of the requested `f64` confidence.
    pub confidence: Option<u64>,
    pub source: Option<String>,
    /// Free-form JSON to keep with the memory; carried, never read.
    pub context: Option<serde_json::Value>,
    pub entities: Vec<String>,
    pub namespace: Option<String>,
    pub supersedes: Option<String>,
}

/// The memory type a request stores: the one it names, else semantic when it
/// has a whole triple, else episodic.
pub open spec fn detected_type(req: &StoreRequest) -> MemoryType {
    match req.memory_type {
        Some(t) => t,
        None => if req.subject is Some && req.predicate is Some && req.object is Some {
            MemoryType::Semantic
        } else {
            MemoryType::Episodic
        },
    }
}

pub fn detect_memory_type(req: &StoreRequest) -> (t: MemoryType)
    ensures
        t == detected_type(req),
{
    match req.memory_type {
        Some(t) => t,
        None => if req.subject.is_some() && req.predicate.is_some() && req.object.is_some() {
            MemoryType::Semantic
        } else {
            MemoryType::Episodic
        },
    }
}

/// Byte length of the UTF-8 encoding of `s`.
pub open spec fn byte_len(s: Seq<char>) -> nat {
    encode_utf8(s).len()
}

/// `o` is present and not empty.
pub open spec fn non_empty(o: Option<Seq<char>>) -> bool {
    o is Some && o->0.len() > 0
}

/// `o` is present and longer than `limit` bytes.
pub open spec fn too_long(o: Option<Seq<char>>, limit: nat) -> bool {
    o is Some && byte_len(o->0) > limit
}

/// The message of the first rule that the request breaks, for a memory of
/// type `t`, or `None` when it breaks none.
pub open spec fn validation_message(req: &StoreRequest, t: MemoryType) -> Option<Seq<char>> {
    let content = opt_view(req.content);
    let subject = opt_view(req.subject);
    let predicate = opt_view(req.predicate);
    let object = opt_view(req.object);
    if req.entities@.len() > MAX_ENTITIES_PER_REQUEST {
        Some("too many entities: "@ + decimal(req.entities@.len()) + " exceeds limit of 50"@)
    } else if t != MemoryType::Semantic && !non_empty(content) {
        Some(memory_type_name(t) + " memory requires content"@)
    } else if t != MemoryType::Semantic && too_long(content, MAX_CONTENT_LENGTH as nat) {
        Some("content exceeds 4096 byte limit"@)
    } else if t == MemoryType::Semantic && !(non_empty(subject) && non_empty(predicate)
        && non_empty(object)) {
        Some("semantic memory requires non-empty subject, predicate, and object"@)
    } else if t == MemoryType::Semantic && too_long(subject, MAX_SUBJECT_LENGTH as nat) {
        Some("subject exceeds 512 byte limit"@)
    } else if t == MemoryType::Semantic && too_long(predicate, MAX_PREDICATE_LENGTH as nat) {
        Some("predicate exceeds 256 byte limit"@)
    } else if t == MemoryType::Semantic && too_long(object, MAX_OBJECT_LENGTH as nat) {
        Some("object exceeds 4096 byte limit"@)
    } else if req.supersedes is Some && uuid_of(req.supersedes->0@) is None {
        Some("invalid supersedes UUID: "@ + req.supersedes->0@)
    } else {
        None
    }
}

/// The request is rejected with `Validation(m)` exactly when `m` is its
/// validation message.
pub open spec fn validation_result(r: Result<(), CoreError>, m: Option<Seq<char>>) -> bool {
    match m {
        None => r is Ok,
        Some(msg) => r matches Err(CoreError::Validation(e)) && e@ == msg,
    }
}

fn present_non_empty(o: &Option<String>) -> (b: bool)
    ensures
        b == non_empty(opt_view(*o)),
{
    match o {
        Some(s) => !s.as_str().is_empty(),
        None => false,
    }
}

fn longer_than(o: &Option<String>, limit: usize) -> (b: bool)
    ensures
        b == too_long(opt_view(*o), limit as nat),
{
    match o {
        Some(s) => s.as_str().as_bytes().len() > limit,
        None => false,
    }
}

fn message(a: &str) -> (s: String)
    ensures
        s@ == a@,
{
    String::from_str(a)
}

/// What validation accepts. A request is accepted exactly when it names at
/// most 50 entities; an episodic or procedural memory has non-empty content
/// within 4096 bytes; a semantic memory has a non-empty subject, predicate
/// and object within their limits; and a `supersedes` id, if any, is a UUID.
/// Every rejection is a validation error, and an episodic or procedural
/// memory without content is rejected as `<type> memory requires content`.
pub proof fn lemma_validation_rules(req: &StoreRequest, t: MemoryType, r: Result<(), CoreError>)
    requires
        validation_result(r, validation_message(req, t)),
    ensures
        r is Ok <==> {
            &&& req.entities@.len() <= 50
            &&& t != MemoryType::Semantic ==> (req.content is Some && req.content->0@.len() > 0 && !too_long(
                opt_view(req.content),
                4096,
            ))
            &&& t == MemoryType::Semantic ==> (req.subject is Some && req.subject->0@.len() > 0 && req.predicate is Some
                && req.predicate->0@.len() > 0 && req.object is Some && req.object->0@.len() > 0 && !too_long(
                opt_view(req.subject),
                512,
            ) && !too_long(opt_view(req.predicate), 256) && !too_long(opt_view(req.object), 4096))
            &&& req.supersedes is Some ==> uuid_of(req.supersedes->0@) is Some
        },
        r is Err ==> r matches Err(CoreError::Validation(_)),
        (req.entities@.len() <= 50 && t != MemoryType::Semantic && (req.content is None || req.content->0@.len() == 0))
            ==> (r matches Err(CoreError::Validation(m)) && m@ == memory_type_name(t) + " memory requires content"@),
{
}

/// Checks the request against the size and shape rules of its memory type.
pub fn validate(req: &StoreRequest, t: MemoryType) -> (r: Result<(), CoreError>)
    ensures
        validation_result(r, validation_message(req, t)),
{
    if req.entities.len() > MAX_ENTITIES_PER_REQUEST {
        let mut m = message("too many entities: ");
        let n = decimal_string(req.entities.len());
        m.append(n.as_str());
        m.append(" exceeds limit of 50");
        return Err(CoreError::Validation(m));
    }
    if t != MemoryType::Semantic {
        if !present_non_empty(&req.content) {
            let mut m = message(t.as_str());
            m.append(" memory requires content");
            return Err(CoreError::Validation(m));
        }
        if longer_than(&req.content, MAX_CONTENT_LENGTH) {
            return Err(CoreError::Validation(message("content exceeds 4096 byte limit")));
        }
    } else {
        if !(present_non_empty(&req.subject) && present_non_empty(&req.predicate)
            && present_non_empty(&req.object)) {
            return Err(
                CoreError::Validation(
                    message("semantic memory requires non-empty subject, predicate, and object"),
                ),
            );
        }
        if longer_than(&req.subject, MAX_SUBJECT_LENGTH) {
            return Err(CoreError::Validation(message("subject exceeds 512 byte limit")));
        }
        if longer_than(&req.predicate, MAX_PREDICATE_LENGTH) {
            return Err(CoreError::Validation(message("predicate exceeds 256 byte limit")));
        }
        if longer_than(&req.object, MAX_OBJECT_LENGTH) {
            return Err(CoreError::Validation(message("object exceeds 4096 byte limit")));
        }
    }
    match &req.supersedes {
        Some(s) => {
            if parse_uuid(s.as_str()).is_none() {
                let mut m = message("invalid supersedes UUID: ");
                m.append(s.as_str());
                return Err(CoreError::Validation(m));
            }
        },
        None => {},
    }
    Ok(())
}

/// The text that is embedded and indexed for a memory: the triple joined by
/// spaces for a semantic memory, else the content.
pub open spec fn searchable_text(req: &StoreRequest, t: MemoryType) -> Seq<char> {
    if t == MemoryType::Semantic {
        opt_or_empty(opt_view(req.subject)) + " "@ + opt_or_empty(opt_view(req.predicate)) + " "@
            + opt_or_empty(opt_view(req.object))
    } else {
        opt_or_empty(opt_view(req.content))
    }
}

pub open spec fn opt_or_empty(o: Option<Seq<char>>) -> Seq<char> {
    match o {
        Some(s) => s,
        None => Seq::empty(),
    }
}

fn append_opt(out: &mut String, o: &Option<String>)
    ensures
        final(out)@ == old(out)@ + opt_or_empty(opt_view(*o)),
{
    match o {
        Some(s) => out.append(s.as_str()),
        None => {
            assert(old(out)@ + Seq::<char>::empty() =~= old(out)@);
        },
    }
}

pub fn build_searchable_text(req: &StoreRequest, t: MemoryType) -> (s: String)
    ensures
        s@ == searchable_text(req, t),
{
    let mut out = String::new();
    if t == MemoryType::Semantic {
        append_opt(&mut out, &req.subject);
        out.append(" ");
        append_opt(&mut out, &req.predicate);
        out.append(" ");
        append_opt(&mut out, &req.object);
    } else {
        append_opt(&mut out, &req.content);
    }
    out
}

/// Rejects an episodic or procedural memory whose nearest existing memory
/// (its id and `f32` score bits) scores at least the threshold.
pub fn dedup_check(t: MemoryType, nearest: Option<(String, u32)>, config: &DedupConfig) -> (r: Result<
    (),
    CoreError,
>)
    ensures
        match nearest {
            Some((id, score)) if t != MemoryType::Semantic && f32_ge(score, config.threshold) =>
                r matches Err(CoreError::Duplicate { existing_id, similarity }) && existing_id@
                    == id@ && similarity == score,
            _ => r is Ok,
        },
{
    if t == MemoryType::Semantic {
        return Ok(());
    }
    match nearest {
        Some((id, score)) => {
            if f32_bits_ge(score, config.threshold) {
                Err(CoreError::Duplicate { existing_id: id, similarity: score })
            } else {
                Ok(())
            }
        },
        None => Ok(()),
    }
}

/// Checks that a supersede target exists, lives in `namespace` and is still
/// valid.
pub fn check_supersede_target(target: Option<&Memory>, target_id: &str, namespace: &str) -> (r:
    Result<(), CoreError>)
    ensures
        match target {
            None => r matches Err(CoreError::Validation(m)) && m@ == "supersedes target not found: "@
                + target_id@,
            Some(t) => if t.namespace@ != namespace@ {
                r matches Err(CoreError::Validation(m)) && m@ == "supersedes target "@ + target_id@
                    + " is in namespace "@ + t.namespace@ + ", not "@ + namespace@
            } else if t.t_invalid is Some {
                r matches Err(CoreError::Validation(m)) && m@ == "supersedes target "@ + target_id@
                    + " is already invalidated"@
            } else {
                r is Ok
            },
        },
{
    match target {
        None => {
            let mut m = message("supersedes target not found: ");
            m.append(target_id);
            Err(CoreError::Validation(m))
        },
        Some(t) => {
            if !str_eq(t.namespace.as_str(), namespace) {
                let mut m = message("supersedes target ");
                m.append(target_id);
                m.append(" is in namespace ");
                m.append(t.namespace.as_str());
                m.append(", not ");
                m.append(namespace);
                Err(CoreError::Validation(m))
            } else if t.t_invalid.is_some() {
                let mut m = message("supersedes target ");
                m.append(target_id);
                m.append(" is already invalidated");
                Err(CoreError::Validation(m))
            } else {
                Ok(())
            }
        },
    }
}

/// `c.clamp(0.0, 1.0)` on bits: below zero gives 0.0, above one gives 1.0,
/// anything else (NaN and -0.0 included) stays.
pub open spec fn clamp_unit(c: u64) -> u64 {
    if f64_lt(c, 0) {
        0
    } else if f64_gt(c, F64_ONE) {
        F64_ONE
    } else {
        c
    }
}

/// The subject a memory stores: trimmed and lower-cased.
pub open spec fn stored_subject(s: Option<Seq<char>>) -> Option<Seq<char>> {
    match s {
        Some(x) => Some(trimmed_lowercase(x)),
        None => None,
    }
}

/// The memory a store request writes, created at `now` (microseconds): the
/// request's fields, the subject trimmed and lower-cased, the confidence
/// clamped to `[0, 1]` (1.0 when none was given), the names of the resolved
/// entities, never accessed nor validated.
pub fn build_memory(
    id: String,
    namespace: String,
    memory_type: MemoryType,
    req: &StoreRequest,
    entity_names: Vec<String>,
    normalized_predicate: Option<String>,
    now: i64,
) -> (m: Memory)
    ensures
        m.id@ == id@,
        m.namespace@ == namespace@,
        m.memory_type == memory_type,
        opt_view(m.content) == opt_view(req.content),
        opt_view(m.subject) == stored_subject(opt_view(req.subject)),
        opt_view(m.predicate) == opt_view(req.predicate),
        opt_view(m.object) == opt_view(req.object),
        m.confidence == match req.confidence {
            Some(c) => clamp_unit(c),
            None => F64_ONE,
        },
        opt_view(m.source) == opt_view(req.source),
        m.context == req.context,
        strings_view(m.entities@) == strings_view(entity_names@),
        m.created_at == now,
        m.updated_at == now,
        m.t_valid is None,
        m.t_invalid is None,
        m.last_accessed == now,
        m.last_validated is None,
        m.access_count == 0,
        opt_view(m.normalized_predicate) == opt_view(normalized_predicate),
{
    let confidence = match req.confidence {
        Some(c) => if f64_bits_lt(c, 0) {
            0
        } else if f64_bits_gt(c, F64_ONE) {
            F64_ONE
        } else {
            c
        },
        None => F64_ONE,
    };
    let subject = match &req.subject {
        Some(s) => Some(trim_lowercase(s.as_str())),
        None => None,
    };
    Memory {
        id,
        namespace,
        memory_type,
        content: clone_opt(&req.content),
        subject,
        predicate: clone_opt(&req.predicate),
        object: clone_opt(&req.object),
        confidence,
        source: clone_opt(&req.source),
        context: clone_opt_json(&req.context),
        entities: entity_names,
        created_at: now,
        updated_at: now,
        t_valid: None,
        t_invalid: None,
        last_accessed: now,
        last_validated: None,
        access_count: 0,
        normalized_predicate,
    }
}

/// The normalised predicate a stored memory keeps: none for episodic and
/// procedural memories; for semantic ones the normaliser's canonical name of
/// the request's predicate, which must be present.
pub fn normalize_request_predicate(t: MemoryType, req: &StoreRequest, normalizer: &PredicateNormalizer) -> (r: Result<
    Option<String>,
    CoreError,
>)
    ensures
        t != MemoryType::Semantic ==> r matches Ok(None),
        t == MemoryType::Semantic ==> match req.predicate {
            Some(p) => r matches Ok(Some(n)) && n@ == normalized_predicate(normalizer.entries(), p@),
            None => r matches Err(CoreError::Validation(m)) && m@ == "semantic predicate missing"@,
        },
{
    match t {
        MemoryType::Semantic => {},
        _ => return Ok(None),
    }
    match &req.predicate {
        Some(p) => Ok(Some(normalizer.normalize(p.as_str()))),
        None => {
            proof {
                reveal_strlit("semantic predicate missing");
            }
            Err(CoreError::Validation(String::from_str("semantic predicate missing")))
        },
    }
}

} // verus!
