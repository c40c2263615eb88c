//! A bounded log of the most recent operations, for diagnostics.
use vstd::prelude::*;
use vstd::utf8::{encode_utf8, is_char_boundary};

verus! {

pub const OPS_BUFFER_CAPACITY: usize = 100;
/// Details longer than this many bytes are cut at the last character
/// boundary within it.
pub const MAX_DETAIL_LEN: usize = 120;

/// One logged operation.
pub struct OpRecord {
    pub kind: String,
    pub detail: String,
    pub duration_ms: u64,
    pub outcome: String,
    /// Microseconds since the Unix epoch.
    pub timestamp: i64,
}

/// The largest character boundary of `b` at or below `i`.
pub open spec fn floor_char_boundary(b: Seq<u8>, i: int) -> int
    decreases i,
{
    if i <= 0 {
        0
    } else if is_char_boundary(b, i) {
        i
    } else {
        floor_char_boundary(b, i - 1)
    }
}

/// The bytes of a detail as logged: unchanged up to 120 bytes, else cut at
/// the last character boundary within 120 bytes.
pub open spec fn clipped_detail(d: Seq<char>) -> Seq<u8> {
    let b = encode_utf8(d);
    if b.len() > MAX_DETAIL_LEN {
        b.subrange(0, floor_char_boundary(b, MAX_DETAIL_LEN as int))
    } else {
        b
    }
}

/// The operations, oldest first, at most 100 of them.
pub struct OpsBuffer {
    ops: Vec<OpRecord>,
}

fn clip(detail: &str) -> (r: &str)
    ensures
        encode_utf8(r@) == clipped_detail(detail@),
{
    if detail.as_bytes().len() > MAX_DETAIL_LEN {
        let ghost b = encode_utf8(detail@);
        let mut i: usize = MAX_DETAIL_LEN;
        while i > 0 && !detail.is_char_boundary(i)
            invariant
                i <= MAX_DETAIL_LEN,
                b == encode_utf8(detail@),
                b.len() > MAX_DETAIL_LEN,
                floor_char_boundary(b, MAX_DETAIL_LEN as int) == floor_char_boundary(b, i as int),
            decreases i,
        {
            i = i - 1;
        }
        proof {
            vstd::utf8::encode_utf8_valid_utf8(detail@);
        }
        assert(is_char_boundary(b, i as int)) by {
            if i == 0 {
                assert(is_char_boundary(b, 0));
            }
        }
        assert(floor_char_boundary(b, i as int) == i as int);
        let (head, _) = detail.split_at(i);
        head
    } else {
        detail
    }
}

impl OpsBuffer {
    /// The logged operations, oldest first.
    pub closed spec fn records(&self) -> Seq<OpRecord> {
        self.ops@
    }

    #[verifier::type_invariant]
    closed spec fn bounded(&self) -> bool {
        self.ops@.len() <= OPS_BUFFER_CAPACITY
    }

    /// An empty log.
    pub fn new() -> (b: Self)
        ensures
            b.records().len() == 0,
    {
        OpsBuffer { ops: Vec::new() }
    }

    /// Appends an operation, dropping the oldest one when 100 are kept.
    pub fn record(&mut self, kind: &str, detail: &str, duration_ms: u64, outcome: &str, timestamp: i64)
        ensures
            final(self).records() == (if old(self).records().len() == OPS_BUFFER_CAPACITY {
                old(self).records().drop_first()
            } else {
                old(self).records()
            }).push(final(self).records().last()),
            final(self).records().last().kind@ == kind@,
            encode_utf8(final(self).records().last().detail@) == clipped_detail(detail@),
            final(self).records().last().duration_ms == duration_ms,
            final(self).records().last().outcome@ == outcome@,
            final(self).records().last().timestamp == timestamp,
            final(self).records().len() <= OPS_BUFFER_CAPACITY,
    {
        proof {
            use_type_invariant(&*self);
        }
        let d = clip(detail);
        let rec = OpRecord {
            kind: kind.to_owned(),
            detail: d.to_owned(),
            duration_ms,
            outcome: outcome.to_owned(),
            timestamp,
        };
        let mut ops: Vec<OpRecord> = Vec::new();
        std::mem::swap(&mut ops, &mut self.ops);
        let ghost start = ops@;
        if ops.len() == OPS_BUFFER_CAPACITY {
            ops.remove(0);
            assert(ops@ =~= start.drop_first());
        }
        ops.push(rec);
        self.ops = ops;
    }

    /// The `n` most recent operations, newest first.
    pub fn recent(&self, n: usize) -> (r: Vec<&OpRecord>)
        ensures
            r@.len() == if n < self.records().len() { n as int } else { self.records().len() as int },
            forall|i: int| 0 <= i < r@.len() ==> *#[trigger] r@[i] == self.records()[self.records().len() - 1 - i],
    {
        let mut out: Vec<&OpRecord> = Vec::new();
        let len = self.ops.len();
        let mut i: usize = 0;
        while i < n && i < len
            invariant
                i <= len,
                i <= n,
                len == self.ops@.len(),
                out@.len() == i,
                forall|k: int| 0 <= k < i ==> *#[trigger] out@[k] == self.ops@[len - 1 - k],
            decreases len - i,
        {
            out.push(&self.ops[len - 1 - i]);
            i = i + 1;
        }
        out
    }
}

} // verus!
