//! Buffers the ids of recalled memories so that their access counters can be
//! updated in batches.
use vstd::prelude::*;
use crate::text::str_eq;

verus! {

/// Buffer length at which `drain_if_full` hands the buffer out.
pub const DEFAULT_FLUSH_THRESHOLD: usize = 50;

/// The distinct elements of `s`, each at its first occurrence, in order.
pub open spec fn dedup_first<T>(s: Seq<T>) -> Seq<T>
    decreases s.len(),
{
    if s.len() == 0 {
        Seq::empty()
    } else {
        let d = dedup_first(s.drop_last());
        if d.contains(s.last()) {
            d
        } else {
            d.push(s.last())
        }
    }
}

/// `dedup_first` keeps exactly the elements of `s`, each once.
pub proof fn lemma_dedup_first<T>(s: Seq<T>)
    ensures
        forall|x: T| #[trigger] dedup_first(s).contains(x) <==> s.contains(x),
        dedup_first(s).no_duplicates(),
    decreases s.len(),
{
    if s.len() > 0 {
        let p = s.drop_last();
        lemma_dedup_first(p);
        let d = dedup_first(p);
        assert forall|x: T| #[trigger] dedup_first(s).contains(x) <==> s.contains(x) by {
            if p.contains(x) {
                let k = choose|k: int| 0 <= k < p.len() && p[k] == x;
                assert(s[k] == x);
            }
            if x == s.last() {
                assert(s[s.len() - 1] == x);
            }
            if s.contains(x) {
                let k = choose|k: int| 0 <= k < s.len() && s[k] == x;
                if k < s.len() - 1 {
                    assert(p[k] == x);
                }
            }
            if !d.contains(s.last()) {
                let e = d.push(s.last());
                if e.contains(x) {
                    let k = choose|k: int| 0 <= k < e.len() && e[k] == x;
                    if k < d.len() {
                        assert(d[k] == x);
                    }
                }
                if d.contains(x) {
                    let k = choose|k: int| 0 <= k < d.len() && d[k] == x;
                    assert(e[k] == x);
                }
                if x == s.last() {
                    assert(e[d.len() as int] == x);
                }
            }
        }
    }
}

/// Character views of a list of strings.
pub open spec fn strings_view(s: Seq<String>) -> Seq<Seq<char>> {
    s.map_values(|x: String| x@)
}

/// Collects accessed memory ids until they are flushed.
pub struct AccessTracker {
    buffer: Vec<String>,
    flush_threshold: usize,
}

/// Empties `buf` and returns its distinct ids in first-occurrence order.
fn dedup_drain(buf: &mut Vec<String>) -> (r: Vec<String>)
    ensures
        strings_view(r@) == dedup_first(strings_view(old(buf)@)),
        final(buf)@.len() == 0,
{
    let ghost b = strings_view(buf@);
    let mut out: Vec<String> = Vec::new();
    let mut i: usize = 0;
    while i < buf.len()
        invariant
            i <= buf.len(),
            b == strings_view(buf@),
            strings_view(out@) == dedup_first(b.take(i as int)),
        decreases buf.len() - i,
    {
        assert(b.take(i + 1).drop_last() =~= b.take(i as int));
        assert(b.take(i + 1).last() == buf@[i as int]@);
        let mut seen = false;
        let mut k: usize = 0;
        while k < out.len()
            invariant
                k <= out.len(),
                i < buf.len(),
                seen == (exists|j: int| 0 <= j < k && out@[j]@ == buf@[i as int]@),
            decreases out.len() - k,
        {
            if str_eq(out[k].as_str(), buf[i].as_str()) {
                seen = true;
            }
            k = k + 1;
        }
        let ghost d = strings_view(out@);
        assert(seen == d.contains(buf@[i as int]@)) by {
            if seen {
                let j = choose|j: int| 0 <= j < out@.len() && out@[j]@ == buf@[i as int]@;
                assert(d[j] == buf@[i as int]@);
            }
            if d.contains(buf@[i as int]@) {
                let j = choose|j: int| 0 <= j < d.len() && d[j] == buf@[i as int]@;
                assert(out@[j]@ == buf@[i as int]@);
            }
        }
        if !seen {
            out.push(buf[i].clone());
            assert(strings_view(out@) =~= d.push(buf@[i as int]@));
        }
        i = i + 1;
    }
    assert(b.take(buf.len() as int) =~= b);
    buf.clear();
    out
}

impl AccessTracker {
    /// The buffered ids, oldest first.
    pub closed spec fn buffered(&self) -> Seq<Seq<char>> {
        strings_view(self.buffer@)
    }

    /// Buffer length at which `drain_if_full` flushes.
    pub closed spec fn threshold(&self) -> usize {
        self.flush_threshold
    }

    /// An empty tracker that flushes at 50 ids.
    pub fn new() -> (t: Self)
        ensures
            t.buffered().len() == 0,
            t.threshold() == DEFAULT_FLUSH_THRESHOLD,
    {
        AccessTracker { buffer: Vec::new(), flush_threshold: DEFAULT_FLUSH_THRESHOLD }
    }

    /// An empty tracker that flushes at `flush_threshold` ids.
    pub fn with_threshold(flush_threshold: usize) -> (t: Self)
        ensures
            t.buffered().len() == 0,
            t.threshold() == flush_threshold,
    {
        AccessTracker { buffer: Vec::new(), flush_threshold }
    }

    /// Appends `ids` to the buffer.
    pub fn record(&mut self, ids: &[String])
        ensures
            final(self).buffered() == old(self).buffered() + strings_view(ids@),
            final(self).threshold() == old(self).threshold(),
    {
        let mut i: usize = 0;
        while i < ids.len()
            invariant
                i <= ids.len(),
                self.flush_threshold == old(self).flush_threshold,
                self.buffered() == old(self).buffered() + strings_view(ids@).take(i as int),
            decreases ids.len() - i,
        {
            let ghost before = self.buffer@;
            let c = ids[i].clone();
            self.buffer.push(c);
            assert(self.buffer@ == before.push(c));
            assert(strings_view(self.buffer@) =~= strings_view(before).push(ids@[i as int]@));
            assert(strings_view(ids@).take(i + 1) =~= strings_view(ids@).take(i as int).push(ids@[i as int]@));
            i = i + 1;
            assert(self.buffered() =~= old(self).buffered() + strings_view(ids@).take(i as int));
        }
        assert(strings_view(ids@).take(ids.len() as int) =~= strings_view(ids@));
    }

    /// Hands out the distinct buffered ids and empties the buffer, if the
    /// buffer holds at least the threshold number of ids; otherwise leaves it.
    pub fn drain_if_full(&mut self) -> (r: Option<Vec<String>>)
        ensures
            final(self).threshold() == old(self).threshold(),
            old(self).buffered().len() < old(self).threshold() ==> r is None && final(self).buffered()
                == old(self).buffered(),
            old(self).buffered().len() >= old(self).threshold() ==> r is Some && strings_view(
                r->0@,
            ) == dedup_first(old(self).buffered()) && final(self).buffered().len() == 0,
    {
        if self.buffer.len() < self.flush_threshold {
            return None;
        }
        Some(dedup_drain(&mut self.buffer))
    }

    /// Hands out the distinct buffered ids, in first-occurrence order, and
    /// empties the buffer.
    pub fn drain(&mut self) -> (r: Vec<String>)
        ensures
            strings_view(r@) == dedup_first(old(self).buffered()),
            final(self).buffered().len() == 0,
            final(self).threshold() == old(self).threshold(),
    {
        dedup_drain(&mut self.buffer)
    }
}

} // verus!
