//! Character-level text helpers: conversions between strings and character
//! vectors, Unicode whitespace, and the lower-casing that std performs.
use vstd::prelude::*;

verus! {

broadcast use vstd::string::group_string_axioms;

/// The characters of `s`, in order.
pub fn chars_of(s: &str) -> (v: Vec<char>)
    ensures
        v@ == s@,
{
    let mut v: Vec<char> = Vec::new();
    for c in it: s.chars()
        invariant
            v@ == it.seq().take(it.index() as int),
            it.seq() == s@,
    {
        v.push(c);
    }
    v
}

} // verus!

verus! {

/// A string holding exactly the characters of `v`.
pub fn string_of_chars(v: &Vec<char>) -> (s: String)
    ensures
        s@ == v@,
{
    let mut s = String::new();
    let mut i: usize = 0;
    while i < v.len()
        invariant
            i <= v.len(),
            s@ == v@.take(i as int),
        decreases v.len() - i,
    {
        push_char(&mut s, v[i]);
        i = i + 1;
        assert(s@ == v@.take(i as int));
    }
    assert(v@.take(v.len() as int) == v@);
    s
}

/// `String::push`: appends one character.
#[verifier::external_body]
pub(crate) fn push_char(s: &mut String, c: char)
    ensures
        final(s)@ == old(s)@.push(c),
{
    s.push(c);
}

/// What `str::to_lowercase` returns for a string with characters `s`: the
/// Unicode lower-case mapping of each character, with the context-dependent
/// rule for a final capital sigma. It depends on the characters alone.
pub uninterp spec fn lowercase_of(s: Seq<char>) -> Seq<char>;

/// `str::to_lowercase`.
#[verifier::external_body]
pub(crate) fn to_lowercase(s: &str) -> (r: String)
    ensures
        r@ == lowercase_of(s@),
{
    s.to_lowercase()
}

/// Equality of two strings, character by character.
pub fn str_eq(a: &str, b: &str) -> (r: bool)
    ensures
        r == (a@ == b@),
{
    let x = chars_of(a);
    let y = chars_of(b);
    chars_eq(&x, &y)
}

/// Equality of two character vectors.
pub fn chars_eq(x: &Vec<char>, y: &Vec<char>) -> (r: bool)
    ensures
        r == (x@ == y@),
{
    if x.len() != y.len() {
        return false;
    }
    let mut i: usize = 0;
    while i < x.len()
        invariant
            i <= x.len(),
            x.len() == y.len(),
            forall|k: int| 0 <= k < i ==> x@[k] == y@[k],
        decreases x.len() - i,
    {
        if x[i] != y[i] {
            return false;
        }
        i = i + 1;
    }
    assert(x@ =~= y@);
    true
}

/// Unicode `White_Space` property, the set that `char::is_whitespace`,
/// `str::trim` and `str::split_whitespace` use.
pub open spec fn is_white_space(c: char) -> bool {
    let n = c as u32;
    (0x9 <= n && n <= 0xd) || n == 0x20 || n == 0x85 || n == 0xa0 || n == 0x1680
        || (0x2000 <= n && n <= 0x200a) || n == 0x2028 || n == 0x2029 || n == 0x202f
        || n == 0x205f || n == 0x3000
}

pub fn white_space(c: char) -> (b: bool)
    ensures
        b == is_white_space(c),
{
    let n = c as u32;
    (0x9 <= n && n <= 0xd) || n == 0x20 || n == 0x85 || n == 0xa0 || n == 0x1680
        || (0x2000 <= n && n <= 0x200a) || n == 0x2028 || n == 0x2029 || n == 0x202f
        || n == 0x205f || n == 0x3000
}

/// `s` without its leading white space.
pub open spec fn trim_start(s: Seq<char>) -> Seq<char>
    decreases s.len(),
{
    if s.len() > 0 && is_white_space(s[0]) {
        trim_start(s.drop_first())
    } else {
        s
    }
}

/// `s` without its trailing white space.
pub open spec fn trim_end(s: Seq<char>) -> Seq<char>
    decreases s.len(),
{
    if s.len() > 0 && is_white_space(s.last()) {
        trim_end(s.drop_last())
    } else {
        s
    }
}

/// What `str::trim` keeps.
pub open spec fn trim(s: Seq<char>) -> Seq<char> {
    trim_end(trim_start(s))
}

proof fn lemma_trim_start_skip(s: Seq<char>, i: int)
    requires
        0 <= i <= s.len(),
        forall|k: int| 0 <= k < i ==> is_white_space(#[trigger] s[k]),
    ensures
        trim_start(s) == trim_start(s.subrange(i, s.len() as int)),
    decreases i,
{
    if i > 0 {
        lemma_trim_start_skip(s.drop_first(), i - 1);
        assert(s.drop_first().subrange(i - 1, s.drop_first().len() as int) =~= s.subrange(
            i,
            s.len() as int,
        ));
    } else {
        assert(s.subrange(0, s.len() as int) =~= s);
    }
}

proof fn lemma_trim_end_skip(s: Seq<char>, j: int)
    requires
        0 <= j <= s.len(),
        forall|k: int| j <= k < s.len() ==> is_white_space(#[trigger] s[k]),
    ensures
        trim_end(s) == trim_end(s.subrange(0, j)),
    decreases s.len() - j,
{
    if j < s.len() {
        lemma_trim_end_skip(s.drop_last(), j);
        assert(s.drop_last().subrange(0, j) =~= s.subrange(0, j));
    } else {
        assert(s.subrange(0, j) =~= s);
    }
}

/// `str::trim` on a character vector.
pub fn trim_chars(v: &Vec<char>) -> (t: Vec<char>)
    ensures
        t@ == trim(v@),
{
    let n = v.len();
    let mut i: usize = 0;
    while i < n && white_space(v[i])
        invariant
            i <= n,
            n == v.len(),
            forall|k: int| 0 <= k < i ==> is_white_space(#[trigger] v@[k]),
        decreases n - i,
    {
        i = i + 1;
    }
    proof {
        lemma_trim_start_skip(v@, i as int);
    }
    let ghost mid = v@.subrange(i as int, n as int);
    assert(trim_start(v@) == mid) by {
        if i < n {
            assert(mid[0] == v@[i as int]);
        } else {
            assert(mid.len() == 0);
        }
    }
    let mut j: usize = n;
    while j > i && white_space(v[j - 1])
        invariant
            i <= j <= n,
            n == v.len(),
            forall|k: int| j <= k < n ==> is_white_space(#[trigger] v@[k]),
        decreases j - i,
    {
        j = j - 1;
    }
    proof {
        lemma_trim_end_skip(mid, j - i);
        assert forall|k: int| (j - i) <= k < mid.len() implies is_white_space(#[trigger] mid[k]) by {
            assert(mid[k] == v@[k + i]);
        }
        let inner = mid.subrange(0, j - i);
        assert(inner =~= v@.subrange(i as int, j as int));
        if j > i {
            assert(inner.last() == v@[j - 1]);
        }
    }
    let mut t: Vec<char> = Vec::new();
    let mut k: usize = i;
    while k < j
        invariant
            i <= k <= j,
            j <= n,
            n == v.len(),
            t@ == v@.subrange(i as int, k as int),
        decreases j - k,
    {
        t.push(v[k]);
        k = k + 1;
        assert(t@ =~= v@.subrange(i as int, k as int));
    }
    t
}

/// Characters that separate words in a normalised name: white space and the
/// separators `-`, `_` and `/`.
pub open spec fn is_gap(c: char) -> bool {
    is_white_space(c) || c == '-' || c == '_' || c == '/'
}

pub fn gap(c: char) -> (b: bool)
    ensures
        b == is_gap(c),
{
    white_space(c) || c == '-' || c == '_' || c == '/'
}

/// Scanning state after reading `s`: the words read so far, joined by single
/// spaces, and whether a gap has been read since the last word character.
pub open spec fn squeeze_state(s: Seq<char>) -> (Seq<char>, bool)
    decreases s.len(),
{
    if s.len() == 0 {
        (Seq::empty(), false)
    } else {
        let (out, pending) = squeeze_state(s.drop_last());
        let c = s.last();
        if is_gap(c) {
            (out, true)
        } else if pending && out.len() > 0 {
            (out.push(' ').push(c), false)
        } else {
            (out.push(c), false)
        }
    }
}

/// The words of `s` (maximal runs of non-gap characters), joined by single
/// spaces: `replace(['-', '_', '/'], " ")`, then `split_whitespace`, then
/// `join(" ")`.
pub open spec fn squeeze(s: Seq<char>) -> Seq<char> {
    squeeze_state(s).0
}

/// The normal form of a free-form name: trimmed, lower-cased, with every run
/// of separators and white space collapsed into one space.
pub open spec fn normalized_text(s: Seq<char>) -> Seq<char> {
    squeeze(lowercase_of(trim(s)))
}

/// `r` is in normal form: each character is a word character or a single
/// space between words, and it neither starts nor ends with a space.
pub open spec fn normal_shape(r: Seq<char>) -> bool {
    &&& forall|i: int| 0 <= i < r.len() ==> !is_gap(#[trigger] r[i]) || r[i] == ' '
    &&& r.len() > 0 ==> r[0] != ' ' && r.last() != ' '
    &&& forall|i: int| 0 <= i < r.len() - 1 ==> !(#[trigger] r[i] == ' ' && r[i + 1] == ' ')
}

proof fn lemma_squeeze_state_shape(s: Seq<char>)
    ensures
        normal_shape(squeeze_state(s).0),
    decreases s.len(),
{
    if s.len() > 0 {
        lemma_squeeze_state_shape(s.drop_last());
        let (out, pending) = squeeze_state(s.drop_last());
        let c = s.last();
        if !is_gap(c) {
            let r = squeeze_state(s).0;
            if pending && out.len() > 0 {
                assert(r == out.push(' ').push(c));
                assert forall|i: int| 0 <= i < r.len() implies !is_gap(#[trigger] r[i]) || r[i] == ' ' by {
                    if i < out.len() {
                        assert(r[i] == out[i]);
                    }
                }
                assert forall|i: int| 0 <= i < r.len() - 1 implies !(#[trigger] r[i] == ' ' && r[i + 1] == ' ') by {
                    if i < out.len() - 1 {
                        assert(r[i] == out[i] && r[i + 1] == out[i + 1]);
                    } else if i == out.len() - 1 {
                        assert(r[i] == out.last());
                    }
                }
                assert(r[0] == out[0]);
            } else {
                assert(r == out.push(c));
                assert forall|i: int| 0 <= i < r.len() implies !is_gap(#[trigger] r[i]) || r[i] == ' ' by {
                    if i < out.len() {
                        assert(r[i] == out[i]);
                    }
                }
                assert forall|i: int| 0 <= i < r.len() - 1 implies !(#[trigger] r[i] == ' ' && r[i + 1] == ' ') by {
                    if i < out.len() - 1 {
                        assert(r[i] == out[i] && r[i + 1] == out[i + 1]);
                    }
                }
                if out.len() > 0 {
                    assert(r[0] == out[0]);
                }
            }
        }
    }
}

proof fn lemma_squeeze_prefix(r: Seq<char>, i: int)
    requires
        normal_shape(r),
        0 <= i <= r.len(),
    ensures
        squeeze_state(r.take(i)) == (if i > 0 && r[i - 1] == ' ' {
            (r.take(i - 1), true)
        } else {
            (r.take(i), false)
        }),
    decreases i,
{
    if i > 0 {
        lemma_squeeze_prefix(r, i - 1);
        assert(r.take(i).drop_last() =~= r.take(i - 1));
        assert(r.take(i).last() == r[i - 1]);
        let c = r[i - 1];
        assert(!is_gap(c) || c == ' ');
        if i >= 2 {
            assert(!(r[i - 2] == ' ' && r[i - 1] == ' '));
        }
        if c != ' ' && i >= 2 && r[i - 2] == ' ' {
            assert(r.take(i) =~= r.take(i - 2).push(' ').push(c));
            assert(r.take(i - 2).len() > 0) by {
                assert(r[0] != ' ');
            }
        } else if c != ' ' {
            assert(r.take(i) =~= r.take(i - 1).push(c));
        }
    }
}

/// A normal form is what it normalises to: `squeeze` and `trim` leave it
/// unchanged, it holds no `-`, `_` or `/`, and its words are separated by
/// single spaces with none at either end. In particular the result of
/// `normalized_text` has this shape.
pub proof fn lemma_normal_form(s: Seq<char>)
    ensures
        normal_shape(squeeze(s)),
        squeeze(squeeze(s)) == squeeze(s),
        trim(squeeze(s)) == squeeze(s),
        normal_shape(normalized_text(s)),
{
    lemma_squeeze_state_shape(s);
    lemma_squeeze_state_shape(lowercase_of(trim(s)));
    let r = squeeze(s);
    lemma_squeeze_prefix(r, r.len() as int);
    assert(r.take(r.len() as int) =~= r);
    if r.len() > 0 {
        assert(!is_white_space(r[0])) by {
            assert(!is_gap(r[0]) || r[0] == ' ');
        }
        assert(!is_white_space(r.last())) by {
            assert(!is_gap(r[r.len() - 1]) || r[r.len() - 1] == ' ');
        }
        assert(trim_start(r) == r);
        assert(trim_end(r) == r);
    } else {
        assert(trim_start(r) == r);
        assert(trim_end(r) == r);
    }
}

/// Collapses the separators of `v` as `squeeze` describes.
pub fn squeeze_chars(v: &Vec<char>) -> (r: Vec<char>)
    ensures
        r@ == squeeze(v@),
{
    let mut out: Vec<char> = Vec::new();
    let mut pending = false;
    let mut i: usize = 0;
    while i < v.len()
        invariant
            i <= v.len(),
            (out@, pending) == squeeze_state(v@.take(i as int)),
        decreases v.len() - i,
    {
        let c = v[i];
        proof {
            assert(v@.take(i + 1).drop_last() =~= v@.take(i as int));
            assert(v@.take(i + 1).last() == c);
        }
        if gap(c) {
            pending = true;
        } else if pending && out.len() > 0 {
            out.push(' ');
            out.push(c);
            pending = false;
        } else {
            out.push(c);
            pending = false;
        }
        i = i + 1;
    }
    assert(v@.take(v.len() as int) =~= v@);
    out
}

/// Normalises a free-form name: trim, lower-case, turn `-`, `_` and `/` into
/// spaces, and collapse white space runs into single spaces.
pub fn normalize_text(s: &str) -> (r: String)
    ensures
        r@ == normalized_text(s@),
{
    let cs = chars_of(s);
    let t = trim_chars(&cs);
    let ts = string_of_chars(&t);
    let lower = to_lowercase(ts.as_str());
    let lc = chars_of(lower.as_str());
    let sq = squeeze_chars(&lc);
    string_of_chars(&sq)
}

/// `s.trim().to_lowercase()`.
pub open spec fn trimmed_lowercase(s: Seq<char>) -> Seq<char> {
    lowercase_of(trim(s))
}

/// Trims `s` and lower-cases it.
pub fn trim_lowercase(s: &str) -> (r: String)
    ensures
        r@ == trimmed_lowercase(s@),
{
    let cs = chars_of(s);
    let t = trim_chars(&cs);
    let ts = string_of_chars(&t);
    to_lowercase(ts.as_str())
}

} // verus!
