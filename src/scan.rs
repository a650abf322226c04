use vstd::prelude::*;

verus! {

pub open spec fn spec_is_whitespace(b: u8) -> bool {
    b == 0x00 || b == 0x09 || b == 0x0a || b == 0x0c || b == 0x0d || b == 0x20
}

pub open spec fn spec_is_eol(b: u8) -> bool {
    b == 0x0a || b == 0x0d
}

pub open spec fn spec_is_delimiter(b: u8) -> bool {
    b == 0x28 || b == 0x29 || b == 0x3c || b == 0x3e || b == 0x5b || b == 0x5d || b == 0x7b
        || b == 0x7d || b == 0x2f || b == 0x25
}

pub open spec fn spec_is_regular(b: u8) -> bool {
    !spec_is_whitespace(b) && !spec_is_delimiter(b)
}

/// Whether `b` is one of the six PDF whitespace bytes (NUL, tab, LF, FF, CR, space).
pub fn is_whitespace(b: u8) -> (r: bool)
    ensures
        r == spec_is_whitespace(b),
{
    b == 0x00 || b == 0x09 || b == 0x0a || b == 0x0c || b == 0x0d || b == 0x20
}

/// Whether `b` is an end-of-line byte (LF or CR).
pub fn is_eol(b: u8) -> (r: bool)
    ensures
        r == spec_is_eol(b),
{
    b == 0x0a || b == 0x0d
}

/// Whether `b` is one of `( ) < > [ ] { } / %`.
pub fn is_delimiter(b: u8) -> (r: bool)
    ensures
        r == spec_is_delimiter(b),
{
    b == 0x28 || b == 0x29 || b == 0x3c || b == 0x3e || b == 0x5b || b == 0x5d || b == 0x7b
        || b == 0x7d || b == 0x2f || b == 0x25
}

/// Whether `b` is neither whitespace nor a delimiter.
pub fn is_regular(b: u8) -> (r: bool)
    ensures
        r == spec_is_regular(b),
{
    !is_whitespace(b) && !is_delimiter(b)
}

/// The first position at or after `i` that does not hold whitespace.
pub open spec fn skip_ws(s: Seq<u8>, i: int) -> int
    decreases s.len() - i,
{
    if 0 <= i < s.len() && spec_is_whitespace(s[i]) {
        skip_ws(s, i + 1)
    } else {
        i
    }
}

/// The first position at or after `i` that holds an end-of-line byte, or the length.
pub open spec fn find_eol(s: Seq<u8>, i: int) -> int
    decreases s.len() - i,
{
    if 0 <= i < s.len() && !spec_is_eol(s[i]) {
        find_eol(s, i + 1)
    } else {
        i
    }
}

/// The position just past the first line end at or after `i` (`\r\n` counts as one).
pub open spec fn past_eol(s: Seq<u8>, i: int) -> int {
    let j = find_eol(s, i);
    if j + 1 < s.len() && s[j] == 0x0d && s[j + 1] == 0x0a {
        j + 2
    } else if j < s.len() {
        j + 1
    } else {
        j
    }
}

/// What is left of `s` once its leading whitespace is removed.
pub open spec fn spec_strip_whitespace(s: Seq<u8>) -> Seq<u8> {
    s.subrange(skip_ws(s, 0), s.len() as int)
}

pub proof fn lemma_skip_ws_bounds(s: Seq<u8>, i: int)
    requires
        0 <= i <= s.len(),
    ensures
        i <= skip_ws(s, i) <= s.len(),
        skip_ws(s, i) == s.len() || !spec_is_whitespace(s[skip_ws(s, i)]),
        forall|k: int| i <= k < skip_ws(s, i) ==> spec_is_whitespace(#[trigger] s[k]),
    decreases s.len() - i,
{
    if i < s.len() && spec_is_whitespace(s[i]) {
        lemma_skip_ws_bounds(s, i + 1);
    }
}

/// The position of the first non-whitespace byte of `b` at or after `i`.
pub fn skip_whitespace_at(b: &[u8], i: usize) -> (r: usize)
    requires
        i <= b@.len(),
    ensures
        r == skip_ws(b@, i as int),
        i <= r <= b@.len(),
{
    let mut j: usize = i;
    while j < b.len() && is_whitespace(b[j])
        invariant
            i <= j <= b@.len(),
            skip_ws(b@, j as int) == skip_ws(b@, i as int),
        decreases b@.len() - j,
    {
        j = j + 1;
    }
    j
}

/// Advances past a maximal run of whitespace bytes.
pub fn strip_whitespace(b: &[u8]) -> (r: &[u8])
    ensures
        r@ == spec_strip_whitespace(b@),
{
    let j = skip_whitespace_at(b, 0);
    vstd::slice::slice_subrange(b, j, b.len())
}

/// Advances up to the first end-of-line byte, then past it (`\r\n` is consumed whole).
/// An input without an end of line yields the empty suffix.
pub fn next_eol(b: &[u8]) -> (r: &[u8])
    ensures
        r@ == b@.subrange(past_eol(b@, 0), b@.len() as int),
{
    let mut j: usize = 0;
    while j < b.len() && !is_eol(b[j])
        invariant
            j <= b@.len(),
            find_eol(b@, j as int) == find_eol(b@, 0),
        decreases b@.len() - j,
    {
        j = j + 1;
    }
    let end: usize = if j < b.len() && j + 1 < b.len() && b[j] == 0x0d && b[j + 1] == 0x0a {
        j + 2
    } else if j < b.len() {
        j + 1
    } else {
        j
    };
    vstd::slice::slice_subrange(b, end, b.len())
}

/// Whether `a` and `b` hold the same bytes.
pub fn bytes_equal(a: &[u8], b: &[u8]) -> (r: bool)
    ensures
        r == (a@ == b@),
{
    if a.len() != b.len() {
        return false;
    }
    let mut k: usize = 0;
    while k < a.len()
        invariant
            a@.len() == b@.len(),
            0 <= k <= a@.len(),
            forall|q: int| 0 <= q < k ==> a@[q] == b@[q],
        decreases a@.len() - k,
    {
        if a[k] != b[k] {
            return false;
        }
        k = k + 1;
    }
    assert(a@ =~= b@);
    true
}

/// Removing leading whitespace a second time changes nothing.
pub proof fn lemma_strip_whitespace_idempotent(s: Seq<u8>)
    ensures
        spec_strip_whitespace(spec_strip_whitespace(s)) == spec_strip_whitespace(s),
{
    lemma_skip_ws_bounds(s, 0);
    let t = spec_strip_whitespace(s);
    assert(skip_ws(t, 0) == 0);
    assert(t.subrange(0, t.len() as int) =~= t);
}

} // verus!
