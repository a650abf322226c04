use vstd::prelude::*;

use crate::error::{FilterError, PdfError, PdfErrorKind};
use crate::pipeline::{end_failure, next_non_whitespace, prepend, pulled, ByteSource, SourceModel};
use crate::scan::{is_whitespace, spec_is_whitespace};
use vstd::arithmetic::div_mod::{
    lemma_div_denominator, lemma_fundamental_div_mod, lemma_fundamental_div_mod_converse,
    lemma_mod_add_multiples_vanish,
};

verus! {

/// Four bytes read as a big-endian unsigned number.
pub open spec fn be_value(a: Seq<u8>) -> int {
    a[0] * 16777216 + a[1] * 65536 + a[2] * 256 + a[3]
}

/// The four big-endian bytes of `v`.
pub open spec fn be_bytes(v: int) -> Seq<u8> {
    seq![(v / 16777216 % 256) as u8, (v / 65536 % 256) as u8, (v / 256 % 256) as u8, (v % 256) as u8]
}

/// `s` (at most four bytes) padded with zero bytes to four.
pub open spec fn pad_zero(s: Seq<u8>) -> Seq<u8> {
    s + Seq::new((4 - s.len()) as nat, |k: int| 0u8)
}

/// The base-85 digit of `v` at position `i` (0 is the most significant), as a character.
pub open spec fn a85_char(v: int, i: int) -> u8 {
    let p = if i == 0 {
        52200625int
    } else if i == 1 {
        614125int
    } else if i == 2 {
        7225int
    } else if i == 3 {
        85int
    } else {
        1int
    };
    (v / p % 85 + 0x21) as u8
}

/// The five characters of `v`, most significant first.
pub open spec fn a85_group(v: int) -> Seq<u8> {
    seq![a85_char(v, 0), a85_char(v, 1), a85_char(v, 2), a85_char(v, 3), a85_char(v, 4)]
}

/// Groups of four bytes as five characters (`z` for four zero bytes); a last group of
/// one to three bytes is padded with zeros and gives one character more than its bytes.
pub open spec fn a85_encode_body(s: Seq<u8>) -> Seq<u8>
    decreases s.len(),
{
    if s.len() == 0 {
        Seq::empty()
    } else if s.len() < 4 {
        a85_group(be_value(pad_zero(s))).subrange(0, s.len() as int + 1)
    } else {
        let v = be_value(s.subrange(0, 4));
        (if v == 0 {
            seq![0x7au8]
        } else {
            a85_group(v)
        }) + a85_encode_body(s.subrange(4, s.len() as int))
    }
}

/// The ASCII-85 encoding of `s`, ending with `~>`.
pub open spec fn spec_ascii85_encode(s: Seq<u8>) -> Seq<u8> {
    a85_encode_body(s) + seq![0x7eu8, 0x3e]
}

/// `s` without its whitespace bytes.
pub open spec fn drop_ws(s: Seq<u8>) -> Seq<u8>
    decreases s.len(),
{
    if s.len() == 0 {
        Seq::empty()
    } else if spec_is_whitespace(s[0]) {
        drop_ws(s.drop_first())
    } else {
        seq![s[0]] + drop_ws(s.drop_first())
    }
}

pub open spec fn in_a85_range(t: Seq<u8>) -> bool {
    forall|k: int| 0 <= k < t.len() ==> 0x21 <= #[trigger] t[k] <= 0x75
}

/// The value of five characters of the base-85 alphabet.
#[verifier::opaque]
pub open spec fn a85_value(t: Seq<u8>) -> int {
    ((((t[0] - 0x21) * 85 + (t[1] - 0x21)) * 85 + (t[2] - 0x21)) * 85 + (t[3] - 0x21)) * 85 + (t[4]
        - 0x21)
}

/// `t` (at most five characters) padded with `u` to five.
pub open spec fn pad_u(t: Seq<u8>) -> Seq<u8> {
    t + Seq::new((5 - t.len()) as nat, |k: int| 0x75u8)
}

/// The index of the first `~` among the first five bytes of `t` from `k` on, or -1.
pub open spec fn tilde_in(t: Seq<u8>, k: int) -> int
    decreases 5 - k,
{
    if k < 0 || k >= 5 || k >= t.len() {
        -1
    } else if t[k] == 0x7e {
        k
    } else {
        tilde_in(t, k + 1)
    }
}

/// Decoding of whitespace-free data `t` after the output `acc`.
pub open spec fn a85_decode(t: Seq<u8>, acc: Seq<u8>) -> Result<Seq<u8>, FilterError>
    decreases t.len(),
{
    if t.len() == 0 {
        Err(FilterError::MissingEOD)
    } else if t[0] == 0x7a {
        a85_decode(t.drop_first(), acc + seq![0u8, 0u8, 0u8, 0u8])
    } else {
        let k = tilde_in(t, 0);
        if k < 0 {
            if t.len() < 5 {
                Err(FilterError::MissingEOD)
            } else if !in_a85_range(t.subrange(0, 5)) || a85_value(t.subrange(0, 5)) >= 0x1_0000_0000 {
                Err(FilterError::ASCII85Decode)
            } else {
                a85_decode(t.subrange(5, t.len() as int), acc + be_bytes(a85_value(t.subrange(0, 5))))
            }
        } else if k + 1 >= t.len() || t[k + 1] != 0x3e {
            Err(FilterError::MissingEOD)
        } else if !in_a85_range(t.subrange(0, k)) {
            Err(FilterError::ASCII85Decode)
        } else if k == 0 {
            Ok(acc)
        } else {
            let v = a85_value(pad_u(t.subrange(0, k)));
            if v >= 0x1_0000_0000 {
                Err(FilterError::ASCII85Decode)
            } else {
                Ok(acc + be_bytes(v).subrange(0, k - 1))
            }
        }
    }
}

/// ASCII-85 decoding: whitespace is skipped, `z` stands for four zero bytes, and `~>`
/// ends the data.
pub open spec fn spec_ascii85_decode(s: Seq<u8>) -> Result<Seq<u8>, FilterError> {
    a85_decode(drop_ws(s), Seq::empty())
}

/// The five characters of `v`.
fn group_chars(v: u64) -> (r: [u8; 5])
    requires
        v < 0x1_0000_0000,
    ensures
        r@ == a85_group(v as int),
{
    let r = [
        (v / 52200625 % 85 + 0x21) as u8,
        (v / 614125 % 85 + 0x21) as u8,
        (v / 7225 % 85 + 0x21) as u8,
        (v / 85 % 85 + 0x21) as u8,
        (v % 85 + 0x21) as u8,
    ];
    assert(r@ =~= a85_group(v as int));
    r
}

/// Encodes `bytes` as ASCII-85, ending with `~>`.
pub fn ascii85_encode(bytes: &[u8]) -> (r: Vec<u8>)
    ensures
        r@ == spec_ascii85_encode(bytes@),
{
    let n = bytes.len();
    let mut out: Vec<u8> = Vec::new();
    let mut k: usize = 0;
    assert(bytes@.subrange(0, n as int) =~= bytes@);
    while n - k >= 4
        invariant
            0 <= k <= n,
            n == bytes@.len(),
            a85_encode_body(bytes@) == out@ + a85_encode_body(bytes@.subrange(k as int, n as int)),
        decreases n - k,
    {
        let ghost rest = bytes@.subrange(k as int, n as int);
        assert(rest.subrange(0, 4) =~= bytes@.subrange(k as int, k + 4));
        assert(rest.subrange(4, rest.len() as int) =~= bytes@.subrange(k + 4, n as int));
        let v: u64 = (bytes[k] as u64) * 16777216 + (bytes[k + 1] as u64) * 65536 + (bytes[k + 2] as u64)
            * 256 + (bytes[k + 3] as u64);
        assert(v as int == be_value(rest.subrange(0, 4)));
        let ghost before = out@;
        if v == 0 {
            out.push(0x7a);
            assert(out@ =~= before + seq![0x7au8]);
        } else {
            let g = group_chars(v);
            out.push(g[0]);
            out.push(g[1]);
            out.push(g[2]);
            out.push(g[3]);
            out.push(g[4]);
            assert(out@ =~= before + a85_group(v as int));
        }
        assert(out@ + a85_encode_body(bytes@.subrange(k + 4, n as int)) =~= before + a85_encode_body(rest));
        k = k + 4;
    }
    let rem = n - k;
    if rem > 0 {
        let ghost rest = bytes@.subrange(k as int, n as int);
        let b0 = bytes[k] as u64;
        let b1: u64 = if rem > 1 { bytes[k + 1] as u64 } else { 0 };
        let b2: u64 = if rem > 2 { bytes[k + 2] as u64 } else { 0 };
        let v: u64 = b0 * 16777216 + b1 * 65536 + b2 * 256;
        assert(pad_zero(rest)[0] == b0 && pad_zero(rest)[1] == b1 && pad_zero(rest)[2] == b2 && pad_zero(rest)[3] == 0);
        assert(v as int == be_value(pad_zero(rest)));
        let g = group_chars(v);
        let ghost before = out@;
        let mut t: usize = 0;
        while t <= rem
            invariant
                0 <= t <= rem + 1,
                1 <= rem <= 3,
                g@ == a85_group(v as int),
                out@ == before + g@.subrange(0, t as int),
            decreases rem + 1 - t,
        {
            out.push(g[t]);
            assert(g@.subrange(0, t + 1) =~= g@.subrange(0, t as int).push(g@[t as int]));
            t = t + 1;
        }
        assert(a85_encode_body(rest) == a85_group(v as int).subrange(0, rem + 1));
        assert(out@ =~= before + a85_encode_body(rest));
    } else {
        assert(bytes@.subrange(k as int, n as int) =~= Seq::<u8>::empty());
    }
    assert(out@ + a85_encode_body(bytes@.subrange(n as int, n as int)) =~= out@) by {
        assert(bytes@.subrange(n as int, n as int) =~= Seq::<u8>::empty());
    }
    let ghost body = out@;
    out.push(0x7e);
    out.push(0x3e);
    assert(out@ =~= body + seq![0x7eu8, 0x3e]);
    out
}

/// Copies `s` without its whitespace bytes.
fn without_whitespace(s: &[u8]) -> (r: Vec<u8>)
    ensures
        r@ == drop_ws(s@),
{
    let n = s.len();
    let mut out: Vec<u8> = Vec::new();
    let mut k: usize = 0;
    assert(s@.subrange(0, n as int) =~= s@);
    assert(out@ + drop_ws(s@) =~= drop_ws(s@));
    while k < n
        invariant
            0 <= k <= n,
            n == s@.len(),
            drop_ws(s@) == out@ + drop_ws(s@.subrange(k as int, n as int)),
        decreases n - k,
    {
        let ghost rest = s@.subrange(k as int, n as int);
        assert(rest.drop_first() =~= s@.subrange(k + 1, n as int));
        assert(rest[0] == s[k as int]);
        let ghost before = out@;
        if !is_whitespace(s[k]) {
            out.push(s[k]);
            assert(out@ + drop_ws(rest.drop_first()) =~= before + (seq![s@[k as int]] + drop_ws(rest.drop_first())));
        }
        k = k + 1;
    }
    assert(drop_ws(s@.subrange(n as int, n as int)) =~= Seq::<u8>::empty()) by {
        assert(s@.subrange(n as int, n as int).len() == 0);
    }
    assert(out@ + Seq::<u8>::empty() =~= out@);
    out
}

/// Whether every byte of `t` in `[a, b)` is one of `!` to `u`.
fn a85_range(t: &[u8], a: usize, b: usize) -> (r: bool)
    requires
        a <= b <= t@.len(),
    ensures
        r == in_a85_range(t@.subrange(a as int, b as int)),
{
    let mut k: usize = a;
    while k < b
        invariant
            a <= k <= b <= t@.len(),
            forall|q: int| a <= q < k ==> 0x21 <= #[trigger] t@[q] <= 0x75,
        decreases b - k,
    {
        if !(0x21 <= t[k] && t[k] <= 0x75) {
            assert(t@.subrange(a as int, b as int)[k - a] == t@[k as int]);
            return false;
        }
        k = k + 1;
    }
    assert(forall|q: int|
        0 <= q < b - a ==> #[trigger] t@.subrange(a as int, b as int)[q] == t@[a + q]);
    true
}

/// The value of the `len` characters of `t` at `a`, padded with `u` to five.
fn a85_value_at(t: &[u8], a: usize, len: usize) -> (r: u64)
    requires
        1 <= len <= 5,
        a + len <= t@.len(),
        in_a85_range(t@.subrange(a as int, a + len)),
    ensures
        r == a85_value(pad_u(t@.subrange(a as int, a + len))),
{
    reveal(a85_value);
    let ghost sub = t@.subrange(a as int, a + len);
    let ghost p = pad_u(sub);
    assert(forall|q: int| 0 <= q < len ==> p[q] == #[trigger] t@[a + q] && sub[q] == t@[a + q]);
    assert(forall|q: int| 0 <= q < len ==> 0x21 <= #[trigger] t@[a + q] <= 0x75) by {
        assert forall|q: int| 0 <= q < len implies 0x21 <= #[trigger] t@[a + q] <= 0x75 by {
            assert(sub[q] == t@[a + q]);
        }
    }
    assert(sub[0] == t@[a as int]);
    let c0: u64 = (t[a] - 0x21) as u64;
    let c1: u64 = if len > 1 { (t[a + 1] - 0x21) as u64 } else { 84 };
    let c2: u64 = if len > 2 { (t[a + 2] - 0x21) as u64 } else { 84 };
    let c3: u64 = if len > 3 { (t[a + 3] - 0x21) as u64 } else { 84 };
    let c4: u64 = if len > 4 { (t[a + 4] - 0x21) as u64 } else { 84 };
    assert(p[0] - 0x21 == c0 && p[1] - 0x21 == c1 && p[2] - 0x21 == c2 && p[3] - 0x21 == c3 && p[4] - 0x21 == c4);
    (((c0 * 85 + c1) * 85 + c2) * 85 + c3) * 85 + c4
}

/// Decodes ASCII-85 data up to its `~>`.
pub fn ascii85_decode(bytes: &[u8]) -> (r: Result<Vec<u8>, PdfError>)
    ensures
        match r {
            Ok(v) => spec_ascii85_decode(bytes@) == Ok::<Seq<u8>, FilterError>(v@),
            Err(e) => spec_ascii85_decode(bytes@) matches Err(fe) && e.kind == PdfErrorKind::Filter(fe),
        },
{
    let t = without_whitespace(bytes);
    let ts = t.as_slice();
    let n = ts.len();
    let mut out: Vec<u8> = Vec::new();
    let mut k: usize = 0;
    assert(ts@.subrange(0, n as int) =~= ts@);
    assert(out@ =~= Seq::<u8>::empty());
    while k < n
        invariant
            0 <= k <= n,
            n == ts@.len(),
            ts@ == drop_ws(bytes@),
            a85_decode(ts@.subrange(k as int, n as int), out@) == spec_ascii85_decode(bytes@),
        decreases n - k,
    {
        let ghost rest = ts@.subrange(k as int, n as int);
        assert(rest[0] == ts@[k as int]);
        let ghost before = out@;
        if ts[k] == 0x7a {
            assert(rest.drop_first() =~= ts@.subrange(k + 1, n as int));
            out.push(0);
            out.push(0);
            out.push(0);
            out.push(0);
            assert(out@ =~= before + seq![0u8, 0u8, 0u8, 0u8]);
            k = k + 1;
        } else {
            let lim: usize = if n - k < 5 { n - k } else { 5 };
            let mut q: usize = 0;
            while q < lim && ts[k + q] != 0x7e
                invariant
                    0 <= q <= lim,
                    lim <= 5,
                    k + lim <= n,
                    lim == (if n - k < 5 { n - k } else { 5 }),
                    n == ts@.len(),
                    rest == ts@.subrange(k as int, n as int),
                    tilde_in(rest, q as int) == tilde_in(rest, 0),
                decreases lim - q,
            {
                assert(rest[q as int] == ts@[k + q]);
                q = q + 1;
            }
            if q == lim {
                assert(tilde_in(rest, q as int) == -1);
                if n - k < 5 {
                    return Err(PdfError::with_kind(PdfErrorKind::Filter(FilterError::MissingEOD)));
                }
                assert(rest.subrange(0, 5) =~= ts@.subrange(k as int, k + 5));
                if !a85_range(ts, k, k + 5) {
                    return Err(PdfError::with_kind(PdfErrorKind::Filter(FilterError::ASCII85Decode)));
                }
                let v = a85_value_at(ts, k, 5);
                assert(pad_u(ts@.subrange(k as int, k + 5)) =~= ts@.subrange(k as int, k + 5));
                if v >= 0x1_0000_0000 {
                    return Err(PdfError::with_kind(PdfErrorKind::Filter(FilterError::ASCII85Decode)));
                }
                out.push((v / 16777216 % 256) as u8);
                out.push((v / 65536 % 256) as u8);
                out.push((v / 256 % 256) as u8);
                out.push((v % 256) as u8);
                assert(out@ =~= before + be_bytes(v as int));
                assert(rest.subrange(5, rest.len() as int) =~= ts@.subrange(k + 5, n as int));
                k = k + 5;
            } else {
                assert(rest[q as int] == ts@[k + q]);
                if q + 1 >= n - k || ts[k + q + 1] != 0x3e {
                    proof {
                        if q + 1 < n - k {
                            assert(rest[q + 1] == ts@[k + q + 1]);
                        }
                    }
                    return Err(PdfError::with_kind(PdfErrorKind::Filter(FilterError::MissingEOD)));
                }
                assert(rest[q + 1] == ts@[k + q + 1]);
                assert(rest.subrange(0, q as int) =~= ts@.subrange(k as int, k + q));
                if !a85_range(ts, k, k + q) {
                    return Err(PdfError::with_kind(PdfErrorKind::Filter(FilterError::ASCII85Decode)));
                }
                if q == 0 {
                    return Ok(out);
                }
                let v = a85_value_at(ts, k, q);
                if v >= 0x1_0000_0000 {
                    return Err(PdfError::with_kind(PdfErrorKind::Filter(FilterError::ASCII85Decode)));
                }
                let mut m: usize = 0;
                while m + 1 < q
                    invariant
                        0 <= m,
                        m + 1 <= q,
                        q <= 5,
                        v < 0x1_0000_0000,
                        out@ == before + be_bytes(v as int).subrange(0, m as int),
                    decreases q - m,
                {
                    let byte: u8 = if m == 0 {
                        (v / 16777216 % 256) as u8
                    } else if m == 1 {
                        (v / 65536 % 256) as u8
                    } else if m == 2 {
                        (v / 256 % 256) as u8
                    } else {
                        (v % 256) as u8
                    };
                    assert(byte == be_bytes(v as int)[m as int]);
                    out.push(byte);
                    assert(be_bytes(v as int).subrange(0, m + 1) =~= be_bytes(v as int).subrange(0, m as int).push(byte));
                    m = m + 1;
                }
                return Ok(out);
            }
        }
    }
    Err(PdfError::with_kind(PdfErrorKind::Filter(FilterError::MissingEOD)))
}

/// The base-85 digits of a 32-bit value, with the quotients they come from.
proof fn lemma_digits(v: int)
    requires
        0 <= v < 0x1_0000_0000,
    ensures
        ({
            let d0 = a85_char(v, 0) - 0x21;
            let d1 = a85_char(v, 1) - 0x21;
            let d2 = a85_char(v, 2) - 0x21;
            let d3 = a85_char(v, 3) - 0x21;
            let d4 = a85_char(v, 4) - 0x21;
            &&& 0 <= d0 < 85 && 0 <= d1 < 85 && 0 <= d2 < 85 && 0 <= d3 < 85 && 0 <= d4 < 85
            &&& v == (v / 85) * 85 + d4
            &&& v / 85 == (v / 7225) * 85 + d3
            &&& v / 7225 == (v / 614125) * 85 + d2
            &&& v / 614125 == d0 * 85 + d1
            &&& v / 52200625 == d0
        }),
{
    lemma_fundamental_div_mod(v, 85);
    lemma_div_denominator(v, 85, 85);
    lemma_fundamental_div_mod(v / 85, 85);
    lemma_div_denominator(v, 7225, 85);
    lemma_fundamental_div_mod(v / 7225, 85);
    lemma_div_denominator(v, 614125, 85);
    lemma_fundamental_div_mod(v / 614125, 85);
    assert(v / 52200625 < 85);
    assert(v / 52200625 % 85 == v / 52200625);
}

/// Four bytes are the big-endian bytes of the value they make.
proof fn lemma_be_bytes(v: int, a: int, b: int, c: int, d: int)
    requires
        0 <= a < 256 && 0 <= b < 256 && 0 <= c < 256 && 0 <= d < 256,
        v == a * 16777216 + b * 65536 + c * 256 + d,
    ensures
        be_bytes(v) == seq![a as u8, b as u8, c as u8, d as u8],
{
    lemma_fundamental_div_mod_converse(v, 16777216, a, b * 65536 + c * 256 + d);
    lemma_fundamental_div_mod_converse(v, 65536, a * 256 + b, c * 256 + d);
    lemma_fundamental_div_mod_converse(a * 256 + b, 256, a, b);
    lemma_fundamental_div_mod_converse(v, 256, a * 65536 + b * 256 + c, d);
    lemma_fundamental_div_mod_converse(a * 65536 + b * 256 + c, 256, a * 256 + b, c);
    assert(a % 256 == a) by {
        lemma_fundamental_div_mod_converse(a, 256, 0, a);
    }
    assert(be_bytes(v) =~= seq![a as u8, b as u8, c as u8, d as u8]);
}

proof fn lemma_group(v: int)
    requires
        0 <= v < 0x1_0000_0000,
    ensures
        a85_value(a85_group(v)) == v,
        in_a85_range(a85_group(v)),
        a85_group(v).len() == 5,
        a85_group(v)[0] != 0x7a,
{
    reveal(a85_value);
    lemma_digits(v);
}

/// The value of the first `n + 1` characters of the group of `v`, padded with `u`, has the
/// first `n` bytes of `v` when the last `4 - n` bytes of `v` are zero.
proof fn lemma_partial_group(x: Seq<u8>)
    requires
        1 <= x.len() <= 3,
    ensures
        ({
            let v0 = be_value(pad_zero(x));
            let t = a85_group(v0).subrange(0, x.len() as int + 1);
            let v1 = a85_value(pad_u(t));
            &&& in_a85_range(t)
            &&& 0 <= v1 < 0x1_0000_0000
            &&& be_bytes(v1).subrange(0, x.len() as int) == x
        }),
{
    reveal(a85_value);
    let p = pad_zero(x);
    let v0 = be_value(p);
    let a = p[0] as int;
    let b = p[1] as int;
    let c = p[2] as int;
    assert(p[3] == 0);
    lemma_digits(v0);
    let g = a85_group(v0);
    let t = g.subrange(0, x.len() as int + 1);
    let pt = pad_u(t);
    let v1 = a85_value(pt);
    let d0 = g[0] - 0x21;
    let d1 = g[1] - 0x21;
    let d2 = g[2] - 0x21;
    let d3 = g[3] - 0x21;
    let d4 = g[4] - 0x21;
    assert(in_a85_range(t));
    if x.len() == 3 {
        assert(pt[0] == g[0] && pt[1] == g[1] && pt[2] == g[2] && pt[3] == g[3] && pt[4] == 0x75);
        assert(v1 == (v0 / 85) * 85 + 84);
        let e = v1 - v0;
        assert(0 <= e < 85);
        lemma_be_bytes(v1, a, b, c, e);
        assert(be_bytes(v1).subrange(0, 3) =~= x);
    } else if x.len() == 2 {
        assert(c == 0);
        assert(pt[0] == g[0] && pt[1] == g[1] && pt[2] == g[2] && pt[3] == 0x75 && pt[4] == 0x75);
        assert(v1 == (v0 / 7225) * 7225 + 7224);
        let e = v1 - v0;
        assert(0 <= e < 7225);
        lemma_fundamental_div_mod(e, 256);
        lemma_be_bytes(v1, a, b, e / 256, e % 256);
        assert(be_bytes(v1).subrange(0, 2) =~= x);
    } else {
        assert(b == 0 && c == 0);
        assert(pt[0] == g[0] && pt[1] == g[1] && pt[2] == 0x75 && pt[3] == 0x75 && pt[4] == 0x75);
        assert(v1 == (v0 / 614125) * 614125 + 614124);
        let e = v1 - v0;
        assert(0 <= e < 614125);
        lemma_fundamental_div_mod(e, 65536);
        lemma_fundamental_div_mod(e % 65536, 256);
        lemma_be_bytes(v1, a, e / 65536, e % 65536 / 256, e % 65536 % 256);
        assert(be_bytes(v1).subrange(0, 1) =~= x);
    }
}

proof fn lemma_encode_chars(x: Seq<u8>)
    ensures
        forall|k: int| 0 <= k < a85_encode_body(x).len() ==> 0x21 <= #[trigger] a85_encode_body(x)[k] <= 0x7a,
    decreases x.len(),
{
    if x.len() == 0 {
    } else if x.len() < 4 {
        lemma_digits(be_value(pad_zero(x)));
    } else {
        let v = be_value(x.subrange(0, 4));
        lemma_digits(v);
        let rest = x.subrange(4, x.len() as int);
        lemma_encode_chars(rest);
        let head = if v == 0 {
            seq![0x7au8]
        } else {
            a85_group(v)
        };
        assert(a85_encode_body(x) == head + a85_encode_body(rest));
        assert forall|k: int| 0 <= k < a85_encode_body(x).len() implies 0x21 <= #[trigger] a85_encode_body(x)[k] <= 0x7a by {
            if k >= head.len() {
                assert(a85_encode_body(x)[k] == a85_encode_body(rest)[k - head.len()]);
            }
        }
    }
}

pub proof fn lemma_drop_ws_none(s: Seq<u8>)
    requires
        forall|k: int| 0 <= k < s.len() ==> !spec_is_whitespace(#[trigger] s[k]),
    ensures
        drop_ws(s) == s,
    decreases s.len(),
{
    if s.len() > 0 {
        assert(forall|k: int| 0 <= k < s.drop_first().len() ==> #[trigger] s.drop_first()[k] == s[k + 1]);
        lemma_drop_ws_none(s.drop_first());
        assert(seq![s[0]] + s.drop_first() =~= s);
    }
}

proof fn lemma_decode_tail(x: Seq<u8>, acc: Seq<u8>)
    requires
        x.len() < 4,
    ensures
        a85_decode(a85_encode_body(x) + seq![0x7eu8, 0x3e], acc) == Ok::<Seq<u8>, FilterError>(acc + x),
{
    let end = seq![0x7eu8, 0x3e];
    if x.len() == 0 {
        let t = a85_encode_body(x) + end;
        assert(t =~= end);
        assert(tilde_in(t, 0) == 0);
        assert(in_a85_range(t.subrange(0, 0)));
        assert(acc + x =~= acc);
    } else {
        let n = x.len() as int;
        lemma_partial_group(x);
        let v0 = be_value(pad_zero(x));
        lemma_digits(v0);
        let g = a85_group(v0).subrange(0, n + 1);
        let t = a85_encode_body(x) + end;
        assert(t =~= g + end);
        assert(t[n + 1] == 0x7e);
        assert(t[n + 2] == 0x3e);
        assert(tilde_in(t, n + 1) == n + 1);
        if n >= 3 {
            assert(tilde_in(t, 3) == tilde_in(t, 4));
        }
        if n >= 2 {
            assert(tilde_in(t, 2) == tilde_in(t, 3));
        }
        assert(tilde_in(t, 1) == tilde_in(t, 2));
        assert(tilde_in(t, 0) == tilde_in(t, 1));
        assert(t.subrange(0, n + 1) =~= g);
    }
}

proof fn lemma_decode_zero_group(x: Seq<u8>, acc: Seq<u8>)
    requires
        x.len() >= 4,
        be_value(x.subrange(0, 4)) == 0,
    ensures
        a85_decode(a85_encode_body(x) + seq![0x7eu8, 0x3e], acc) == a85_decode(
            a85_encode_body(x.subrange(4, x.len() as int)) + seq![0x7eu8, 0x3e],
            acc + x.subrange(0, 4),
        ),
{
    let rest = x.subrange(4, x.len() as int);
    let tail_t = a85_encode_body(rest) + seq![0x7eu8, 0x3e];
    let t = a85_encode_body(x) + seq![0x7eu8, 0x3e];
    assert(x.subrange(0, 4) =~= seq![0u8, 0u8, 0u8, 0u8]);
    assert(t =~= seq![0x7au8] + tail_t);
    assert(t.drop_first() =~= tail_t);
}

proof fn lemma_decode_full_group(x: Seq<u8>, acc: Seq<u8>)
    requires
        x.len() >= 4,
        be_value(x.subrange(0, 4)) != 0,
    ensures
        a85_decode(a85_encode_body(x) + seq![0x7eu8, 0x3e], acc) == a85_decode(
            a85_encode_body(x.subrange(4, x.len() as int)) + seq![0x7eu8, 0x3e],
            acc + x.subrange(0, 4),
        ),
{
    let v = be_value(x.subrange(0, 4));
    let rest = x.subrange(4, x.len() as int);
    let tail_t = a85_encode_body(rest) + seq![0x7eu8, 0x3e];
    let t = a85_encode_body(x) + seq![0x7eu8, 0x3e];
    lemma_group(v);
    lemma_digits(v);
    let g = a85_group(v);
    assert(t =~= g + tail_t);
    assert(tilde_in(t, 4) == tilde_in(t, 5));
    assert(tilde_in(t, 3) == tilde_in(t, 4));
    assert(tilde_in(t, 2) == tilde_in(t, 3));
    assert(tilde_in(t, 1) == tilde_in(t, 2));
    assert(tilde_in(t, 0) == -1);
    assert(t.subrange(0, 5) =~= g);
    assert(t.subrange(5, t.len() as int) =~= tail_t);
    lemma_be_bytes(v, x[0] as int, x[1] as int, x[2] as int, x[3] as int);
    assert(be_bytes(v) =~= x.subrange(0, 4));
}

proof fn lemma_decode_encoded(x: Seq<u8>, acc: Seq<u8>)
    ensures
        a85_decode(a85_encode_body(x) + seq![0x7eu8, 0x3e], acc) == Ok::<Seq<u8>, FilterError>(acc + x),
    decreases x.len(),
{
    if x.len() < 4 {
        lemma_decode_tail(x, acc);
    } else {
        let rest = x.subrange(4, x.len() as int);
        if be_value(x.subrange(0, 4)) == 0 {
            lemma_decode_zero_group(x, acc);
        } else {
            lemma_decode_full_group(x, acc);
        }
        lemma_decode_encoded(rest, acc + x.subrange(0, 4));
        assert(acc + x.subrange(0, 4) + rest =~= acc + x);
    }
}

/// Decoding the ASCII-85 encoding of any bytes gives those bytes back.
pub proof fn lemma_ascii85_round_trip(s: Seq<u8>)
    ensures
        spec_ascii85_decode(spec_ascii85_encode(s)) == Ok::<Seq<u8>, FilterError>(s),
{
    let e = spec_ascii85_encode(s);
    let body = a85_encode_body(s);
    lemma_encode_chars(s);
    assert forall|k: int| 0 <= k < e.len() implies !spec_is_whitespace(#[trigger] e[k]) by {
        if k < body.len() {
            assert(e[k] == body[k]);
        }
    }
    lemma_drop_ws_none(e);
    lemma_decode_encoded(s, Seq::empty());
    assert(Seq::<u8>::empty() + s =~= s);
}

/// The bytes of `b` that make whole groups of four.
pub open spec fn full_groups(b: Seq<u8>) -> Seq<u8> {
    b.subrange(0, b.len() - b.len() % 4)
}

/// The characters for one whole group of value `v`.
pub open spec fn a85_head(v: int) -> Seq<u8> {
    if v == 0 {
        seq![0x7au8]
    } else {
        a85_group(v)
    }
}

/// What an ASCII-85 encoder gives over a source whose model is `m`: when the source fails,
/// the bytes of an unfinished group are dropped before the failure.
pub open spec fn a85_encoder_model(m: SourceModel) -> SourceModel {
    match m.1 {
        None => (a85_encode_body(m.0) + seq![0x7eu8, 0x3e], None),
        Some(k) => (a85_encode_body(full_groups(m.0)), Some(k)),
    }
}

proof fn lemma_encode_cons(g: Seq<u8>, r: Seq<u8>)
    requires
        g.len() == 4,
    ensures
        a85_encode_body(g + r) == a85_head(be_value(g)) + a85_encode_body(r),
        full_groups(g + r) == g + full_groups(r),
{
    assert((g + r).subrange(0, 4) =~= g);
    assert((g + r).subrange(4, (g + r).len() as int) =~= r);
    lemma_mod_add_multiples_vanish(r.len() as int, 4);
    assert(full_groups(g + r) =~= g + full_groups(r));
}

/// Pulls up to four bytes: fewer only where the source ended.
fn read_group<S: ByteSource>(inner: &mut S) -> (r: Result<Vec<u8>, PdfError>)
    requires
        old(inner).inv(),
    ensures
        final(inner).inv(),
        match r {
            Ok(g) => g@.len() <= 4 && old(inner).rest().0 == g@ + final(inner).rest().0
                && final(inner).rest().1 == old(inner).rest().1 && (g@.len() < 4 ==> (
            final(inner).rest().0.len() == 0 && old(inner).rest().1 is None)),
            Err(e) => old(inner).rest().0.len() < 4 && old(inner).rest().1 == Some(e.kind)
                && final(inner).rest() == (Seq::<u8>::empty(), None::<PdfErrorKind>),
        },
{
    let mut g: Vec<u8> = Vec::new();
    while g.len() < 4
        invariant
            inner.inv(),
            g@.len() <= 4,
            old(inner).rest().0 == g@ + inner.rest().0,
            inner.rest().1 == old(inner).rest().1,
        decreases 4 - g@.len(),
    {
        let ghost before = inner.rest();
        match inner.next_byte() {
            Some(Ok(c)) => {
                let ghost gb = g@;
                g.push(c);
                assert(gb + before.0 =~= g@ + inner.rest().0);
            },
            Some(Err(e)) => {
                assert(g@ + before.0 =~= g@);
                return Err(e);
            },
            None => {
                assert(g@ + before.0 =~= g@);
                return Ok(g);
            },
        }
    }
    Ok(g)
}

/// The characters for the whole group `g`.
fn head_chars(g: &[u8]) -> (r: Vec<u8>)
    requires
        g@.len() == 4,
    ensures
        r@ == a85_head(be_value(g@)),
{
    let v: u64 = (g[0] as u64) * 16777216 + (g[1] as u64) * 65536 + (g[2] as u64) * 256 + (g[3] as u64);
    let mut r: Vec<u8> = Vec::new();
    if v == 0 {
        r.push(0x7a);
        assert(r@ =~= seq![0x7au8]);
    } else {
        let c = group_chars(v);
        r.push(c[0]);
        r.push(c[1]);
        r.push(c[2]);
        r.push(c[3]);
        r.push(c[4]);
        assert(r@ =~= c@);
    }
    r
}

/// The model of an ASCII-85 encoder from its buffer, position in it, flags and source.
pub open spec fn encoder_state(buf: Seq<u8>, pos: usize, ended: bool, done: bool, m: SourceModel) -> SourceModel {
    let pending = buf.subrange(pos as int, buf.len() as int);
    if done {
        (Seq::empty(), None)
    } else if ended {
        (pending, None)
    } else {
        prepend(pending, a85_encoder_model(m))
    }
}

proof fn lemma_full_step(g: Seq<u8>, r: Seq<u8>, end: Option<PdfErrorKind>)
    requires
        g.len() == 4,
    ensures
        a85_encoder_model((g + r, end)).0 == a85_head(be_value(g)) + a85_encoder_model((r, end)).0,
        a85_encoder_model((g + r, end)).1 == a85_encoder_model((r, end)).1,
{
    lemma_encode_cons(g, r);
    match end {
        None => {
            assert(a85_encoder_model((g + r, end)).0 =~= a85_head(be_value(g)) + a85_encoder_model((r, end)).0);
        },
        Some(k) => {
            lemma_encode_cons(g, full_groups(r));
            assert(a85_encoder_model((g + r, end)).0 =~= a85_head(be_value(g)) + a85_encoder_model((r, end)).0);
        },
    }
}

/// Reads the next group for an ASCII-85 encoder whose buffer is used up, and gives its
/// first character.
fn refill_encoder<S: ByteSource>(
    inner: &mut S,
    buf: &mut Vec<u8>,
    pos: &mut usize,
    ended: &mut bool,
    done: &mut bool,
) -> (r: Option<Result<u8, PdfError>>)
    requires
        old(inner).inv(),
        !*old(ended),
        !*old(done),
        *old(pos) <= old(buf)@.len(),
    ensures
        final(inner).inv(),
        *final(pos) <= final(buf)@.len(),
        pulled(
            a85_encoder_model(old(inner).rest()),
            r,
            encoder_state(final(buf)@, *final(pos), *final(ended), *final(done), final(inner).rest()),
        ),
{
    let ghost m = inner.rest();
    match read_group(inner) {
        Err(e) => {
            *done = true;
            assert(m.0.len() - m.0.len() % 4 == 0);
            assert(full_groups(m.0) =~= Seq::<u8>::empty());
            Some(Err(e))
        },
        Ok(g) => {
            if g.len() == 4 {
                let chars = head_chars(g.as_slice());
                proof {
                    lemma_full_step(g@, inner.rest().0, m.1);
                    assert(m == (g@ + inner.rest().0, m.1));
                }
                let c0 = chars[0];
                *buf = chars;
                *pos = 1;
                let ghost r2 = a85_encoder_model(inner.rest());
                assert(a85_encoder_model(m).0.drop_first() =~= buf@.subrange(1, buf@.len() as int) + r2.0);
                Some(Ok(c0))
            } else {
                assert(m.0 =~= g@);
                let chars = ascii85_encode(g.as_slice());
                let c0 = chars[0];
                *buf = chars;
                *pos = 1;
                *ended = true;
                assert(a85_encoder_model(m).0.drop_first() =~= buf@.subrange(1, buf@.len() as int));
                Some(Ok(c0))
            }
        },
    }
}

/// An ASCII-85 encoder pulling from `inner`.
pub struct EncodeASCII85<S> {
    inner: S,
    buf: Vec<u8>,
    pos: usize,
    ended: bool,
    done: bool,
}

impl<S: ByteSource> EncodeASCII85<S> {
    pub fn new(inner: S) -> (r: Self)
        requires
            inner.inv(),
        ensures
            r.inv(),
            r.rest() == a85_encoder_model(inner.rest()),
    {
        let r = EncodeASCII85 { inner, buf: Vec::new(), pos: 0, ended: false, done: false };
        assert(r.buf@.subrange(0, 0) + a85_encoder_model(r.inner.rest()).0 =~= a85_encoder_model(r.inner.rest()).0);
        r
    }
}

impl<S: ByteSource> ByteSource for EncodeASCII85<S> {
    closed spec fn rest(&self) -> SourceModel {
        encoder_state(self.buf@, self.pos, self.ended, self.done, self.inner.rest())
    }

    closed spec fn inv(&self) -> bool {
        self.inner.inv() && self.pos <= self.buf@.len()
    }

    fn next_byte(&mut self) -> (r: Option<Result<u8, PdfError>>) {
        if self.done {
            return None;
        }
        if self.pos < self.buf.len() {
            let b = self.buf[self.pos];
            let ghost before = self.rest();
            self.pos = self.pos + 1;
            assert(self.buf@.subrange(self.pos - 1, self.buf@.len() as int).drop_first() =~= self.buf@.subrange(
                self.pos as int,
                self.buf@.len() as int,
            ));
            assert(before.0.drop_first() =~= self.rest().0);
            return Some(Ok(b));
        }
        assert(self.buf@.subrange(self.pos as int, self.buf@.len() as int) =~= Seq::<u8>::empty());
        if self.ended {
            self.done = true;
            return None;
        }
        let ghost m = self.inner.rest();
        assert(self.rest() == a85_encoder_model(m)) by {
            assert(Seq::<u8>::empty() + a85_encoder_model(m).0 =~= a85_encoder_model(m).0);
        }
        refill_encoder(&mut self.inner, &mut self.buf, &mut self.pos, &mut self.ended, &mut self.done)
    }
}

/// What an ASCII-85 decoder gives over whitespace-free data `t` that ends with `end`.
#[verifier::opaque]
pub open spec fn a85_stream(t: Seq<u8>, end: Option<PdfErrorKind>) -> SourceModel
    decreases t.len(),
{
    if t.len() == 0 {
        (Seq::empty(), Some(end_failure(end)))
    } else if t[0] == 0x7a {
        prepend(seq![0u8, 0u8, 0u8, 0u8], a85_stream(t.drop_first(), end))
    } else {
        let k = tilde_in(t, 0);
        if k < 0 {
            if t.len() < 5 {
                (Seq::empty(), Some(end_failure(end)))
            } else if !in_a85_range(t.subrange(0, 5)) || a85_value(t.subrange(0, 5)) >= 0x1_0000_0000 {
                (Seq::empty(), Some(PdfErrorKind::Filter(FilterError::ASCII85Decode)))
            } else {
                prepend(be_bytes(a85_value(t.subrange(0, 5))), a85_stream(t.subrange(5, t.len() as int), end))
            }
        } else if k + 1 >= t.len() {
            (Seq::empty(), Some(end_failure(end)))
        } else if t[k + 1] != 0x3e {
            (Seq::empty(), Some(PdfErrorKind::Filter(FilterError::MissingEOD)))
        } else if !in_a85_range(t.subrange(0, k)) {
            (Seq::empty(), Some(PdfErrorKind::Filter(FilterError::ASCII85Decode)))
        } else if k == 0 {
            (Seq::empty(), None)
        } else {
            let v = a85_value(pad_u(t.subrange(0, k)));
            if v >= 0x1_0000_0000 {
                (Seq::empty(), Some(PdfErrorKind::Filter(FilterError::ASCII85Decode)))
            } else {
                (be_bytes(v).subrange(0, k - 1), None)
            }
        }
    }
}

/// What the characters `c` that stand before a closing `~>` give.
pub open spec fn tilde_pure(c: Seq<u8>) -> SourceModel {
    if !in_a85_range(c) {
        (Seq::empty(), Some(PdfErrorKind::Filter(FilterError::ASCII85Decode)))
    } else if c.len() == 0 {
        (Seq::empty(), None)
    } else {
        let v = a85_value(pad_u(c));
        if v >= 0x1_0000_0000 {
            (Seq::empty(), Some(PdfErrorKind::Filter(FilterError::ASCII85Decode)))
        } else {
            (be_bytes(v).subrange(0, c.len() - 1), None)
        }
    }
}

/// What a group that ends in `~` at `k` gives.
pub open spec fn a85_tilde_result(t: Seq<u8>, end: Option<PdfErrorKind>, k: int) -> SourceModel {
    if k + 1 >= t.len() {
        (Seq::empty(), Some(end_failure(end)))
    } else if t[k + 1] != 0x3e {
        (Seq::empty(), Some(PdfErrorKind::Filter(FilterError::MissingEOD)))
    } else {
        tilde_pure(t.subrange(0, k))
    }
}

proof fn lemma_a85_stream_empty(t: Seq<u8>, end: Option<PdfErrorKind>)
    requires
        t.len() == 0,
    ensures
        a85_stream(t, end) == (Seq::<u8>::empty(), Some(end_failure(end))),
{
    reveal(a85_stream);
}

proof fn lemma_a85_stream_z(t: Seq<u8>, end: Option<PdfErrorKind>)
    requires
        t.len() > 0,
        t[0] == 0x7a,
    ensures
        a85_stream(t, end) == prepend(seq![0u8, 0u8, 0u8, 0u8], a85_stream(t.drop_first(), end)),
{
    reveal(a85_stream);
}

proof fn lemma_a85_stream_tilde(t: Seq<u8>, end: Option<PdfErrorKind>, k: int)
    requires
        t.len() > 0,
        t[0] != 0x7a,
        tilde_in(t, 0) == k,
        k >= 0,
    ensures
        a85_stream(t, end) == a85_tilde_result(t, end, k),
{
    reveal(a85_stream);
}

proof fn lemma_a85_stream_full(t: Seq<u8>, end: Option<PdfErrorKind>)
    requires
        t.len() > 0,
        t[0] != 0x7a,
        tilde_in(t, 0) == -1,
    ensures
        t.len() < 5 ==> a85_stream(t, end) == (Seq::<u8>::empty(), Some(end_failure(end))),
        t.len() >= 5 && (!in_a85_range(t.subrange(0, 5)) || a85_value(t.subrange(0, 5)) >= 0x1_0000_0000)
            ==> a85_stream(t, end) == (Seq::<u8>::empty(), Some(PdfErrorKind::Filter(FilterError::ASCII85Decode))),
        t.len() >= 5 && in_a85_range(t.subrange(0, 5)) && a85_value(t.subrange(0, 5)) < 0x1_0000_0000
            ==> a85_stream(t, end) == prepend(
            be_bytes(a85_value(t.subrange(0, 5))),
            a85_stream(t.subrange(5, t.len() as int), end),
        ),
{
    reveal(a85_stream);
}

/// The model of an ASCII-85 decoder from its buffer, position in it, flags and source.
pub open spec fn decoder_state(buf: Seq<u8>, pos: usize, ended: bool, done: bool, m: SourceModel) -> SourceModel {
    let pending = buf.subrange(pos as int, buf.len() as int);
    if done {
        (Seq::empty(), None)
    } else if ended {
        (pending, None)
    } else {
        prepend(pending, a85_stream(drop_ws(m.0), m.1))
    }
}

proof fn lemma_tilde_skip(t: Seq<u8>, a: int, b: int)
    requires
        0 <= a <= b <= 5,
        b <= t.len(),
        forall|q: int| a <= q < b ==> #[trigger] t[q] != 0x7e,
    ensures
        tilde_in(t, a) == tilde_in(t, b),
    decreases b - a,
{
    if a < b {
        lemma_tilde_skip(t, a + 1, b);
    }
}

/// Pulls the characters of one group after its first, `c`: up to five in all, stopping
/// after a `~`.
fn read_a85_group<S: ByteSource>(inner: &mut S, c: u8) -> (r: Result<Vec<u8>, PdfError>)
    requires
        old(inner).inv(),
    ensures
        final(inner).inv(),
        match r {
            Ok(g) => 1 <= g@.len() <= 5 && g@[0] == c && drop_ws(old(inner).rest().0) == g@.subrange(1, g@.len() as int) + drop_ws(final(inner).rest().0)
                && final(inner).rest().1 == old(inner).rest().1
                && (forall|q: int| 0 <= q < g@.len() - 1 ==> #[trigger] g@[q] != 0x7e)
                && (g@.len() < 5 && g@[g@.len() - 1] != 0x7e ==> drop_ws(final(inner).rest().0).len() == 0 && final(inner).rest().1 is None),
            Err(e) => drop_ws(old(inner).rest().0).len() < 4 && old(inner).rest().1 == Some(e.kind)
                && (forall|q: int| 0 <= q < drop_ws(old(inner).rest().0).len() ==> #[trigger] drop_ws(old(inner).rest().0)[q] != 0x7e)
                && c != 0x7e
                && final(inner).rest() == (Seq::<u8>::empty(), None::<PdfErrorKind>),
        },
{
    let mut g: Vec<u8> = Vec::new();
    g.push(c);
    let ghost t0 = drop_ws(inner.rest().0);
    assert(g@.subrange(1, 1) + t0 =~= t0);
    while g.len() < 5 && g[g.len() - 1] != 0x7e
        invariant
            inner.inv(),
            1 <= g@.len() <= 5,
            g@[0] == c,
            t0 == drop_ws(old(inner).rest().0),
            t0 == g@.subrange(1, g@.len() as int) + drop_ws(inner.rest().0),
            inner.rest().1 == old(inner).rest().1,
            forall|q: int| 0 <= q < g@.len() - 1 ==> #[trigger] g@[q] != 0x7e,
        decreases 5 - g@.len(),
    {
        let ghost before = inner.rest();
        let ghost gb = g@;
        match next_non_whitespace(inner) {
            Some(Ok(d)) => {
                g.push(d);
                assert(gb.subrange(1, gb.len() as int) + drop_ws(before.0) =~= g@.subrange(1, g@.len() as int) + drop_ws(inner.rest().0));
            },
            Some(Err(e)) => {
                assert(t0 =~= gb.subrange(1, gb.len() as int));
                assert forall|q: int| 0 <= q < t0.len() implies #[trigger] t0[q] != 0x7e by {
                    assert(t0[q] == gb[q + 1]);
                }
                return Err(e);
            },
            None => {
                return Ok(g);
            },
        }
    }
    Ok(g)
}

/// The first `k - 1` big-endian bytes of `v`.
fn leading_bytes(v: u64, k: usize) -> (r: Vec<u8>)
    requires
        v < 0x1_0000_0000,
        1 <= k <= 5,
    ensures
        r@ == be_bytes(v as int).subrange(0, k - 1),
{
    let mut out: Vec<u8> = Vec::new();
    let mut q: usize = 0;
    while q + 1 < k
        invariant
            0 <= q,
            q + 1 <= k,
            k <= 5,
            v < 0x1_0000_0000,
            out@ == be_bytes(v as int).subrange(0, q as int),
        decreases k - q,
    {
        let byte: u8 = if q == 0 {
            (v / 16777216 % 256) as u8
        } else if q == 1 {
            (v / 65536 % 256) as u8
        } else if q == 2 {
            (v / 256 % 256) as u8
        } else {
            (v % 256) as u8
        };
        assert(byte == be_bytes(v as int)[q as int]);
        out.push(byte);
        assert(be_bytes(v as int).subrange(0, q + 1) =~= be_bytes(v as int).subrange(0, q as int).push(byte));
        q = q + 1;
    }
    out
}

/// Ends a group `g` whose last character is `~`: `>` must follow, and the bytes of the
/// characters before `~` are what remains.
#[verifier::rlimit(100)]
fn finish_tilde_group<S: ByteSource>(
    inner: &mut S,
    g: Vec<u8>,
    buf: &mut Vec<u8>,
    pos: &mut usize,
    ended: &mut bool,
    done: &mut bool,
) -> (r: Option<Result<u8, PdfError>>)
    requires
        old(inner).inv(),
        1 <= g@.len() <= 5,
        g@[g@.len() - 1] == 0x7e,
        g@[0] != 0x7a,
        forall|q: int| 0 <= q < g@.len() - 1 ==> #[trigger] g@[q] != 0x7e,
        *old(pos) <= old(buf)@.len(),
        !*old(done),
        !*old(ended),
    ensures
        final(inner).inv(),
        *final(pos) <= final(buf)@.len(),
        pulled(
            a85_stream(g@ + drop_ws(old(inner).rest().0), old(inner).rest().1),
            r,
            decoder_state(final(buf)@, *final(pos), *final(ended), *final(done), final(inner).rest()),
        ),
{
    let ghost m = inner.rest();
    let ghost t = g@ + drop_ws(m.0);
    let n = g.len();
    let k = n - 1;
    assert(t[k as int] == 0x7e);
    assert(t[0] == g@[0]);
    assert forall|q: int| 0 <= q < k implies #[trigger] t[q] != 0x7e by {
        assert(t[q] == g@[q]);
    }
    proof {
        lemma_tilde_skip(t, 0, k as int);
        lemma_a85_stream_tilde(t, m.1, k as int);
    }
    assert(tilde_in(t, 0) == k);
    match next_non_whitespace(inner) {
        None => {
            *done = true;
            return Some(Err(PdfError::with_kind(PdfErrorKind::Filter(FilterError::MissingEOD))));
        },
        Some(Err(e)) => {
            *done = true;
            return Some(Err(e));
        },
        Some(Ok(d)) => {
            assert(t[k + 1] == d);
            if d != 0x3e {
                *done = true;
                return Some(Err(PdfError::with_kind(PdfErrorKind::Filter(FilterError::MissingEOD))));
            }
        },
    }
    assert(g@.subrange(0, k as int) =~= t.subrange(0, k as int));
    emit_tilde_output(g, k, buf, pos, ended, done)
}

/// Puts the bytes of the characters before `~` in the buffer and gives the first.
#[verifier::rlimit(100)]
fn emit_tilde_output(g: Vec<u8>, k: usize, buf: &mut Vec<u8>, pos: &mut usize, ended: &mut bool, done: &mut bool) -> (r: Option<
    Result<u8, PdfError>,
>)
    requires
        k < g@.len(),
        k <= 4,
        !*old(done),
        !*old(ended),
        *old(pos) <= old(buf)@.len(),
    ensures
        *final(pos) <= final(buf)@.len(),
        *final(done) || *final(ended),
        pulled(
            tilde_pure(g@.subrange(0, k as int)),
            r,
            decoder_state(final(buf)@, *final(pos), *final(ended), *final(done), (Seq::<u8>::empty(), None::<PdfErrorKind>)),
        ),
{
    match tilde_output(g.as_slice(), k) {
        Err(e) => {
            *done = true;
            Some(Err(e))
        },
        Ok(out) => {
            if out.len() == 0 {
                *done = true;
                assert(tilde_pure(g@.subrange(0, k as int)).0 =~= Seq::<u8>::empty());
                return None;
            }
            let b0 = out[0];
            *buf = out;
            *pos = 1;
            *ended = true;
            assert(tilde_pure(g@.subrange(0, k as int)).0.drop_first() =~= buf@.subrange(1, buf@.len() as int));
            Some(Ok(b0))
        },
    }
}

/// The bytes of the `k` characters of `g` that stand before its `~`.
fn tilde_output(g: &[u8], k: usize) -> (r: Result<Vec<u8>, PdfError>)
    requires
        k < g@.len(),
        k <= 4,
    ensures
        match r {
            Ok(out) => in_a85_range(g@.subrange(0, k as int)) && (k == 0 ==> out@.len() == 0) && (k > 0
                ==> a85_value(pad_u(g@.subrange(0, k as int))) < 0x1_0000_0000 && out@ == be_bytes(
                a85_value(pad_u(g@.subrange(0, k as int))),
            ).subrange(0, k - 1)),
            Err(e) => e.kind == PdfErrorKind::Filter(FilterError::ASCII85Decode) && (!in_a85_range(
                g@.subrange(0, k as int),
            ) || (k > 0 && a85_value(pad_u(g@.subrange(0, k as int))) >= 0x1_0000_0000)),
        },
{
    if !a85_range(g, 0, k) {
        return Err(PdfError::with_kind(PdfErrorKind::Filter(FilterError::ASCII85Decode)));
    }
    if k == 0 {
        return Ok(Vec::new());
    }
    let v = a85_value_at(g, 0, k);
    if v >= 0x1_0000_0000 {
        return Err(PdfError::with_kind(PdfErrorKind::Filter(FilterError::ASCII85Decode)));
    }
    Ok(leading_bytes(v, k))
}

/// Ends a group `g` without `~`: five characters give four bytes.
#[verifier::rlimit(100)]
fn finish_full_group<S: ByteSource>(
    inner: &S,
    g: Vec<u8>,
    buf: &mut Vec<u8>,
    pos: &mut usize,
    done: &mut bool,
) -> (r: Option<Result<u8, PdfError>>)
    requires
        inner.inv(),
        1 <= g@.len() <= 5,
        g@[0] != 0x7a,
        forall|q: int| 0 <= q < g@.len() ==> #[trigger] g@[q] != 0x7e,
        g@.len() < 5 ==> drop_ws(inner.rest().0).len() == 0 && inner.rest().1 is None,
        *old(pos) <= old(buf)@.len(),
        !*old(done),
    ensures
        *final(pos) <= final(buf)@.len(),
        pulled(
            a85_stream(g@ + drop_ws(inner.rest().0), inner.rest().1),
            r,
            decoder_state(final(buf)@, *final(pos), false, *final(done), inner.rest()),
        ),
{
    let ghost m = inner.rest();
    let ghost t = g@ + drop_ws(m.0);
    let n = g.len();
    assert(t[0] == g@[0]);
    assert forall|q: int| 0 <= q < n implies #[trigger] t[q] != 0x7e by {
        assert(t[q] == g@[q]);
    }
    if n < 5 {
        assert(t =~= g@);
        proof {
            lemma_tilde_skip(t, 0, n as int);
            lemma_a85_stream_full(t, m.1);
        }
        *done = true;
        return Some(Err(PdfError::with_kind(PdfErrorKind::Filter(FilterError::MissingEOD))));
    }
    proof {
        lemma_tilde_skip(t, 0, 5);
        lemma_a85_stream_full(t, m.1);
    }
    assert(t.subrange(0, 5) =~= g@);
    assert(g@.subrange(0, 5) =~= g@);
    if !a85_range(g.as_slice(), 0, 5) {
        *done = true;
        return Some(Err(PdfError::with_kind(PdfErrorKind::Filter(FilterError::ASCII85Decode))));
    }
    let v = a85_value_at(g.as_slice(), 0, 5);
    assert(pad_u(g@.subrange(0, 5)) =~= g@);
    if v >= 0x1_0000_0000 {
        *done = true;
        return Some(Err(PdfError::with_kind(PdfErrorKind::Filter(FilterError::ASCII85Decode))));
    }
    let mut out: Vec<u8> = Vec::new();
    out.push((v / 16777216 % 256) as u8);
    out.push((v / 65536 % 256) as u8);
    out.push((v / 256 % 256) as u8);
    out.push((v % 256) as u8);
    assert(out@ =~= be_bytes(v as int));
    assert(in_a85_range(t.subrange(0, 5)));
    assert(a85_value(t.subrange(0, 5)) == v);
    assert(t.subrange(5, t.len() as int) =~= drop_ws(m.0));
    assert(a85_stream(t, m.1) == prepend(be_bytes(v as int), a85_stream(drop_ws(m.0), m.1)));
    let b0 = out[0];
    *buf = out;
    *pos = 1;
    assert(a85_stream(t, m.1).0.drop_first() =~= buf@.subrange(1, 4) + a85_stream(drop_ws(m.0), m.1).0);
    Some(Ok(b0))
}

/// Reads the next group for an ASCII-85 decoder whose buffer is used up, and gives its
/// first byte.
fn refill_decoder<S: ByteSource>(
    inner: &mut S,
    buf: &mut Vec<u8>,
    pos: &mut usize,
    ended: &mut bool,
    done: &mut bool,
) -> (r: Option<Result<u8, PdfError>>)
    requires
        old(inner).inv(),
        !*old(ended),
        !*old(done),
        *old(pos) <= old(buf)@.len(),
    ensures
        final(inner).inv(),
        *final(pos) <= final(buf)@.len(),
        pulled(
            a85_stream(drop_ws(old(inner).rest().0), old(inner).rest().1),
            r,
            decoder_state(final(buf)@, *final(pos), *final(ended), *final(done), final(inner).rest()),
        ),
{
    let ghost m = inner.rest();
    let ghost t = drop_ws(m.0);
    let c = match next_non_whitespace(inner) {
        None => {
            *done = true;
            proof {
                lemma_a85_stream_empty(t, m.1);
            }
            return Some(Err(PdfError::with_kind(PdfErrorKind::Filter(FilterError::MissingEOD))));
        },
        Some(Err(e)) => {
            *done = true;
            proof {
                lemma_a85_stream_empty(t, m.1);
            }
            return Some(Err(e));
        },
        Some(Ok(c)) => c,
    };
    if c == 0x7a {
        proof {
            lemma_a85_stream_z(t, m.1);
        }
        let mut zeros: Vec<u8> = Vec::new();
        zeros.push(0);
        zeros.push(0);
        zeros.push(0);
        zeros.push(0);
        *buf = zeros;
        *pos = 1;
        assert(buf@ =~= seq![0u8, 0u8, 0u8, 0u8]);
        assert(a85_stream(t, m.1).0.drop_first() =~= buf@.subrange(1, 4) + a85_stream(drop_ws(inner.rest().0), m.1).0);
        return Some(Ok(0));
    }
    let ghost m1 = inner.rest();
    let g = match read_a85_group(inner, c) {
        Err(e) => {
            *done = true;
            proof {
                assert(t =~= seq![c] + drop_ws(m1.0));
                assert forall|q: int| 0 <= q < t.len() implies #[trigger] t[q] != 0x7e by {
                    if q > 0 {
                        assert(t[q] == drop_ws(m1.0)[q - 1]);
                    }
                }
                lemma_tilde_skip(t, 0, t.len() as int);
                assert(tilde_in(t, t.len() as int) == -1);
                lemma_a85_stream_full(t, m.1);
            }
            return Some(Err(e));
        },
        Ok(g) => g,
    };
    assert(t =~= seq![c] + t.drop_first());
    assert(g@ =~= seq![c] + g@.subrange(1, g@.len() as int));
    assert(t =~= g@ + drop_ws(inner.rest().0));
    if g[g.len() - 1] == 0x7e {
        finish_tilde_group(inner, g, buf, pos, ended, done)
    } else {
        finish_full_group(inner, g, buf, pos, done)
    }
}

/// An ASCII-85 decoder pulling from `inner`; whitespace is skipped.
pub struct DecodeASCII85<S> {
    inner: S,
    buf: Vec<u8>,
    pos: usize,
    ended: bool,
    done: bool,
}

impl<S: ByteSource> DecodeASCII85<S> {
    pub fn new(inner: S) -> (r: Self)
        requires
            inner.inv(),
        ensures
            r.inv(),
            r.rest() == a85_stream(drop_ws(inner.rest().0), inner.rest().1),
    {
        let r = DecodeASCII85 { inner, buf: Vec::new(), pos: 0, ended: false, done: false };
        let ghost m = a85_stream(drop_ws(r.inner.rest().0), r.inner.rest().1);
        assert(r.buf@.subrange(0, 0) + m.0 =~= m.0);
        r
    }
}

impl<S: ByteSource> ByteSource for DecodeASCII85<S> {
    closed spec fn rest(&self) -> SourceModel {
        decoder_state(self.buf@, self.pos, self.ended, self.done, self.inner.rest())
    }

    closed spec fn inv(&self) -> bool {
        self.inner.inv() && self.pos <= self.buf@.len()
    }

    fn next_byte(&mut self) -> (r: Option<Result<u8, PdfError>>) {
        if self.done {
            return None;
        }
        if self.pos < self.buf.len() {
            let b = self.buf[self.pos];
            let ghost before = self.rest();
            self.pos = self.pos + 1;
            assert(self.buf@.subrange(self.pos - 1, self.buf@.len() as int).drop_first() =~= self.buf@.subrange(
                self.pos as int,
                self.buf@.len() as int,
            ));
            assert(before.0.drop_first() =~= self.rest().0);
            return Some(Ok(b));
        }
        assert(self.buf@.subrange(self.pos as int, self.buf@.len() as int) =~= Seq::<u8>::empty());
        if self.ended {
            self.done = true;
            return None;
        }
        let ghost m = self.inner.rest();
        assert(self.rest() == a85_stream(drop_ws(m.0), m.1)) by {
            assert(Seq::<u8>::empty() + a85_stream(drop_ws(m.0), m.1).0 =~= a85_stream(drop_ws(m.0), m.1).0);
        }
        refill_decoder(&mut self.inner, &mut self.buf, &mut self.pos, &mut self.ended, &mut self.done)
    }
}

proof fn lemma_stream_tail(x: Seq<u8>)
    requires
        x.len() < 4,
    ensures
        a85_stream(a85_encode_body(x) + seq![0x7eu8, 0x3e], None) == (x, None::<PdfErrorKind>),
{
    let end = seq![0x7eu8, 0x3e];
    let t = a85_encode_body(x) + end;
    if x.len() == 0 {
        assert(t =~= end);
        assert(tilde_in(t, 0) == 0);
        lemma_a85_stream_tilde(t, None, 0);
        assert(t.subrange(0, 0) =~= Seq::<u8>::empty());
        assert(in_a85_range(Seq::<u8>::empty()));
        assert(x =~= Seq::<u8>::empty());
    } else {
        let n = x.len() as int;
        lemma_partial_group(x);
        let v0 = be_value(pad_zero(x));
        lemma_digits(v0);
        let g = a85_group(v0).subrange(0, n + 1);
        assert(t =~= g + end);
        assert(t[n + 1] == 0x7e);
        assert(t[n + 2] == 0x3e);
        assert(tilde_in(t, n + 1) == n + 1);
        if n >= 3 {
            assert(tilde_in(t, 3) == tilde_in(t, 4));
        }
        if n >= 2 {
            assert(tilde_in(t, 2) == tilde_in(t, 3));
        }
        assert(tilde_in(t, 1) == tilde_in(t, 2));
        assert(tilde_in(t, 0) == tilde_in(t, 1));
        assert(t.subrange(0, n + 1) =~= g);
        lemma_a85_stream_tilde(t, None, n + 1);
    }
}

proof fn lemma_stream_group(x: Seq<u8>)
    requires
        x.len() >= 4,
    ensures
        a85_stream(a85_encode_body(x) + seq![0x7eu8, 0x3e], None) == prepend(
            x.subrange(0, 4),
            a85_stream(a85_encode_body(x.subrange(4, x.len() as int)) + seq![0x7eu8, 0x3e], None),
        ),
{
    let v = be_value(x.subrange(0, 4));
    let rest = x.subrange(4, x.len() as int);
    let tail_t = a85_encode_body(rest) + seq![0x7eu8, 0x3e];
    let t = a85_encode_body(x) + seq![0x7eu8, 0x3e];
    if v == 0 {
        assert(x.subrange(0, 4) =~= seq![0u8, 0u8, 0u8, 0u8]);
        assert(t =~= seq![0x7au8] + tail_t);
        assert(t.drop_first() =~= tail_t);
        lemma_a85_stream_z(t, None);
    } else {
        lemma_group(v);
        lemma_digits(v);
        let g = a85_group(v);
        assert(t =~= g + tail_t);
        assert(tilde_in(t, 4) == tilde_in(t, 5));
        assert(tilde_in(t, 3) == tilde_in(t, 4));
        assert(tilde_in(t, 2) == tilde_in(t, 3));
        assert(tilde_in(t, 1) == tilde_in(t, 2));
        assert(tilde_in(t, 0) == -1);
        assert(t.subrange(0, 5) =~= g);
        assert(t.subrange(5, t.len() as int) =~= tail_t);
        lemma_a85_stream_full(t, None);
        lemma_be_bytes(v, x[0] as int, x[1] as int, x[2] as int, x[3] as int);
        assert(be_bytes(v) =~= x.subrange(0, 4));
    }
}

proof fn lemma_stream_encoded(x: Seq<u8>)
    ensures
        a85_stream(a85_encode_body(x) + seq![0x7eu8, 0x3e], None) == (x, None::<PdfErrorKind>),
    decreases x.len(),
{
    if x.len() < 4 {
        lemma_stream_tail(x);
    } else {
        let rest = x.subrange(4, x.len() as int);
        lemma_stream_group(x);
        lemma_stream_encoded(rest);
        assert(x.subrange(0, 4) + rest =~= x);
    }
}

/// An ASCII-85 decoder over an ASCII-85 encoder over a source that ends without failure
/// gives exactly the source's bytes, and ends without failure.
pub proof fn lemma_a85_chain(s: Seq<u8>)
    ensures
        a85_stream(drop_ws(a85_encoder_model((s, None)).0), a85_encoder_model((s, None)).1) == (
            s,
            None::<PdfErrorKind>,
        ),
{
    let e = a85_encoder_model((s, None)).0;
    let body = a85_encode_body(s);
    lemma_encode_chars(s);
    assert forall|k: int| 0 <= k < e.len() implies !spec_is_whitespace(#[trigger] e[k]) by {
        if k < body.len() {
            assert(e[k] == body[k]);
        }
    }
    lemma_drop_ws_none(e);
    lemma_stream_encoded(s);
}

} // verus!
