use vstd::prelude::*;

use crate::error::{PdfError, PdfErrorKind};
use crate::scan::{is_whitespace, spec_is_whitespace};

use crate::parsable::{reads, rest_from, Parsable};
use vstd::string::StringSliceAdditionalSpecFns;

verus! {

/// A real number as written in decimal: its sign, the digits before the dot without
/// leading zeros and the digits after it without trailing zeros (ASCII digits).
/// Zero is never negative, so two reals are equal exactly when their values are.
#[derive(Debug, PartialEq, Eq)]
pub struct PdfReal {
    negative: bool,
    whole: Vec<u8>,
    fraction: Vec<u8>,
}

/// A numeric object: a 32-bit integer or a real.
#[derive(Clone, Debug, PartialEq, Eq)]
pub enum PdfNumeric {
    PdfInt(i32),
    PdfReal(PdfReal),
}

/// What a numeric object stands for: an integer, or a real as
/// (negative, digits before the dot, digits after the dot).
pub enum NumericModel {
    Int(i32),
    Real(bool, Seq<u8>, Seq<u8>),
}

impl Clone for PdfReal {
    fn clone(&self) -> (r: PdfReal)
        ensures
            r@ == self@,
    {
        proof {
            use_type_invariant(self);
        }
        let whole = vstd::slice::slice_to_vec(self.whole.as_slice());
        let fraction = vstd::slice::slice_to_vec(self.fraction.as_slice());
        PdfReal { negative: self.negative, whole, fraction }
    }
}

impl View for PdfReal {
    type V = (bool, Seq<u8>, Seq<u8>);

    closed spec fn view(&self) -> (bool, Seq<u8>, Seq<u8>) {
        (self.negative, self.whole@, self.fraction@)
    }
}

impl View for PdfNumeric {
    type V = NumericModel;

    open spec fn view(&self) -> NumericModel {
        match self {
            PdfNumeric::PdfInt(v) => NumericModel::Int(*v),
            PdfNumeric::PdfReal(r) => NumericModel::Real(r@.0, r@.1, r@.2),
        }
    }
}

pub open spec fn spec_is_digit(c: u8) -> bool {
    0x30 <= c <= 0x39
}

pub open spec fn all_digits(t: Seq<u8>) -> bool {
    forall|k: int| 0 <= k < t.len() ==> spec_is_digit(#[trigger] t[k])
}

/// The first position at or after `i` that holds whitespace, or the length.
pub open spec fn find_ws(s: Seq<u8>, i: int) -> int
    decreases s.len() - i,
{
    if 0 <= i < s.len() && !spec_is_whitespace(s[i]) {
        find_ws(s, i + 1)
    } else {
        i
    }
}

/// 1 when the token starts with `+` or `-`, else 0.
pub open spec fn sign_len(t: Seq<u8>) -> int {
    if t.len() > 0 && (t[0] == 0x2b || t[0] == 0x2d) {
        1
    } else {
        0
    }
}

pub open spec fn digits_value(t: Seq<u8>) -> int
    decreases t.len(),
{
    if t.len() == 0 {
        0
    } else {
        digits_value(t.drop_last()) * 10 + (t.last() - 0x30)
    }
}

/// `[+-]?[0-9]+`
pub open spec fn is_int_token(t: Seq<u8>) -> bool {
    t.len() > sign_len(t) && all_digits(t.subrange(sign_len(t), t.len() as int))
}

pub open spec fn int_token_value(t: Seq<u8>) -> int {
    let m = digits_value(t.subrange(sign_len(t), t.len() as int));
    if sign_len(t) == 1 && t[0] == 0x2d {
        -m
    } else {
        m
    }
}

/// The first position at or after `k` that holds a dot, or the length.
pub open spec fn dot_index(t: Seq<u8>, k: int) -> int
    decreases t.len() - k,
{
    if 0 <= k < t.len() && t[k] != 0x2e {
        dot_index(t, k + 1)
    } else {
        k
    }
}

/// `[+-]?([0-9]+\.[0-9]*|\.[0-9]+)`
pub open spec fn is_real_token(t: Seq<u8>) -> bool {
    let d = sign_len(t);
    let p = dot_index(t, d);
    &&& p < t.len()
    &&& all_digits(t.subrange(d, p))
    &&& all_digits(t.subrange(p + 1, t.len() as int))
    &&& (p > d || t.len() > p + 1)
}

pub open spec fn trim_leading_zeros(t: Seq<u8>) -> Seq<u8>
    decreases t.len(),
{
    if t.len() > 0 && t[0] == 0x30 {
        trim_leading_zeros(t.drop_first())
    } else {
        t
    }
}

pub open spec fn trim_trailing_zeros(t: Seq<u8>) -> Seq<u8>
    decreases t.len(),
{
    if t.len() > 0 && t.last() == 0x30 {
        trim_trailing_zeros(t.drop_last())
    } else {
        t
    }
}

pub open spec fn real_token_model(t: Seq<u8>) -> NumericModel {
    let d = sign_len(t);
    let p = dot_index(t, d);
    let w = trim_leading_zeros(t.subrange(d, p));
    let f = trim_trailing_zeros(t.subrange(p + 1, t.len() as int));
    NumericModel::Real(d == 1 && t[0] == 0x2d && (w.len() > 0 || f.len() > 0), w, f)
}

/// What a whole token stands for: an integer when it is one and fits in 32 bits,
/// else a real when it is written as one, else nothing.
pub open spec fn spec_numeric_token(t: Seq<u8>) -> Result<NumericModel, PdfErrorKind> {
    if is_int_token(t) && i32::MIN <= int_token_value(t) <= i32::MAX {
        Ok(NumericModel::Int(int_token_value(t) as i32))
    } else if is_real_token(t) {
        Ok(real_token_model(t))
    } else {
        Err(PdfErrorKind::Parse)
    }
}

/// A number read at `i`: the token runs up to the first whitespace.
pub open spec fn spec_parse_numeric(s: Seq<u8>, i: int) -> Result<(NumericModel, int), PdfErrorKind> {
    let e = find_ws(s, i);
    match spec_numeric_token(s.subrange(i, e)) {
        Ok(m) => Ok((m, e)),
        Err(k) => Err(k),
    }
}

pub proof fn lemma_digits_value_nonneg(t: Seq<u8>)
    requires
        all_digits(t),
    ensures
        digits_value(t) >= 0,
    decreases t.len(),
{
    if t.len() > 0 {
        assert(all_digits(t.drop_last()));
        lemma_digits_value_nonneg(t.drop_last());
    }
}

pub proof fn lemma_find_ws_bounds(s: Seq<u8>, i: int)
    requires
        0 <= i <= s.len(),
    ensures
        i <= find_ws(s, i) <= s.len(),
        forall|k: int| i <= k < find_ws(s, i) ==> !spec_is_whitespace(#[trigger] s[k]),
    decreases s.len() - i,
{
    if i < s.len() && !spec_is_whitespace(s[i]) {
        lemma_find_ws_bounds(s, i + 1);
    }
}

proof fn lemma_dot_index_bounds(t: Seq<u8>, k: int)
    requires
        0 <= k <= t.len(),
    ensures
        k <= dot_index(t, k) <= t.len(),
        dot_index(t, k) < t.len() ==> t[dot_index(t, k)] == 0x2e,
        forall|q: int| k <= q < dot_index(t, k) ==> #[trigger] t[q] != 0x2e,
    decreases t.len() - k,
{
    if k < t.len() && t[k] != 0x2e {
        lemma_dot_index_bounds(t, k + 1);
    }
}

impl PdfReal {
    /// Digits only, no leading zero before the dot, no trailing zero after it, and zero is
    /// not negative.
    #[verifier::type_invariant]
    spec fn normal(&self) -> bool {
        &&& all_digits(self.whole@)
        &&& all_digits(self.fraction@)
        &&& (self.whole@.len() > 0 ==> self.whole@[0] != 0x30)
        &&& (self.fraction@.len() > 0 ==> self.fraction@.last() != 0x30)
        &&& (self.negative ==> self.whole@.len() > 0 || self.fraction@.len() > 0)
    }

    /// Whether the real is below zero (zero never is).
    pub fn is_negative(&self) -> (r: bool)
        ensures
            r == self@.0,
            r ==> self@.1.len() > 0 || self@.2.len() > 0,
    {
        proof {
            use_type_invariant(self);
        }
        self.negative
    }

    /// The digits before the dot, without leading zeros.
    pub fn whole_digits(&self) -> (r: &[u8])
        ensures
            r@ == self@.1,
            all_digits(r@),
            r@.len() > 0 ==> r@[0] != 0x30,
    {
        proof {
            use_type_invariant(self);
        }
        self.whole.as_slice()
    }

    /// The digits after the dot, without trailing zeros.
    pub fn fraction_digits(&self) -> (r: &[u8])
        ensures
            r@ == self@.2,
            all_digits(r@),
            r@.len() > 0 ==> r@.last() != 0x30,
    {
        proof {
            use_type_invariant(self);
        }
        self.fraction.as_slice()
    }
}

/// Whether every byte of `t` in `[a, b)` is a decimal digit.
fn digits_between(t: &[u8], a: usize, b: usize) -> (r: bool)
    requires
        a <= b <= t@.len(),
    ensures
        r == all_digits(t@.subrange(a as int, b as int)),
{
    let mut k: usize = a;
    while k < b
        invariant
            a <= k <= b <= t@.len(),
            forall|q: int| a <= q < k ==> spec_is_digit(#[trigger] t@[q]),
        decreases b - k,
    {
        if !(0x30 <= t[k] && t[k] <= 0x39) {
            assert(!spec_is_digit(t@.subrange(a as int, b as int)[k - a]));
            return false;
        }
        k = k + 1;
    }
    assert(forall|q: int|
        0 <= q < b - a ==> #[trigger] t@.subrange(a as int, b as int)[q] == t@[a + q]);
    true
}

/// Classifies a whole token, see `spec_numeric_token`.
fn numeric_token(t: &[u8]) -> (r: Result<PdfNumeric, PdfError>)
    ensures
        match r {
            Ok(v) => spec_numeric_token(t@) == Ok::<NumericModel, PdfErrorKind>(v@),
            Err(err) => spec_numeric_token(t@) == Err::<NumericModel, PdfErrorKind>(err.kind),
        },
{
    let n = t.len();
    let d: usize = if n > 0 && (t[0] == 0x2b || t[0] == 0x2d) {
        1
    } else {
        0
    };
    let negative = d == 1 && t[0] == 0x2d;
    if n > d && digits_between(t, d, n) {
        // magnitude, exact until it passes 2^31
        let mut mag: u64 = 0;
        let mut big = false;
        let mut k: usize = d;
        while k < n
            invariant
                d <= k <= n,
                n == t@.len(),
                all_digits(t@.subrange(d as int, n as int)),
                !big ==> mag == digits_value(t@.subrange(d as int, k as int)),
                !big ==> mag <= 2147483648u64 * 10 + 9,
                big ==> digits_value(t@.subrange(d as int, k as int)) > 2147483648,
            decreases n - k,
        {
            let ghost prev = t@.subrange(d as int, k as int);
            let ghost next = t@.subrange(d as int, k + 1);
            assert(next.drop_last() =~= prev);
            assert(t@.subrange(d as int, n as int)[k - d] == t@[k as int]);
            proof {
                assert(all_digits(prev)) by {
                    assert forall|q: int| 0 <= q < prev.len() implies spec_is_digit(#[trigger] prev[q]) by {
                        assert(prev[q] == t@.subrange(d as int, n as int)[q]);
                    }
                }
                lemma_digits_value_nonneg(prev);
            }
            if !big {
                if mag > 2147483648 {
                    big = true;
                } else {
                    mag = mag * 10 + (t[k] - 0x30) as u64;
                }
            }
            k = k + 1;
        }
        assert(t@.subrange(d as int, k as int) =~= t@.subrange(sign_len(t@), t@.len() as int));
        if !big {
            if negative && mag <= 2147483648 {
                let v: i32 = if mag == 2147483648 {
                    -2147483647i32 - 1
                } else {
                    -(mag as i32)
                };
                return Ok(PdfNumeric::PdfInt(v));
            }
            if !negative && mag <= 2147483647 {
                return Ok(PdfNumeric::PdfInt(mag as i32));
            }
        }
        // an integer that does not fit is not a real either: it has no dot
        proof {
            lemma_dot_index_bounds(t@, d as int);
            if dot_index(t@, d as int) < t@.len() {
                let p = dot_index(t@, d as int);
                assert(t@.subrange(d as int, n as int)[p - d] == t@[p]);
            }
        }
        return Err(PdfError::parse_error());
    }
    // a real: find the dot
    let mut p: usize = d;
    while p < n && t[p] != 0x2e
        invariant
            d <= p <= n,
            n == t@.len(),
            dot_index(t@, p as int) == dot_index(t@, d as int),
        decreases n - p,
    {
        p = p + 1;
    }
    if p >= n || !digits_between(t, d, p) || !digits_between(t, p + 1, n) || !(p > d || n > p + 1) {
        return Err(PdfError::parse_error());
    }
    let mut w: usize = d;
    while w < p && t[w] == 0x30
        invariant
            d <= w <= p < n,
            n == t@.len(),
            trim_leading_zeros(t@.subrange(w as int, p as int)) == trim_leading_zeros(
                t@.subrange(d as int, p as int),
            ),
        decreases p - w,
    {
        assert(t@.subrange(w as int, p as int).drop_first() =~= t@.subrange(w + 1, p as int));
        w = w + 1;
    }
    let mut f: usize = n;
    while f > p + 1 && t[f - 1] == 0x30
        invariant
            p + 1 <= f <= n,
            n == t@.len(),
            trim_trailing_zeros(t@.subrange(p + 1, f as int)) == trim_trailing_zeros(
                t@.subrange(p + 1, n as int),
            ),
        decreases f,
    {
        assert(t@.subrange(p + 1, f as int).drop_last() =~= t@.subrange(p + 1, f - 1));
        f = f - 1;
    }
    let whole = vstd::slice::slice_to_vec(vstd::slice::slice_subrange(t, w, p));
    let fraction = vstd::slice::slice_to_vec(vstd::slice::slice_subrange(t, p + 1, f));
    assert(all_digits(whole@)) by {
        assert forall|q: int| 0 <= q < whole@.len() implies spec_is_digit(#[trigger] whole@[q]) by {
            assert(whole@[q] == t@.subrange(d as int, p as int)[w - d + q]);
        }
    }
    assert(all_digits(fraction@)) by {
        assert forall|q: int| 0 <= q < fraction@.len() implies spec_is_digit(#[trigger] fraction@[q]) by {
            assert(fraction@[q] == t@.subrange(p + 1, n as int)[q]);
        }
    }
    assert(trim_leading_zeros(t@.subrange(w as int, p as int)) == t@.subrange(w as int, p as int));
    assert(trim_trailing_zeros(t@.subrange(p + 1, f as int)) == t@.subrange(p + 1, f as int));
    let r = PdfReal {
        negative: negative && (whole.len() > 0 || fraction.len() > 0),
        whole,
        fraction,
    };
    Ok(PdfNumeric::PdfReal(r))
}

/// The position of the first whitespace byte of `b` at or after `i`, or its length.
pub fn token_end(b: &[u8], i: usize) -> (r: usize)
    requires
        i <= b@.len(),
    ensures
        r == find_ws(b@, i as int),
        i <= r <= b@.len(),
{
    let mut e: usize = i;
    while e < b.len() && !is_whitespace(b[e])
        invariant
            i <= e <= b@.len(),
            find_ws(b@, e as int) == find_ws(b@, i as int),
        decreases b@.len() - e,
    {
        e = e + 1;
    }
    e
}

impl PdfNumeric {
    /// Reads a number at position `i` of `b`: the bytes up to the first whitespace.
    pub fn parse_at(b: &[u8], i: usize) -> (r: Result<(PdfNumeric, usize), PdfError>)
        requires
            i <= b@.len(),
        ensures
            match r {
                Ok((v, e)) => spec_parse_numeric(b@, i as int) == Ok::<(NumericModel, int), PdfErrorKind>(
                    (v@, e as int),
                ) && i < e <= b@.len(),
                Err(err) => spec_parse_numeric(b@, i as int) == Err::<
                    (NumericModel, int),
                    PdfErrorKind,
                >(err.kind),
            },
    {
        let e = token_end(b, i);
        let t = vstd::slice::slice_subrange(b, i, e);
        match numeric_token(t) {
            Ok(v) => {
                proof {
                    if e == i {
                        assert(t@.len() == 0);
                    }
                }
                Ok((v, e))
            },
            Err(err) => Err(err),
        }
    }
}

impl PdfNumeric {
    /// The number whose whole text is `t`.
    pub fn from_text(t: &[u8]) -> (r: Result<PdfNumeric, PdfError>)
        ensures
            match r {
                Ok(v) => spec_numeric_token(t@) == Ok::<NumericModel, PdfErrorKind>(v@),
                Err(err) => spec_numeric_token(t@) == Err::<NumericModel, PdfErrorKind>(err.kind),
            },
    {
        numeric_token(t)
    }
}

impl std::str::FromStr for PdfNumeric {
    type Err = PdfError;

    fn from_str(s: &str) -> (r: Result<PdfNumeric, PdfError>)
        ensures
            match r {
                Ok(v) => spec_numeric_token(s.spec_bytes()) == Ok::<NumericModel, PdfErrorKind>(v@),
                Err(err) => spec_numeric_token(s.spec_bytes()) == Err::<NumericModel, PdfErrorKind>(err.kind),
            },
    {
        PdfNumeric::from_text(s.as_bytes())
    }
}

impl Parsable for PdfNumeric {
    fn from_bytes(bytes: &[u8]) -> (r: Result<(PdfNumeric, &[u8]), PdfError>)
        ensures
            match r {
                Ok((v, rest)) => reads(spec_parse_numeric(bytes@, 0), bytes@, v@, rest@),
                Err(err) => spec_parse_numeric(bytes@, 0) == Err::<(NumericModel, int), PdfErrorKind>(err.kind),
            },
    {
        match PdfNumeric::parse_at(bytes, 0) {
            Ok((v, e)) => Ok((v, rest_from(bytes, e))),
            Err(err) => Err(err),
        }
    }
}

/// The value of a token of decimal digits, when it is one and fits in `u64`.
pub fn digits_u64(t: &[u8]) -> (r: Option<u64>)
    ensures
        r == (if t@.len() > 0 && all_digits(t@) && digits_value(t@) <= u64::MAX {
            Some(digits_value(t@) as u64)
        } else {
            None::<u64>
        }),
        r matches Some(v) ==> v as int == digits_value(t@),
{
    let n = t.len();
    if n == 0 {
        return None;
    }
    let mut mag: u64 = 0;
    let mut fits = true;
    let mut k: usize = 0;
    while k < n
        invariant
            0 <= k <= n,
            n == t@.len(),
            fits ==> mag == digits_value(t@.subrange(0, k as int)),
            !fits ==> digits_value(t@.subrange(0, k as int)) > u64::MAX,
            all_digits(t@.subrange(0, k as int)),
        decreases n - k,
    {
        let c = t[k];
        if !(0x30 <= c && c <= 0x39) {
            assert(!all_digits(t@)) by {
                assert(!spec_is_digit(t@[k as int]));
            }
            return None;
        }
        let ghost prev = t@.subrange(0, k as int);
        let ghost next = t@.subrange(0, k + 1);
        assert(next.drop_last() =~= prev);
        proof {
            lemma_digits_value_nonneg(prev);
        }
        assert(all_digits(next)) by {
            assert forall|q: int| 0 <= q < next.len() implies spec_is_digit(#[trigger] next[q]) by {
                if q < k {
                    assert(next[q] == prev[q]);
                }
            }
        }
        if fits {
            match mag.checked_mul(10) {
                Some(m) => match m.checked_add((c - 0x30) as u64) {
                    Some(v) => {
                        mag = v;
                    },
                    None => {
                        fits = false;
                    },
                },
                None => {
                    fits = false;
                },
            }
        }
        k = k + 1;
    }
    assert(t@.subrange(0, n as int) =~= t@);
    proof {
        lemma_digits_value_nonneg(t@);
    }
    if fits {
        Some(mag)
    } else {
        None
    }
}

/// A token without whitespace reads as an integer exactly when it is `[+-]?[0-9]+` and
/// fits in 32 bits; otherwise as a real exactly when it is `[+-]?([0-9]+\.[0-9]*|\.[0-9]+)`;
/// otherwise it is refused. The whole token is consumed.
pub proof fn lemma_numeric_classification(t: Seq<u8>)
    requires
        forall|k: int| 0 <= k < t.len() ==> !spec_is_whitespace(#[trigger] t[k]),
    ensures
        is_int_token(t) && i32::MIN <= int_token_value(t) <= i32::MAX ==> spec_parse_numeric(t, 0)
            == Ok::<(NumericModel, int), PdfErrorKind>(
            (NumericModel::Int(int_token_value(t) as i32), t.len() as int),
        ),
        !(is_int_token(t) && i32::MIN <= int_token_value(t) <= i32::MAX) && is_real_token(t)
            ==> spec_parse_numeric(t, 0) == Ok::<(NumericModel, int), PdfErrorKind>(
            (real_token_model(t), t.len() as int),
        ) && real_token_model(t) is Real,
        !(is_int_token(t) && i32::MIN <= int_token_value(t) <= i32::MAX) && !is_real_token(t)
            ==> spec_parse_numeric(t, 0) == Err::<(NumericModel, int), PdfErrorKind>(PdfErrorKind::Parse),
{
    lemma_find_ws_all(t, 0);
    assert(t.subrange(0, t.len() as int) =~= t);
}

proof fn lemma_find_ws_all(t: Seq<u8>, i: int)
    requires
        0 <= i <= t.len(),
        forall|k: int| 0 <= k < t.len() ==> !spec_is_whitespace(#[trigger] t[k]),
    ensures
        find_ws(t, i) == t.len(),
    decreases t.len() - i,
{
    if i < t.len() {
        lemma_find_ws_all(t, i + 1);
    }
}

} // verus!
