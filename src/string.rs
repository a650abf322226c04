use vstd::prelude::*;

use crate::error::{PdfError, PdfErrorKind};
use crate::name::{hex_digit_value, spec_hex_value, spec_is_hex_digit};
use crate::scan::{is_whitespace, spec_is_whitespace};

use crate::parsable::{reads, rest_from, Parsable};
use vstd::string::StringSliceAdditionalSpecFns;

verus! {

/// A PDF string: raw bytes, no encoding assumed.
#[derive(Clone, Debug, PartialEq, Eq)]
pub struct PdfString {
    data: Vec<u8>,
}

impl View for PdfString {
    type V = Seq<u8>;

    closed spec fn view(&self) -> Seq<u8> {
        self.data@
    }
}

pub open spec fn spec_is_octal_digit(c: u8) -> bool {
    0x30 <= c <= 0x37
}

/// The byte that `\` followed by `e` stands for, for the one-letter escapes.
pub open spec fn spec_escape(e: u8) -> Option<u8> {
    if e == 0x6e {
        Some(0x0a)
    } else if e == 0x72 {
        Some(0x0d)
    } else if e == 0x74 {
        Some(0x09)
    } else if e == 0x62 {
        Some(0x08)
    } else if e == 0x66 {
        Some(0xff)
    } else if e == 0x5c || e == 0x28 || e == 0x29 {
        Some(e)
    } else {
        None
    }
}

/// How many octal digits an escape starting at `p` takes: as many as stand there, up to three.
pub open spec fn octal_len(s: Seq<u8>, p: int) -> int {
    if p + 1 < s.len() && spec_is_octal_digit(s[p + 1]) {
        if p + 2 < s.len() && spec_is_octal_digit(s[p + 2]) {
            3
        } else {
            2
        }
    } else {
        1
    }
}

/// The value of the `k` octal digits at `p`.
pub open spec fn octal_value(s: Seq<u8>, p: int, k: int) -> int
    decreases k,
{
    if k <= 0 {
        0
    } else {
        octal_value(s, p, k - 1) * 8 + (s[p + k - 1] - 0x30)
    }
}

/// The content of a literal string from position `i` on, at parenthesis depth `depth`,
/// appended to `acc`, with the position just past the closing parenthesis.
pub open spec fn literal_body(s: Seq<u8>, i: int, depth: int, acc: Seq<u8>) -> Result<
    (Seq<u8>, int),
    PdfErrorKind,
>
    decreases s.len() - i,
{
    if i < 0 || i >= s.len() {
        Err(PdfErrorKind::Parse)
    } else {
        let c = s[i];
        if c == 0x29 {
            if depth <= 1 {
                Ok((acc, i + 1))
            } else {
                literal_body(s, i + 1, depth - 1, acc.push(c))
            }
        } else if c == 0x28 {
            literal_body(s, i + 1, depth + 1, acc.push(c))
        } else if c == 0x0d {
            let next = if i + 1 < s.len() && s[i + 1] == 0x0a {
                i + 2
            } else {
                i + 1
            };
            literal_body(s, next, depth, acc.push(0x0a))
        } else if c == 0x0a {
            literal_body(s, i + 1, depth, acc.push(0x0a))
        } else if c == 0x5c {
            if i + 1 >= s.len() {
                Err(PdfErrorKind::Parse)
            } else {
                let e = s[i + 1];
                if spec_escape(e) is Some {
                    literal_body(s, i + 2, depth, acc.push(spec_escape(e)->Some_0))
                } else if e == 0x0d {
                    let next = if i + 2 < s.len() && s[i + 2] == 0x0a {
                        i + 3
                    } else {
                        i + 2
                    };
                    literal_body(s, next, depth, acc)
                } else if e == 0x0a {
                    literal_body(s, i + 2, depth, acc)
                } else if spec_is_octal_digit(e) {
                    let k = octal_len(s, i + 1);
                    let v = octal_value(s, i + 1, k);
                    if v > 255 {
                        Err(PdfErrorKind::Parse)
                    } else {
                        literal_body(s, i + 1 + k, depth, acc.push(v as u8))
                    }
                } else {
                    literal_body(s, i + 2, depth, acc.push(e))
                }
            }
        } else {
            literal_body(s, i + 1, depth, acc.push(c))
        }
    }
}

/// The content of a hex string from position `i` on; `pending` is a high digit read
/// without its low digit.
pub open spec fn hex_body(s: Seq<u8>, i: int, pending: Option<u8>, acc: Seq<u8>) -> Result<
    (Seq<u8>, int),
    PdfErrorKind,
>
    decreases s.len() - i,
{
    if i < 0 || i >= s.len() {
        Err(PdfErrorKind::Parse)
    } else {
        let c = s[i];
        if c == 0x3e {
            match pending {
                Some(h) => Ok((acc.push((h * 16) as u8), i + 1)),
                None => Ok((acc, i + 1)),
            }
        } else if spec_is_whitespace(c) {
            hex_body(s, i + 1, pending, acc)
        } else if spec_is_hex_digit(c) {
            match pending {
                None => hex_body(s, i + 1, Some(spec_hex_value(c) as u8), acc),
                Some(h) => hex_body(s, i + 1, None, acc.push((h * 16 + spec_hex_value(c)) as u8)),
            }
        } else {
            Err(PdfErrorKind::Parse)
        }
    }
}

/// A string read at position `i`: `(...)` or `<...>`.
pub open spec fn spec_parse_string(s: Seq<u8>, i: int) -> Result<(Seq<u8>, int), PdfErrorKind> {
    if 0 <= i < s.len() && s[i] == 0x28 {
        literal_body(s, i + 1, 1, Seq::empty())
    } else if 0 <= i < s.len() && s[i] == 0x3c {
        hex_body(s, i + 1, None, Seq::empty())
    } else {
        Err(PdfErrorKind::Parse)
    }
}

impl PdfString {
    pub fn from_raw_bytes(bytes: &[u8]) -> (r: Self)
        ensures
            r@ == bytes@,
    {
        PdfString { data: vstd::slice::slice_to_vec(bytes) }
    }

    pub fn len(&self) -> (r: usize)
        ensures
            r == self@.len(),
    {
        self.data.len()
    }

    pub fn bytes(&self) -> (r: &[u8])
        ensures
            r@ == self@,
    {
        self.data.as_slice()
    }

    fn parse_literal_at(b: &[u8], i: usize) -> (r: Result<(PdfString, usize), PdfError>)
        requires
            i < b@.len(),
            b@[i as int] == 0x28,
        ensures
            match r {
                Ok((v, e)) => spec_parse_string(b@, i as int) == Ok::<(Seq<u8>, int), PdfErrorKind>(
                    (v@, e as int),
                ) && i < e <= b@.len(),
                Err(err) => spec_parse_string(b@, i as int) == Err::<(Seq<u8>, int), PdfErrorKind>(
                    err.kind,
                ),
            },
    {
        let n = b.len();
        let mut data: Vec<u8> = Vec::new();
        let mut depth: usize = 1;
        let mut j: usize = i + 1;
        while j < b.len()
            invariant
                i < j <= b@.len(),
                n == b@.len(),
                1 <= depth <= j,
                b@[i as int] == 0x28,
                literal_body(b@, j as int, depth as int, data@) == literal_body(
                    b@,
                    i + 1,
                    1,
                    Seq::empty(),
                ),
            decreases b@.len() - j,
        {
            let c = b[j];
            if c == 0x29 {
                if depth <= 1 {
                    return Ok((PdfString { data }, j + 1));
                }
                depth = depth - 1;
                data.push(c);
                j = j + 1;
            } else if c == 0x28 {
                depth = depth + 1;
                data.push(c);
                j = j + 1;
            } else if c == 0x0d {
                data.push(0x0a);
                if b.len() - j > 1 && b[j + 1] == 0x0a {
                    j = j + 2;
                } else {
                    j = j + 1;
                }
            } else if c == 0x0a {
                data.push(0x0a);
                j = j + 1;
            } else if c == 0x5c {
                if b.len() - j <= 1 {
                    return Err(PdfError::parse_error());
                }
                let e = b[j + 1];
                let simple: Option<u8> = if e == 0x6e {
                    Some(0x0a)
                } else if e == 0x72 {
                    Some(0x0d)
                } else if e == 0x74 {
                    Some(0x09)
                } else if e == 0x62 {
                    Some(0x08)
                } else if e == 0x66 {
                    Some(0xff)
                } else if e == 0x5c || e == 0x28 || e == 0x29 {
                    Some(e)
                } else {
                    None
                };
                match simple {
                    Some(v) => {
                        data.push(v);
                        j = j + 2;
                    },
                    None => {
                        if e == 0x0d {
                            if b.len() - j > 2 && b[j + 2] == 0x0a {
                                j = j + 3;
                            } else {
                                j = j + 2;
                            }
                        } else if e == 0x0a {
                            j = j + 2;
                        } else if 0x30 <= e && e <= 0x37 {
                            let p: usize = j + 1;
                            let k: usize = if b.len() - p > 1 && 0x30 <= b[p + 1] && b[p + 1]
                                <= 0x37 {
                                if b.len() - p > 2 && 0x30 <= b[p + 2] && b[p + 2] <= 0x37 {
                                    3
                                } else {
                                    2
                                }
                            } else {
                                1
                            };
                            let mut v: u32 = 0;
                            let mut t: usize = 0;
                            while t < k
                                invariant
                                    0 <= t <= k <= 3,
                                    p + k <= b@.len(),
                                    n == b@.len(),
                                    forall|q: int| p <= q < p + k ==> spec_is_octal_digit(#[trigger] b@[q]),
                                    v == octal_value(b@, p as int, t as int),
                                    v <= (if t == 0 { 0int } else if t == 1 { 7int } else if t == 2 { 63int } else { 511int }),
                                decreases k - t,
                            {
                                v = v * 8 + (b[p + t] - 0x30) as u32;
                                t = t + 1;
                            }
                            if v > 255 {
                                return Err(PdfError::parse_error());
                            }
                            data.push(v as u8);
                            j = p + k;
                        } else {
                            data.push(e);
                            j = j + 2;
                        }
                    },
                }
            } else {
                data.push(c);
                j = j + 1;
            }
        }
        Err(PdfError::parse_error())
    }

    fn parse_hex_at(b: &[u8], i: usize) -> (r: Result<(PdfString, usize), PdfError>)
        requires
            i < b@.len(),
            b@[i as int] == 0x3c,
        ensures
            match r {
                Ok((v, e)) => spec_parse_string(b@, i as int) == Ok::<(Seq<u8>, int), PdfErrorKind>(
                    (v@, e as int),
                ) && i < e <= b@.len(),
                Err(err) => spec_parse_string(b@, i as int) == Err::<(Seq<u8>, int), PdfErrorKind>(
                    err.kind,
                ),
            },
    {
        let n = b.len();
        let mut data: Vec<u8> = Vec::new();
        let mut pending: Option<u8> = None;
        let mut j: usize = i + 1;
        while j < b.len()
            invariant
                i < j <= b@.len(),
                b@[i as int] == 0x3c,
                pending matches Some(h) ==> h < 16,
                hex_body(b@, j as int, pending, data@) == hex_body(b@, i + 1, None, Seq::empty()),
            decreases b@.len() - j,
        {
            let c = b[j];
            if c == 0x3e {
                match pending {
                    Some(h) => data.push(h * 16),
                    None => {},
                }
                return Ok((PdfString { data }, j + 1));
            } else if is_whitespace(c) {
                j = j + 1;
            } else {
                match hex_digit_value(c) {
                    Some(v) => {
                        match pending {
                            None => {
                                pending = Some(v);
                            },
                            Some(h) => {
                                data.push(h * 16 + v);
                                pending = None;
                            },
                        }
                        j = j + 1;
                    },
                    None => {
                        return Err(PdfError::parse_error());
                    },
                }
            }
        }
        Err(PdfError::parse_error())
    }

    /// Reads a string at position `i` of `b`, giving the position just past it.
    pub fn parse_at(b: &[u8], i: usize) -> (r: Result<(PdfString, usize), PdfError>)
        requires
            i <= b@.len(),
        ensures
            match r {
                Ok((v, e)) => spec_parse_string(b@, i as int) == Ok::<(Seq<u8>, int), PdfErrorKind>(
                    (v@, e as int),
                ) && i < e <= b@.len(),
                Err(err) => spec_parse_string(b@, i as int) == Err::<(Seq<u8>, int), PdfErrorKind>(
                    err.kind,
                ),
            },
    {
        if i < b.len() && b[i] == 0x28 {
            PdfString::parse_literal_at(b, i)
        } else if i < b.len() && b[i] == 0x3c {
            PdfString::parse_hex_at(b, i)
        } else {
            Err(PdfError::parse_error())
        }
    }
}

impl PdfString {
    /// The string whose whole text is `t`: one literal or hex string and nothing after it.
    pub fn from_text(t: &[u8]) -> (r: Result<PdfString, PdfError>)
        ensures
            match r {
                Ok(v) => spec_parse_string(t@, 0) == Ok::<(Seq<u8>, int), PdfErrorKind>(
                    (v@, t@.len() as int),
                ),
                Err(err) => !(spec_parse_string(t@, 0) matches Ok((_, e)) && e == t@.len())
                    && err.kind == PdfErrorKind::Parse,
            },
    {
        match PdfString::parse_at(t, 0) {
            Ok((v, e)) => {
                if e == t.len() {
                    Ok(v)
                } else {
                    Err(PdfError::parse_error())
                }
            },
            Err(err) => {
                proof {
                    assert(err.kind == PdfErrorKind::Parse) by {
                        lemma_string_errors(t@, 0);
                    }
                }
                Err(err)
            },
        }
    }
}

impl std::str::FromStr for PdfString {
    type Err = PdfError;

    fn from_str(s: &str) -> (r: Result<PdfString, PdfError>)
        ensures
            match r {
                Ok(v) => spec_parse_string(s.spec_bytes(), 0) == Ok::<(Seq<u8>, int), PdfErrorKind>(
                    (v@, s.spec_bytes().len() as int),
                ),
                Err(err) => !(spec_parse_string(s.spec_bytes(), 0) matches Ok((_, e)) && e
                    == s.spec_bytes().len()) && err.kind == PdfErrorKind::Parse,
            },
    {
        PdfString::from_text(s.as_bytes())
    }
}

/// Strings fail only with parse errors.
proof fn lemma_string_errors(s: Seq<u8>, i: int)
    ensures
        spec_parse_string(s, i) matches Err(k) ==> k == PdfErrorKind::Parse,
{
    if 0 <= i < s.len() && s[i] == 0x28 {
        lemma_literal_errors(s, i + 1, 1, Seq::empty());
    } else if 0 <= i < s.len() && s[i] == 0x3c {
        lemma_hex_errors(s, i + 1, None, Seq::empty());
    }
}

proof fn lemma_literal_errors(s: Seq<u8>, i: int, depth: int, acc: Seq<u8>)
    ensures
        literal_body(s, i, depth, acc) matches Err(k) ==> k == PdfErrorKind::Parse,
    decreases s.len() - i,
{
    if 0 <= i < s.len() {
        let c = s[i];
        if c == 0x29 {
            if depth > 1 {
                lemma_literal_errors(s, i + 1, depth - 1, acc.push(c));
            }
        } else if c == 0x28 {
            lemma_literal_errors(s, i + 1, depth + 1, acc.push(c));
        } else if c == 0x0d {
            let next = if i + 1 < s.len() && s[i + 1] == 0x0a {
                i + 2
            } else {
                i + 1
            };
            lemma_literal_errors(s, next, depth, acc.push(0x0a));
        } else if c == 0x0a {
            lemma_literal_errors(s, i + 1, depth, acc.push(0x0a));
        } else if c == 0x5c {
            if i + 1 < s.len() {
                let e = s[i + 1];
                if spec_escape(e) is Some {
                    lemma_literal_errors(s, i + 2, depth, acc.push(spec_escape(e)->Some_0));
                } else if e == 0x0d {
                    let next = if i + 2 < s.len() && s[i + 2] == 0x0a {
                        i + 3
                    } else {
                        i + 2
                    };
                    lemma_literal_errors(s, next, depth, acc);
                } else if e == 0x0a {
                    lemma_literal_errors(s, i + 2, depth, acc);
                } else if spec_is_octal_digit(e) {
                    let k = octal_len(s, i + 1);
                    let v = octal_value(s, i + 1, k);
                    if v <= 255 {
                        lemma_literal_errors(s, i + 1 + k, depth, acc.push(v as u8));
                    }
                } else {
                    lemma_literal_errors(s, i + 2, depth, acc.push(e));
                }
            }
        } else {
            lemma_literal_errors(s, i + 1, depth, acc.push(c));
        }
    }
}

proof fn lemma_hex_errors(s: Seq<u8>, i: int, pending: Option<u8>, acc: Seq<u8>)
    ensures
        hex_body(s, i, pending, acc) matches Err(k) ==> k == PdfErrorKind::Parse,
    decreases s.len() - i,
{
    if 0 <= i < s.len() {
        let c = s[i];
        if c != 0x3e {
            if spec_is_whitespace(c) {
                lemma_hex_errors(s, i + 1, pending, acc);
            } else if spec_is_hex_digit(c) {
                match pending {
                    None => lemma_hex_errors(s, i + 1, Some(spec_hex_value(c) as u8), acc),
                    Some(h) => lemma_hex_errors(s, i + 1, None, acc.push((h * 16 + spec_hex_value(c)) as u8)),
                }
            }
        }
    }
}

impl Parsable for PdfString {
    fn from_bytes(bytes: &[u8]) -> (r: Result<(PdfString, &[u8]), PdfError>)
        ensures
            match r {
                Ok((v, rest)) => reads(spec_parse_string(bytes@, 0), bytes@, v@, rest@),
                Err(err) => spec_parse_string(bytes@, 0) == Err::<(Seq<u8>, int), PdfErrorKind>(err.kind),
            },
    {
        match PdfString::parse_at(bytes, 0) {
            Ok((v, e)) => Ok((v, rest_from(bytes, e))),
            Err(err) => Err(err),
        }
    }
}

} // verus!
