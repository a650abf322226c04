use vstd::prelude::*;

use crate::error::{FilterError, PdfError, PdfErrorKind};
use crate::name::{hex_digit_value, spec_hex_value, spec_is_hex_digit};
use crate::ascii85::drop_ws;
use crate::pipeline::{end_failure, next_non_whitespace, prepend, ByteSource, SourceModel};
use crate::scan::{is_whitespace, spec_is_whitespace};

verus! {

/// The uppercase hex digit for `v` (below 16).
pub open spec fn hex_char(v: int) -> u8 {
    if v < 10 {
        (0x30 + v) as u8
    } else {
        (0x41 + v - 10) as u8
    }
}

/// Two uppercase hex digits per byte, in order.
pub open spec fn hex_encode_body(s: Seq<u8>) -> Seq<u8>
    decreases s.len(),
{
    if s.len() == 0 {
        Seq::empty()
    } else {
        seq![hex_char(s[0] as int / 16), hex_char(s[0] as int % 16)] + hex_encode_body(s.drop_first())
    }
}

/// The ASCII-hex encoding of `s`: its digits, then the end marker `>`.
pub open spec fn spec_ascii_hex_encode(s: Seq<u8>) -> Seq<u8> {
    hex_encode_body(s).push(0x3e)
}

/// Decoding of `t` after the output `acc`, with `pending` a high digit whose low digit is
/// still to come. Whitespace is skipped; `>` ends the data (a lone high digit counts as
/// followed by `0`).
pub open spec fn hex_decode(t: Seq<u8>, pending: Option<u8>, acc: Seq<u8>) -> Result<Seq<u8>, FilterError>
    decreases t.len(),
{
    if t.len() == 0 {
        Err(FilterError::MissingEOD)
    } else {
        let c = t[0];
        if spec_is_whitespace(c) {
            hex_decode(t.drop_first(), pending, acc)
        } else if c == 0x3e {
            match pending {
                Some(h) => Ok(acc.push((h * 16) as u8)),
                None => Ok(acc),
            }
        } else if spec_is_hex_digit(c) {
            match pending {
                None => hex_decode(t.drop_first(), Some(spec_hex_value(c) as u8), acc),
                Some(h) => hex_decode(
                    t.drop_first(),
                    None,
                    acc.push((h * 16 + spec_hex_value(c)) as u8),
                ),
            }
        } else {
            Err(FilterError::ASCIIHexDecode(c))
        }
    }
}

pub open spec fn spec_ascii_hex_decode(t: Seq<u8>) -> Result<Seq<u8>, FilterError> {
    hex_decode(t, None, Seq::empty())
}

proof fn lemma_hex_encode_push(s: Seq<u8>, c: u8)
    ensures
        hex_encode_body(s.push(c)) == hex_encode_body(s) + seq![hex_char(c as int / 16), hex_char(c as int % 16)],
    decreases s.len(),
{
    if s.len() == 0 {
        assert(s.push(c).drop_first() =~= Seq::<u8>::empty());
        assert(s.push(c)[0] == c);
        assert(hex_encode_body(Seq::<u8>::empty()) =~= Seq::<u8>::empty());
        assert(hex_encode_body(s) =~= Seq::<u8>::empty());
        assert(hex_encode_body(s.push(c)) =~= seq![hex_char(c as int / 16), hex_char(c as int % 16)]);
    } else {
        assert(s.push(c).drop_first() =~= s.drop_first().push(c));
        lemma_hex_encode_push(s.drop_first(), c);
        assert(hex_encode_body(s.push(c)) =~= hex_encode_body(s) + seq![hex_char(c as int / 16), hex_char(c as int % 16)]);
    }
}

/// The uppercase hex digit for `v`.
fn hex_digit_char(v: u8) -> (r: u8)
    requires
        v < 16,
    ensures
        r == hex_char(v as int),
{
    if v < 10 {
        0x30 + v
    } else {
        0x41 + v - 10
    }
}

/// Encodes `bytes` as ASCII hex, uppercase, ending with `>`.
pub fn ascii_hex_encode(bytes: &[u8]) -> (r: Vec<u8>)
    ensures
        r@ == spec_ascii_hex_encode(bytes@),
{
    let mut out: Vec<u8> = Vec::new();
    let mut k: usize = 0;
    while k < bytes.len()
        invariant
            0 <= k <= bytes@.len(),
            out@ == hex_encode_body(bytes@.subrange(0, k as int)),
        decreases bytes@.len() - k,
    {
        let c = bytes[k];
        proof {
            lemma_hex_encode_push(bytes@.subrange(0, k as int), c);
            assert(bytes@.subrange(0, k as int).push(c) =~= bytes@.subrange(0, k + 1));
        }
        out.push(hex_digit_char(c / 16));
        out.push(hex_digit_char(c % 16));
        assert(out@ =~= hex_encode_body(bytes@.subrange(0, k + 1)));
        k = k + 1;
    }
    assert(bytes@.subrange(0, k as int) =~= bytes@);
    out.push(0x3e);
    out
}

/// Decodes ASCII-hex data up to its `>`.
pub fn ascii_hex_decode(bytes: &[u8]) -> (r: Result<Vec<u8>, PdfError>)
    ensures
        match r {
            Ok(v) => spec_ascii_hex_decode(bytes@) == Ok::<Seq<u8>, FilterError>(v@),
            Err(e) => spec_ascii_hex_decode(bytes@) matches Err(fe) && e.kind == PdfErrorKind::Filter(fe),
        },
{
    let n = bytes.len();
    let mut out: Vec<u8> = Vec::new();
    let mut pending: Option<u8> = None;
    let mut k: usize = 0;
    assert(bytes@.subrange(0, n as int) =~= bytes@);
    while k < n
        invariant
            0 <= k <= n,
            n == bytes@.len(),
            pending matches Some(h) ==> h < 16,
            hex_decode(bytes@.subrange(k as int, n as int), pending, out@) == spec_ascii_hex_decode(bytes@),
        decreases n - k,
    {
        let c = bytes[k];
        let ghost t = bytes@.subrange(k as int, n as int);
        assert(t.drop_first() =~= bytes@.subrange(k + 1, n as int));
        assert(t[0] == c);
        if is_whitespace(c) {
        } else if c == 0x3e {
            match pending {
                Some(h) => out.push(h * 16),
                None => {},
            }
            return Ok(out);
        } else {
            match hex_digit_value(c) {
                Some(v) => match pending {
                    None => {
                        pending = Some(v);
                    },
                    Some(h) => {
                        out.push(h * 16 + v);
                        pending = None;
                    },
                },
                None => {
                    return Err(PdfError::with_kind(PdfErrorKind::Filter(FilterError::ASCIIHexDecode(c))));
                },
            }
        }
        k = k + 1;
    }
    Err(PdfError::with_kind(PdfErrorKind::Filter(FilterError::MissingEOD)))
}

proof fn lemma_hex_char(v: int)
    requires
        0 <= v < 16,
    ensures
        spec_is_hex_digit(hex_char(v)),
        spec_hex_value(hex_char(v)) == v,
        !spec_is_whitespace(hex_char(v)),
        hex_char(v) != 0x3e,
{
}

proof fn lemma_hex_decode_encoded(x: Seq<u8>, rest: Seq<u8>, acc: Seq<u8>)
    ensures
        hex_decode(hex_encode_body(x) + rest, None, acc) == hex_decode(rest, None, acc + x),
    decreases x.len(),
{
    if x.len() == 0 {
        assert(hex_encode_body(x) + rest =~= rest);
        assert(acc + x =~= acc);
    } else {
        let c = x[0];
        let hi = c as int / 16;
        let lo = c as int % 16;
        lemma_hex_char(hi);
        lemma_hex_char(lo);
        let t = hex_encode_body(x) + rest;
        let t1 = t.drop_first();
        let t2 = t1.drop_first();
        assert(t[0] == hex_char(hi));
        assert(t1[0] == hex_char(lo));
        assert(t2 =~= hex_encode_body(x.drop_first()) + rest);
        assert(hex_decode(t, None, acc) == hex_decode(t1, Some(hi as u8), acc));
        assert(((hi as u8) * 16 + lo) as u8 == c);
        assert(hex_decode(t1, Some(hi as u8), acc) == hex_decode(t2, None, acc.push(c)));
        lemma_hex_decode_encoded(x.drop_first(), rest, acc.push(c));
        assert(acc.push(c) + x.drop_first() =~= acc + x);
    }
}

/// Decoding the ASCII-hex encoding of any bytes gives those bytes back.
pub proof fn lemma_ascii_hex_round_trip(s: Seq<u8>)
    ensures
        spec_ascii_hex_decode(spec_ascii_hex_encode(s)) == Ok::<Seq<u8>, FilterError>(s),
{
    let end = seq![0x3eu8];
    assert(spec_ascii_hex_encode(s) =~= hex_encode_body(s) + end);
    lemma_hex_decode_encoded(s, end, Seq::empty());
    assert(Seq::<u8>::empty() + s =~= s);
    assert(hex_decode(end, None, s) == Ok::<Seq<u8>, FilterError>(s));
}

/// What an ASCII-hex encoder gives over a source whose model is `m`, with `low` the digit
/// it still owes for the last byte.
pub open spec fn hex_encoder_model(low: Option<u8>, m: SourceModel) -> SourceModel {
    let body = match low {
        Some(l) => seq![l],
        None => Seq::empty(),
    } + hex_encode_body(m.0);
    match m.1 {
        None => (body.push(0x3e), None),
        Some(k) => (body, Some(k)),
    }
}

/// What an ASCII-hex decoder gives over whitespace-free data `t` that ends with `end`.
pub open spec fn hex_stream(t: Seq<u8>, end: Option<PdfErrorKind>) -> SourceModel
    decreases t.len(),
{
    if t.len() == 0 {
        (Seq::empty(), Some(end_failure(end)))
    } else if t[0] == 0x3e {
        (Seq::empty(), None)
    } else if !spec_is_hex_digit(t[0]) {
        (Seq::empty(), Some(PdfErrorKind::Filter(FilterError::ASCIIHexDecode(t[0]))))
    } else {
        let h = spec_hex_value(t[0]);
        let t1 = t.drop_first();
        if t1.len() == 0 {
            (Seq::empty(), Some(end_failure(end)))
        } else if t1[0] == 0x3e {
            (seq![(h * 16) as u8], None)
        } else if !spec_is_hex_digit(t1[0]) {
            (Seq::empty(), Some(PdfErrorKind::Filter(FilterError::ASCIIHexDecode(t1[0]))))
        } else {
            prepend(seq![(h * 16 + spec_hex_value(t1[0])) as u8], hex_stream(t1.drop_first(), end))
        }
    }
}

/// An ASCII-hex encoder pulling from `inner`.
pub struct EncodeASCIIHex<S> {
    inner: S,
    low: Option<u8>,
    done: bool,
}

impl<S: ByteSource> EncodeASCIIHex<S> {
    pub fn new(inner: S) -> (r: Self)
        requires
            inner.inv(),
        ensures
            r.inv(),
            r.rest() == hex_encoder_model(None, inner.rest()),
    {
        EncodeASCIIHex { inner, low: None, done: false }
    }
}

impl<S: ByteSource> ByteSource for EncodeASCIIHex<S> {
    closed spec fn rest(&self) -> SourceModel {
        if self.done {
            (Seq::empty(), None)
        } else {
            hex_encoder_model(self.low, self.inner.rest())
        }
    }

    closed spec fn inv(&self) -> bool {
        self.inner.inv()
    }

    fn next_byte(&mut self) -> (r: Option<Result<u8, PdfError>>) {
        if self.done {
            return None;
        }
        match self.low {
            Some(l) => {
                self.low = None;
                let ghost m = self.inner.rest();
                assert(hex_encoder_model(Some(l), m).0.drop_first() =~= hex_encoder_model(None, m).0);
                return Some(Ok(l));
            },
            None => {},
        }
        let ghost m = self.inner.rest();
        match self.inner.next_byte() {
            Some(Ok(c)) => {
                let hi = hex_digit_char(c / 16);
                let lo = hex_digit_char(c % 16);
                self.low = Some(lo);
                assert(m.0 =~= seq![c] + m.0.drop_first());
                assert(hex_encode_body(m.0) == seq![hi, lo] + hex_encode_body(m.0.drop_first()));
                assert(hex_encoder_model(None, m).0.drop_first() =~= hex_encoder_model(Some(lo), self.inner.rest()).0);
                Some(Ok(hi))
            },
            Some(Err(e)) => {
                self.done = true;
                assert(hex_encode_body(m.0) =~= Seq::<u8>::empty());
                assert(hex_encoder_model(None, m).0 =~= Seq::<u8>::empty());
                Some(Err(e))
            },
            None => {
                self.done = true;
                assert(hex_encode_body(m.0) =~= Seq::<u8>::empty());
                assert(hex_encoder_model(None, m).0 =~= seq![0x3eu8]);
                assert(seq![0x3eu8].drop_first() =~= Seq::<u8>::empty());
                Some(Ok(0x3e))
            },
        }
    }
}

/// An ASCII-hex decoder pulling from `inner`; whitespace between digits is skipped.
pub struct DecodeASCIIHex<S> {
    inner: S,
    done: bool,
}

impl<S: ByteSource> DecodeASCIIHex<S> {
    pub fn new(inner: S) -> (r: Self)
        requires
            inner.inv(),
        ensures
            r.inv(),
            r.rest() == hex_stream(drop_ws(inner.rest().0), inner.rest().1),
    {
        DecodeASCIIHex { inner, done: false }
    }
}

impl<S: ByteSource> ByteSource for DecodeASCIIHex<S> {
    closed spec fn rest(&self) -> SourceModel {
        if self.done {
            (Seq::empty(), None)
        } else {
            hex_stream(drop_ws(self.inner.rest().0), self.inner.rest().1)
        }
    }

    closed spec fn inv(&self) -> bool {
        self.inner.inv()
    }

    fn next_byte(&mut self) -> (r: Option<Result<u8, PdfError>>) {
        if self.done {
            return None;
        }
        let ghost m = self.inner.rest();
        let ghost t = drop_ws(m.0);
        let h = match next_non_whitespace(&mut self.inner) {
            None => {
                self.done = true;
                return Some(Err(PdfError::with_kind(PdfErrorKind::Filter(FilterError::MissingEOD))));
            },
            Some(Err(e)) => {
                self.done = true;
                return Some(Err(e));
            },
            Some(Ok(c)) => {
                if c == 0x3e {
                    self.done = true;
                    return None;
                }
                match hex_digit_value(c) {
                    Some(v) => v,
                    None => {
                        self.done = true;
                        return Some(Err(PdfError::with_kind(PdfErrorKind::Filter(FilterError::ASCIIHexDecode(c)))));
                    },
                }
            },
        };
        let ghost t1 = t.drop_first();
        match next_non_whitespace(&mut self.inner) {
            None => {
                self.done = true;
                Some(Err(PdfError::with_kind(PdfErrorKind::Filter(FilterError::MissingEOD))))
            },
            Some(Err(e)) => {
                self.done = true;
                Some(Err(e))
            },
            Some(Ok(c)) => {
                if c == 0x3e {
                    self.done = true;
                    assert(seq![(h * 16) as u8].drop_first() =~= Seq::<u8>::empty());
                    return Some(Ok(h * 16));
                }
                match hex_digit_value(c) {
                    Some(v) => {
                        let out = h * 16 + v;
                        assert((seq![out] + hex_stream(t1.drop_first(), m.1).0).drop_first() =~= hex_stream(t1.drop_first(), m.1).0);
                        Some(Ok(out))
                    },
                    None => {
                        self.done = true;
                        Some(Err(PdfError::with_kind(PdfErrorKind::Filter(FilterError::ASCIIHexDecode(c)))))
                    },
                }
            },
        }
    }
}

proof fn lemma_hex_stream_encoded(x: Seq<u8>, tail: Seq<u8>, end: Option<PdfErrorKind>)
    requires
        tail == seq![0x3eu8] || (tail.len() == 0 && end is Some),
    ensures
        hex_stream(hex_encode_body(x) + tail, end) == (x, if tail.len() == 0 { end } else { None::<PdfErrorKind> }),
    decreases x.len(),
{
    if x.len() == 0 {
        assert(hex_encode_body(x) + tail =~= tail);
    } else {
        let c = x[0];
        lemma_hex_char(c as int / 16);
        lemma_hex_char(c as int % 16);
        let t = hex_encode_body(x) + tail;
        assert(t.drop_first().drop_first() =~= hex_encode_body(x.drop_first()) + tail);
        assert(((c as int / 16) * 16 + c as int % 16) as u8 == c);
        lemma_hex_stream_encoded(x.drop_first(), tail, end);
        assert(seq![c] + x.drop_first() =~= x);
    }
}

proof fn lemma_hex_encoded_no_ws(x: Seq<u8>)
    ensures
        forall|k: int| 0 <= k < hex_encode_body(x).len() ==> !spec_is_whitespace(#[trigger] hex_encode_body(x)[k]) && hex_encode_body(x)[k] != 0x3e,
    decreases x.len(),
{
    if x.len() > 0 {
        lemma_hex_char(x[0] as int / 16);
        lemma_hex_char(x[0] as int % 16);
        lemma_hex_encoded_no_ws(x.drop_first());
        let rest = hex_encode_body(x.drop_first());
        assert forall|k: int| 0 <= k < hex_encode_body(x).len() implies !spec_is_whitespace(#[trigger] hex_encode_body(x)[k]) && hex_encode_body(x)[k] != 0x3e by {
            if k >= 2 {
                assert(hex_encode_body(x)[k] == rest[k - 2]);
            }
        }
    }
}

/// An ASCII-hex decoder over an ASCII-hex encoder gives what the encoder's source gives:
/// the same bytes, and the same end or failure.
pub proof fn lemma_hex_chain(m: SourceModel)
    ensures
        hex_stream(drop_ws(hex_encoder_model(None, m).0), hex_encoder_model(None, m).1) == m,
{
    let e = hex_encoder_model(None, m);
    let body = hex_encode_body(m.0);
    assert(Seq::<u8>::empty() + body =~= body);
    lemma_hex_encoded_no_ws(m.0);
    assert forall|k: int| 0 <= k < e.0.len() implies !spec_is_whitespace(#[trigger] e.0[k]) by {
        if k < body.len() {
            assert(e.0[k] == body[k]);
        }
    }
    crate::ascii85::lemma_drop_ws_none(e.0);
    match m.1 {
        None => {
            assert(e.0 =~= body + seq![0x3eu8]);
            lemma_hex_stream_encoded(m.0, seq![0x3eu8], None);
        },
        Some(k) => {
            assert(e.0 =~= body + Seq::<u8>::empty());
            lemma_hex_stream_encoded(m.0, Seq::<u8>::empty(), m.1);
        },
    }
}

} // verus!
