use vstd::prelude::*;

use crate::ascii85::drop_ws;
use crate::error::{FilterError, PdfError, PdfErrorKind};
use crate::scan::is_whitespace;

verus! {

/// What a byte source has still to give: its bytes, then either its end (`None`) or a
/// failure.
pub type SourceModel = (Seq<u8>, Option<PdfErrorKind>);

/// One pull from a source whose model was `before` gave `r` and left `after`: the next
/// byte; or the failure, after which the source is empty; or the end.
pub open spec fn pulled(before: SourceModel, r: Option<Result<u8, PdfError>>, after: SourceModel) -> bool {
    match r {
        Some(Ok(b)) => before.0.len() > 0 && b == before.0[0] && after == (before.0.drop_first(), before.1),
        Some(Err(e)) => before.0.len() == 0 && before.1 == Some(e.kind) && after == (
            Seq::<u8>::empty(),
            None::<PdfErrorKind>,
        ),
        None => before.0.len() == 0 && before.1 is None && after == before,
    }
}

/// `b` and then the rest of `m`.
pub open spec fn prepend(b: Seq<u8>, m: SourceModel) -> SourceModel {
    (b + m.0, m.1)
}

/// The failure that ends data that ran out: the source's own, or a missing end marker.
pub open spec fn end_failure(end: Option<PdfErrorKind>) -> PdfErrorKind {
    match end {
        Some(k) => k,
        None => PdfErrorKind::Filter(FilterError::MissingEOD),
    }
}

/// A producer of bytes, pulled one at a time; codecs wrap one and are one.
pub trait ByteSource {
    /// What the source has still to give.
    spec fn rest(&self) -> SourceModel;

    /// The source's internal invariant.
    spec fn inv(&self) -> bool;

    /// Pulls the next byte, the failure, or the end.
    fn next_byte(&mut self) -> (r: Option<Result<u8, PdfError>>)
        requires
            old(self).inv(),
        ensures
            final(self).inv(),
            pulled(old(self).rest(), r, final(self).rest()),
    ;
}

/// A source that gives the bytes of a buffer.
pub struct BytesSource {
    data: Vec<u8>,
    pos: usize,
}

impl BytesSource {
    pub fn new(data: Vec<u8>) -> (r: BytesSource)
        ensures
            r.inv(),
            r.rest() == (data@, None::<PdfErrorKind>),
    {
        let r = BytesSource { data, pos: 0 };
        assert(r.data@.subrange(0, r.data@.len() as int) =~= r.data@);
        r
    }
}

impl ByteSource for BytesSource {
    closed spec fn rest(&self) -> SourceModel {
        (self.data@.subrange(self.pos as int, self.data@.len() as int), None)
    }

    closed spec fn inv(&self) -> bool {
        self.pos <= self.data@.len()
    }

    fn next_byte(&mut self) -> (r: Option<Result<u8, PdfError>>) {
        if self.pos < self.data.len() {
            let b = self.data[self.pos];
            assert(self.data@.subrange(self.pos as int, self.data@.len() as int).drop_first()
                =~= self.data@.subrange(self.pos + 1, self.data@.len() as int));
            self.pos = self.pos + 1;
            Some(Ok(b))
        } else {
            None
        }
    }
}

/// Whether a pull that skips whitespace, from a source whose model was `before`, gave `r`
/// and left `after`; the models are seen without their whitespace.
pub open spec fn pulled_non_ws(before: SourceModel, r: Option<Result<u8, PdfError>>, after: SourceModel) -> bool {
    let t = drop_ws(before.0);
    match r {
        Some(Ok(c)) => t.len() > 0 && c == t[0] && drop_ws(after.0) == t.drop_first() && after.1
            == before.1,
        Some(Err(e)) => t.len() == 0 && before.1 == Some(e.kind) && after == (
            Seq::<u8>::empty(),
            None::<PdfErrorKind>,
        ),
        None => t.len() == 0 && before.1 is None && after == (Seq::<u8>::empty(), None::<PdfErrorKind>),
    }
}

/// Pulls bytes up to the first that is not whitespace.
pub fn next_non_whitespace<S: ByteSource>(s: &mut S) -> (r: Option<Result<u8, PdfError>>)
    requires
        old(s).inv(),
    ensures
        final(s).inv(),
        pulled_non_ws(old(s).rest(), r, final(s).rest()),
{
    loop
        invariant
            s.inv(),
            drop_ws(s.rest().0) == drop_ws(old(s).rest().0),
            s.rest().1 == old(s).rest().1,
        decreases s.rest().0.len(),
    {
        let ghost before = s.rest();
        match s.next_byte() {
            Some(Ok(b)) => {
                assert(before.0[0] == b);
                if !is_whitespace(b) {
                    assert(drop_ws(before.0) == seq![b] + drop_ws(before.0.drop_first()));
                    assert((seq![b] + drop_ws(before.0.drop_first())).drop_first() =~= drop_ws(before.0.drop_first()));
                    return Some(Ok(b));
                }
                assert(drop_ws(before.0) == drop_ws(before.0.drop_first()));
            },
            Some(Err(e)) => {
                assert(drop_ws(before.0) =~= Seq::<u8>::empty());
                return Some(Err(e));
            },
            None => {
                assert(drop_ws(before.0) =~= Seq::<u8>::empty());
                assert(before.0 =~= Seq::<u8>::empty());
                return None;
            },
        }
    }
}

} // verus!
