use vstd::prelude::*;

use crate::error::{PdfError, PdfErrorKind};

verus! {

/// Whether `rest` is a tail of `b`.
pub open spec fn is_suffix(rest: Seq<u8>, b: Seq<u8>) -> bool {
    rest.len() <= b.len() && rest == b.subrange(b.len() - rest.len(), b.len() as int)
}

/// The tail of `b` from position `e` on.
pub open spec fn tail(b: Seq<u8>, e: int) -> Seq<u8> {
    b.subrange(e, b.len() as int)
}

/// A value that can be read from the front of a byte buffer.
pub trait Parsable: Sized {
    /// Reads a value from the front of `bytes`, giving the value and what follows it:
    /// a tail of `bytes`, shorter than it.
    fn from_bytes(bytes: &[u8]) -> (r: Result<(Self, &[u8]), PdfError>)
        ensures
            r matches Ok((_, rest)) ==> is_suffix(rest@, bytes@) && rest@.len() < bytes@.len(),
    ;
}

/// Reads a `T` from the front of `bytes`: exactly what `T::from_bytes` gives.
pub fn parse<T: Parsable>(bytes: &[u8]) -> (r: Result<(T, &[u8]), PdfError>)
    ensures
        call_ensures(T::from_bytes, (bytes,), r),
        r matches Ok((_, rest)) ==> is_suffix(rest@, bytes@) && rest@.len() < bytes@.len(),
{
    T::from_bytes(bytes)
}

/// The tail of `b` from `e` on, which is a suffix of it.
pub fn rest_from(b: &[u8], e: usize) -> (r: &[u8])
    requires
        e <= b@.len(),
    ensures
        r@ == tail(b@, e as int),
        is_suffix(r@, b@),
{
    let r = vstd::slice::slice_subrange(b, e, b.len());
    assert(r@ =~= b@.subrange(b@.len() - r@.len(), b@.len() as int));
    r
}

/// `expected` reads the value `v` and leaves `rest` of `b`.
pub open spec fn reads<V>(expected: Result<(V, int), PdfErrorKind>, b: Seq<u8>, v: V, rest: Seq<u8>) -> bool {
    expected matches Ok((ev, e)) && ev == v && rest == tail(b, e)
}

} // verus!
