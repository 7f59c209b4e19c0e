//! Decompression of file sectors. PKWare DCL ("explode") is done by the
//! `explode` crate; the multi-algorithm scheme is not supported.
use vstd::prelude::*;

use crate::error::MpqError;

verus! {

#[verifier::external_type_specification]
#[verifier::external_body]
pub struct ExExplodeError(explode::Error);

/// What the PKWare DCL decoder makes of `data`: the decompressed bytes, or
/// `None` when it refuses the input.
pub uninterp spec fn exploded(data: Seq<u8>) -> Option<Seq<u8>>;

/// Relies on `explode::explode`: decodes one PKWare DCL stream held whole in
/// `data`, or fails; the outcome depends on the bytes alone.
#[verifier::external_body]
pub(crate) fn explode_bytes(data: &[u8]) -> (r: Result<Vec<u8>, explode::Error>)
    ensures
        match r {
            Ok(v) => exploded(data@) == Some(v@),
            Err(_) => exploded(data@) is None,
        },
{
    explode::explode(data)
}

/// `dst` with its first bytes replaced by those of `src`, as far as both go.
pub open spec fn copy_prefix(src: Seq<u8>, dst: Seq<u8>) -> Seq<u8> {
    Seq::new(dst.len(), |i: int| if i < src.len() { src[i] } else { dst[i] })
}

/// `dst` with the bytes from `at` on replaced by `src`.
pub open spec fn splice(dst: Seq<u8>, at: int, src: Seq<u8>) -> Seq<u8> {
    Seq::new(dst.len(), |i: int| if at <= i < at + src.len() { src[i - at] } else { dst[i] })
}

/// Copy all of `src` into `out` from `at` on.
pub fn copy_at(src: &[u8], out: &mut [u8], at: usize)
    requires
        at + src@.len() <= old(out)@.len(),
    ensures
        final(out)@ == splice(old(out)@, at as int, src@),
{
    let n = src.len();
    let total = out.len();
    let mut i: usize = 0;
    while i < n
        invariant
            n == src@.len(),
            total == old(out)@.len(),
            at + n <= old(out)@.len(),
            i <= n,
            out@.len() == old(out)@.len(),
            forall|j: int|
                0 <= j < out@.len() ==> #[trigger] out@[j] == if at <= j < at + i {
                    src@[j - at]
                } else {
                    old(out)@[j]
                },
        decreases n - i,
    {
        out[at + i] = src[i];
        i = i + 1;
    }
    assert(out@ =~= splice(old(out)@, at as int, src@));
}

/// Decode a PKWare DCL sector into the front of `out` and return the decoded
/// length. A result longer than `out` is corruption: `CorruptSector`, with
/// `out` left as it is.
pub fn explode_into(data: &[u8], out: &mut [u8]) -> (r: Result<usize, MpqError>)
    ensures
        match exploded(data@) {
            Some(v) => if v.len() <= old(out)@.len() {
                &&& r == Ok::<usize, MpqError>(v.len() as usize)
                &&& final(out)@ == splice(old(out)@, 0, v)
            } else {
                &&& r == Err::<usize, MpqError>(MpqError::CorruptSector)
                &&& final(out)@ == old(out)@
            },
            None => {
                &&& r == Err::<usize, MpqError>(MpqError::ExplodeError)
                &&& final(out)@ == old(out)@
            },
        },
{
    match explode_bytes(data) {
        Ok(buffer) => {
            if buffer.len() > out.len() {
                return Err(MpqError::CorruptSector);
            }
            copy_at(buffer.as_slice(), out, 0);
            Ok(buffer.len())
        },
        Err(_) => Err(MpqError::ExplodeError),
    }
}

/// Decode a sector stored with the multi-algorithm compression. Not
/// supported: always fails and leaves `out` as it is.
pub fn decompress_into(data: &[u8], out: &mut [u8]) -> (r: Result<usize, MpqError>)
    ensures
        r == Err::<usize, MpqError>(MpqError::UnsupportedCompression),
        final(out)@ == old(out)@,
{
    Err(MpqError::UnsupportedCompression)
}

/// Copy `data` into the front of `out`, as much as fits, and return the
/// length of `data`.
pub fn copy_into(data: &[u8], out: &mut [u8]) -> (r: Result<usize, MpqError>)
    ensures
        r == Ok::<usize, MpqError>(data@.len() as usize),
        final(out)@ == copy_prefix(data@, old(out)@),
{
    let n = if data.len() < out.len() {
        data.len()
    } else {
        out.len()
    };
    let mut i: usize = 0;
    while i < n
        invariant
            n <= data@.len(),
            n <= old(out)@.len(),
            n == data@.len() || n == old(out)@.len(),
            i <= n,
            out@.len() == old(out)@.len(),
            forall|j: int|
                0 <= j < out@.len() ==> #[trigger] out@[j] == if j < i {
                    data@[j]
                } else {
                    old(out)@[j]
                },
        decreases n - i,
    {
        out[i] = data[i];
        i = i + 1;
    }
    assert(out@ =~= copy_prefix(data@, old(out)@));
    Ok(data.len())
}

} // verus!
