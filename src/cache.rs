//! The framing of a persisted store: a version tag, then the encoded store
//! compressed with zstandard.

use vstd::prelude::*;

use crate::error::Error;

verus! {

/// What `zstd::encode_all` gives for `data` at compression level 21.
pub uninterp spec fn zstd_compressed(data: Seq<u8>) -> Seq<u8>;

/// What `zstd::decode_all` gives for `data`: the decompressed bytes, or
/// nothing where `data` is not a valid zstandard stream.
pub uninterp spec fn zstd_decompressed(data: Seq<u8>) -> Option<Seq<u8>>;

/// The zstandard level that persisted stores are compressed with.
pub const CACHE_LEVEL: i32 = 21;

/// Relies on `zstd::encode_all`: the output depends on the input and the
/// level alone.
#[verifier::external_body]
fn compress(data: &[u8]) -> (r: Option<Vec<u8>>)
    ensures
        r is Some ==> r->0@ == zstd_compressed(data@),
{
    zstd::encode_all(data, CACHE_LEVEL).ok()
}

/// Relies on `zstd::decode_all`: the output depends on the input alone, and
/// decompression gives back what compression was given.
#[verifier::external_body]
fn decompress(data: &[u8]) -> (r: Option<Vec<u8>>)
    ensures
        r matches Some(v) ==> zstd_decompressed(data@) == Some(v@),
        r is None ==> zstd_decompressed(data@) is None,
        forall|p: Seq<u8>| data@ == zstd_compressed(p) ==> r is Some && r->0@ == p,
{
    zstd::decode_all(data).ok()
}

/// The version tag that begins every persisted store: `askalono-04`.
pub open spec fn cache_tag() -> Seq<u8> {
    seq![97u8, 115u8, 107u8, 97u8, 108u8, 111u8, 110u8, 111u8, 45u8, 48u8, 52u8]
}

pub fn cache_version() -> (r: Vec<u8>)
    ensures
        r@ == cache_tag(),
{
    let r: Vec<u8> = vec![97u8, 115u8, 107u8, 97u8, 108u8, 111u8, 110u8, 111u8, 45u8, 48u8, 52u8];
    assert(r@ =~= cache_tag());
    r
}

/// The persisted form of an encoded store: the version tag followed by the
/// compressed encoding. Fails with `Io` where compression fails.
pub fn frame_cache(payload: &[u8]) -> (r: Result<Vec<u8>, Error>)
    ensures
        r is Ok ==> r->Ok_0@ == cache_tag() + zstd_compressed(payload@),
        r is Err ==> r->Err_0 == Error::Io,
{
    let packed = match compress(payload) {
        Some(p) => p,
        None => return Err(Error::Io),
    };
    let mut out = cache_version();
    let mut i: usize = 0;
    while i < packed.len()
        invariant
            i <= packed@.len(),
            out@ == cache_tag() + packed@.take(i as int),
        decreases packed@.len() - i,
    {
        out.push(packed[i]);
        i += 1;
        assert(out@ =~= cache_tag() + packed@.take(i as int));
    }
    assert(packed@.take(i as int) =~= packed@);
    Ok(out)
}

/// The encoded store inside a persisted one. Fails with `CacheVersion`
/// unless the bytes begin with the version tag, and with `CacheCorrupt`
/// where the rest does not decompress.
pub fn unframe_cache(bytes: &[u8]) -> (r: Result<Vec<u8>, Error>)
    ensures
        ({
            let tag = cache_tag();
            let tagged = bytes@.len() >= tag.len() && bytes@.take(tag.len() as int) == tag;
            let rest = bytes@.skip(tag.len() as int);
            &&& !tagged <==> r == Err::<Vec<u8>, Error>(Error::CacheVersion)
            &&& tagged && zstd_decompressed(rest) is None <==> r == Err::<Vec<u8>, Error>(
                Error::CacheCorrupt,
            )
            &&& r is Ok ==> tagged && zstd_decompressed(rest) == Some(r->Ok_0@)
        }),
        forall|p: Seq<u8>| bytes@ == cache_tag() + zstd_compressed(p) ==> r is Ok && r->Ok_0@ == p,
{
    let tag = cache_version();
    if bytes.len() < tag.len() {
        proof {
            assert forall|p: Seq<u8>| bytes@ != cache_tag() + zstd_compressed(p) by {
                assert((cache_tag() + zstd_compressed(p)).len() >= 11);
            }
        }
        return Err(Error::CacheVersion);
    }
    let mut i: usize = 0;
    while i < tag.len()
        invariant
            tag@ == cache_tag(),
            bytes@.len() >= tag@.len(),
            i <= tag@.len(),
            forall|j: int| 0 <= j < i ==> bytes@[j] == tag@[j],
        decreases tag@.len() - i,
    {
        if bytes[i] != tag[i] {
            proof {
                assert(bytes@.take(11)[i as int] != cache_tag()[i as int]);
                assert forall|p: Seq<u8>| bytes@ != cache_tag() + zstd_compressed(p) by {
                    assert((cache_tag() + zstd_compressed(p))[i as int] == cache_tag()[i as int]);
                }
            }
            return Err(Error::CacheVersion);
        }
        i += 1;
    }
    assert(bytes@.take(11) =~= cache_tag());
    let rest = &bytes[tag.len()..bytes.len()];
    assert(rest@ =~= bytes@.skip(11));
    proof {
        assert forall|p: Seq<u8>| bytes@ == cache_tag() + zstd_compressed(p) implies rest@
            == zstd_compressed(p) by {
            assert((cache_tag() + zstd_compressed(p)).skip(11) =~= zstd_compressed(p));
        }
    }
    match decompress(rest) {
        Some(p) => Ok(p),
        None => Err(Error::CacheCorrupt),
    }
}

} // verus!
