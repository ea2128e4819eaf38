//! A codec for TLG images: TLG5 and TLG6 decoding, TLG5 encoding, and the
//! TLG0.0 tagged container.
pub mod container;
pub mod convert;
pub mod decimal;
pub mod dictionary;
pub mod load_tlg;
pub mod lzss;
pub mod roundtrip;
pub mod save_tlg;
pub mod slide;
pub mod stream;
pub mod tags;
pub mod tlg5;
pub mod tlg5_saver;
pub mod tlg6;
pub mod tvpgl;
pub mod types;

pub use convert::convert_bgr_to_rgb;
pub use load_tlg::load_tlg;
pub use save_tlg::save_tlg;
pub use stream::{ByteReader, ByteWriter};
pub use tags::TagMap;
pub use types::{Tlg, TlgColorType, TlgError};

use vstd::prelude::*;

verus! {

/// The eleven bytes that open a tagged TLG0.0 container.
pub open spec fn magic_tlg0() -> Seq<u8> {
    seq![0x54u8, 0x4c, 0x47, 0x30, 0x2e, 0x30, 0x00, 0x73, 0x64, 0x73, 0x1a]
}

/// The eleven bytes that open a raw TLG5 stream.
pub open spec fn magic_tlg5() -> Seq<u8> {
    seq![0x54u8, 0x4c, 0x47, 0x35, 0x2e, 0x30, 0x00, 0x72, 0x61, 0x77, 0x1a]
}

/// The eleven bytes that open a raw TLG6 stream.
pub open spec fn magic_tlg6() -> Seq<u8> {
    seq![0x54u8, 0x4c, 0x47, 0x36, 0x2e, 0x30, 0x00, 0x72, 0x61, 0x77, 0x1a]
}

/// Whether `data` begins with the bytes of `prefix`.
pub open spec fn has_prefix(data: Seq<u8>, prefix: Seq<u8>) -> bool {
    data.len() >= prefix.len() && data.take(prefix.len() as int) == prefix
}

/// Whether `data` opens with one of the three TLG signatures.
pub open spec fn valid_tlg(data: Seq<u8>) -> bool {
    has_prefix(data, magic_tlg0()) || has_prefix(data, magic_tlg5()) || has_prefix(
        data,
        magic_tlg6(),
    )
}

/// Whether `data` begins with the bytes of `prefix`.
pub fn starts_with(data: &[u8], prefix: &[u8]) -> (b: bool)
    ensures
        b == has_prefix(data@, prefix@),
{
    if data.len() < prefix.len() {
        return false;
    }
    let mut i: usize = 0;
    while i < prefix.len()
        invariant
            i <= prefix.len() <= data.len(),
            forall|j: int| 0 <= j < i ==> data@[j] == prefix@[j],
        decreases prefix.len() - i,
    {
        if data[i] != prefix[i] {
            assert(data@.take(prefix@.len() as int)[i as int] != prefix@[i as int]);
            return false;
        }
        i += 1;
    }
    assert(data@.take(prefix@.len() as int) =~= prefix@);
    true
}

/// Check if it's a valid TLG.
///
/// 11 bytes are needed.
pub fn is_valid_tlg(data: &[u8]) -> (b: bool)
    ensures
        b == valid_tlg(data@),
{
    let m0: [u8; 11] = [0x54, 0x4c, 0x47, 0x30, 0x2e, 0x30, 0x00, 0x73, 0x64, 0x73, 0x1a];
    let m5: [u8; 11] = [0x54, 0x4c, 0x47, 0x35, 0x2e, 0x30, 0x00, 0x72, 0x61, 0x77, 0x1a];
    let m6: [u8; 11] = [0x54, 0x4c, 0x47, 0x36, 0x2e, 0x30, 0x00, 0x72, 0x61, 0x77, 0x1a];
    assert(m0@ =~= magic_tlg0());
    assert(m5@ =~= magic_tlg5());
    assert(m6@ =~= magic_tlg6());
    starts_with(data, m0.as_slice()) || starts_with(data, m5.as_slice()) || starts_with(
        data,
        m6.as_slice(),
    )
}

/// Check if it's a valid TLG.
///
/// Same as [`is_valid_tlg`], on the first 11 bytes of a source; fails where
/// the source holds fewer.
pub fn check_tlg(data: ByteReader<'_>) -> (res: Result<bool, TlgError>)
    ensures
        match res {
            Ok(b) => data.source().len() >= 11 && b == valid_tlg(data.source()),
            Err(e) => data.source().len() < 11 && e == TlgError::Io,
        },
{
    let mut data = data;
    data.rewind();
    match data.read_exact(11) {
        Ok(header) => {
            proof {
                let all = data.source();
                assert(header@.take(11) =~= all.take(11));
            }
            Ok(is_valid_tlg(header))
        },
        Err(e) => Err(e),
    }
}

} // verus!
