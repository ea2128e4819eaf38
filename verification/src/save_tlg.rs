//! Encoding of images, bare or in the TLG0.0 container.
use crate::container::{tags_name, tlg_encode};
use crate::decimal::append_decimal;
use crate::stream::{u32_bytes, ByteWriter, WriteExt};
use crate::tlg5::{pixel_bytes, tlg5_body};
use crate::tlg5_saver::{encode_check, save_tlg5};
use crate::types::{Tlg, TlgError};
use crate::{magic_tlg0, magic_tlg5};
use vstd::prelude::*;
use vstd::string::StringExecFns;

verus! {

/// Whether the image has fewer bytes than its pixels take.
fn data_too_small(img: &Tlg) -> (b: bool)
    ensures
        b == (img.data@.len() < pixel_bytes(img@)),
{
    let k = img.color.channels();
    assert(img.width as u128 * (img.height as u128) * (k as u128) <= 0x4_0000_0000_0000_0000)
        by (nonlinear_arith)
        requires
            img.width <= 0xffff_ffff,
            img.height <= 0xffff_ffff,
            k <= 4,
    ;
    assert(img.width as u128 * (img.height as u128) <= 0x1_0000_0000_0000_0000)
        by (nonlinear_arith)
        requires
            img.width <= 0xffff_ffff,
            img.height <= 0xffff_ffff,
    ;
    (img.data.len() as u128) < img.width as u128 * (img.height as u128) * (k as u128)
}

/// Encode TLG image: as a raw TLG5 stream where it has no tags, else in a
/// TLG0.0 container with a `tags` chunk. Fails, and writes nothing, where
/// the image cannot be encoded.
pub fn save_tlg(img: &Tlg, writer: &mut ByteWriter) -> (res: Result<(), TlgError>)
    ensures
        match tlg_encode(img@, img.tags.entries()) {
            Err(msg) => res matches Err(TlgError::EncodeError(m)) && m@ == msg && final(writer)@
                == old(writer)@,
            Ok(bytes) => res is Ok && final(writer)@ == old(writer)@ + bytes,
        },
{
    let refusal = encode_check(img);
    if data_too_small(img) {
        match refusal {
            Some(e) => {
                return Err(e);
            },
            None => {},
        }
    }
    if img.version != 5 {
        let mut m = String::from_str("Unsupported TLG version: ");
        append_decimal(&mut m, img.version as u128);
        return Err(TlgError::EncodeError(m));
    }
    if img.tags.is_empty() {
        return save_tlg5(img, writer);
    }
    let mut raw = ByteWriter::new();
    match save_tlg5(img, &mut raw) {
        Ok(()) => {},
        Err(e) => {
            return Err(e);
        },
    }
    let raw = raw.into_bytes();
    assert(raw@ =~= magic_tlg5() + tlg5_body(img@));
    if raw.len() as u64 > 0xffff_ffff {
        return Err(
            TlgError::EncodeError(String::from_str("Image stream is too long for a tagged file")),
        );
    }
    let payload = img.tags.serialize();
    if payload.len() as u64 > 0xffff_ffff {
        return Err(TlgError::EncodeError(String::from_str("Tags are too long")));
    }
    let m0: [u8; 11] = [0x54, 0x4c, 0x47, 0x30, 0x2e, 0x30, 0x00, 0x73, 0x64, 0x73, 0x1a];
    let name: [u8; 4] = [0x74, 0x61, 0x67, 0x73];
    assert(m0@ =~= magic_tlg0());
    assert(name@ =~= tags_name());
    writer.write_all(m0.as_slice());
    writer.write_u32(raw.len() as u32);
    writer.write_all(raw.as_slice());
    writer.write_all(name.as_slice());
    writer.write_u32(payload.len() as u32);
    writer.write_all(payload.as_slice());
    assert(writer@ =~= old(writer)@ + (magic_tlg0() + u32_bytes(raw@.len() as u32) + raw@
        + tags_name() + u32_bytes(payload@.len() as u32) + payload@));
    Ok(())
}

} // verus!
