//! The TLG0.0 container as mathematics: what a file decodes to and what an
//! image with its tags encodes to.
use crate::decimal::decimal_text;
use crate::stream::{u32_at, u32_bytes};
use crate::tags::{parse_tags, tags_bytes};
use crate::tlg5::{encode_refusal, pixel_bytes, skip_up_to, tlg5_body, tlg5_decode};
use crate::tlg6::tlg6_decode;
use crate::types::{Failure, TlgView};
use crate::{has_prefix, magic_tlg0, magic_tlg5, magic_tlg6};
use vstd::prelude::*;

verus! {

/// The name of the chunk that holds the tags.
pub open spec fn tags_name() -> Seq<u8> {
    seq![0x74u8, 0x61, 0x67, 0x73]
}

/// The image that a raw TLG5 or TLG6 stream holds.
pub open spec fn raw_decode(src: Seq<u8>) -> Result<TlgView, Failure> {
    if src.len() < 11 {
        Err(Failure::Io)
    } else if has_prefix(src, magic_tlg5()) {
        tlg5_decode(src.skip(11))
    } else if has_prefix(src, magic_tlg6()) {
        tlg6_decode(src.skip(11))
    } else {
        Err(Failure::InvalidFormat)
    }
}

/// Reads the chunks behind a raw stream: the records of each `tags` chunk
/// go into `tags`, other chunks are passed over. The reading ends with the
/// file or with a malformed record.
pub open spec fn scan_chunks(rest: Seq<u8>, tags: Map<Seq<u8>, Seq<u8>>) -> Result<
    Map<Seq<u8>, Seq<u8>>,
    Failure,
>
    decreases rest.len(),
{
    if rest.len() < 4 {
        Ok(tags)
    } else if rest.len() < 8 {
        Err(Failure::Io)
    } else {
        let size = u32_at(rest, 4) as int;
        let body = rest.skip(8);
        if rest.take(4) == tags_name() {
            if body.len() < size {
                Err(Failure::Io)
            } else {
                let (t, go_on) = parse_tags(body.take(size), 0, tags);
                if go_on {
                    scan_chunks(body.skip(size), t)
                } else {
                    Ok(t)
                }
            }
        } else {
            scan_chunks(skip_up_to(body, size), tags)
        }
    }
}

/// The image that a file holds: a raw stream, or a raw stream in a TLG0.0
/// container with chunks behind it.
pub open spec fn tlg_decode(src: Seq<u8>) -> Result<TlgView, Failure> {
    if src.len() < 11 {
        Err(Failure::Io)
    } else if has_prefix(src, magic_tlg0()) {
        if src.len() < 15 {
            Err(Failure::Io)
        } else {
            match raw_decode(src.skip(15)) {
                Err(e) => Err(e),
                Ok(img) => match scan_chunks(
                    skip_up_to(src, 15 + u32_at(src, 11) as int),
                    img.tags,
                ) {
                    Err(e) => Err(e),
                    Ok(tags) => Ok(TlgView { tags, ..img }),
                },
            }
        }
    } else {
        raw_decode(src)
    }
}

/// The message for an image of a version that cannot be encoded.
pub open spec fn version_message(version: u32) -> Seq<char> {
    "Unsupported TLG version: "@ + decimal_text(version as nat)
}

/// The file for an image and the entries of its tags, or the message that says
/// why there is none: a raw TLG5 stream where there are no tags, a
/// TLG0.0 container with the stream and a `tags` chunk otherwise.
pub open spec fn tlg_encode(img: TlgView, entries: Seq<(Seq<u8>, Seq<u8>)>) -> Result<
    Seq<u8>,
    Seq<char>,
> {
    if img.data.len() < pixel_bytes(img) {
        Err(encode_refusal(img)->0)
    } else if img.version != 5 {
        Err(version_message(img.version))
    } else {
        match encode_refusal(img) {
            Some(m) => Err(m),
            None => {
                let raw = magic_tlg5() + tlg5_body(img);
                let payload = tags_bytes(entries);
                if entries.len() == 0 {
                    Ok(raw)
                } else if raw.len() > u32::MAX {
                    Err("Image stream is too long for a tagged file"@)
                } else if payload.len() > u32::MAX {
                    Err("Tags are too long"@)
                } else {
                    Ok(
                        magic_tlg0() + u32_bytes(raw.len() as u32) + raw + tags_name() + u32_bytes(
                            payload.len() as u32,
                        ) + payload,
                    )
                }
            },
        }
    }
}

} // verus!
