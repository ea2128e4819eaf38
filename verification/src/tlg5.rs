//! The TLG5 stream as mathematics: what a stream decodes to and what an
//! image encodes to.
use crate::decimal::decimal_text;
use crate::dictionary::{encode_tokens, SlideState};
use crate::lzss::{lzss_unpack, pack_tokens};
use crate::stream::{low32, u32_at, u32_bytes};
use crate::types::{Failure, TlgColorType, TlgView};
use vstd::prelude::*;

verus! {

/// Height of the blocks that the encoder writes.
pub const BLOCK_HEIGHT: u32 = 4;

/// The fields that open a TLG5 stream.
pub struct Tlg5Header {
    pub colors: u8,
    pub width: u32,
    pub height: u32,
    pub blockheight: u32,
}

impl Tlg5Header {
    /// Number of bytes in a row of pixels.
    pub open spec fn stride(self) -> int {
        self.width as int * self.colors as int
    }

    /// Size of the buffer that holds the deltas of one channel of one block.
    pub open spec fn plane_size(self) -> int {
        self.blockheight as int * self.width as int + 10
    }

    /// Number of blocks, for a height and a block height above 0.
    pub open spec fn block_count(self) -> int {
        (self.height as int - 1) / (self.blockheight as int) + 1
    }

    /// The buffers of a block and a row of pixels fit into memory.
    pub open spec fn fits(self) -> bool {
        self.plane_size() <= usize::MAX && self.stride() <= usize::MAX
    }
}

/// What the decoder keeps between blocks: the window of the dictionary with
/// its write position, and the delta buffers of the channels.
pub struct Planes {
    pub window: Seq<u8>,
    pub cursor: int,
    pub bufs: Seq<Seq<u8>>,
}

/// `fresh` over the front of `old_out`.
pub open spec fn overlay(fresh: Seq<u8>, old_out: Seq<u8>) -> Seq<u8> {
    fresh + old_out.skip(fresh.len() as int)
}

/// Reads the part of a block that belongs to channel `c`: a mark, a size,
/// and as many bytes, which are packed where the mark is 0.
pub open spec fn read_plane(rest: Seq<u8>, st: Planes, c: int, cap: int) -> Result<
    (Seq<u8>, Planes),
    Failure,
> {
    if rest.len() < 5 {
        Err(Failure::Io)
    } else {
        let mark = rest[0];
        let size = u32_at(rest, 1) as int;
        let body = rest.skip(5);
        if size > cap {
            Err(Failure::IndexOutOfRange)
        } else if body.len() < size {
            Err(Failure::Io)
        } else if mark == 0 {
            match lzss_unpack(body.take(size), st.window, st.cursor) {
                Some(u) => if u.out.len() <= cap {
                    Ok(
                        (
                            body.skip(size),
                            Planes {
                                window: u.window,
                                cursor: u.cursor,
                                bufs: st.bufs.update(c, overlay(u.out, st.bufs[c])),
                            },
                        ),
                    )
                } else {
                    Err(Failure::IndexOutOfRange)
                },
                None => Err(Failure::IndexOutOfRange),
            }
        } else {
            Ok(
                (
                    body.skip(size),
                    Planes { bufs: st.bufs.update(c, overlay(body.take(size), st.bufs[c])), ..st },
                ),
            )
        }
    }
}

/// Reads the parts of a block for the channels from `c` on.
pub open spec fn read_planes(rest: Seq<u8>, st: Planes, colors: int, c: int, cap: int) -> Result<
    (Seq<u8>, Planes),
    Failure,
>
    decreases colors - c,
{
    if c >= colors {
        Ok((rest, st))
    } else {
        match read_plane(rest, st, c, cap) {
            Err(e) => Err(e),
            Ok((r, s)) => read_planes(r, s, colors, c + 1, cap),
        }
    }
}

/// The delta of channel `c` at pixel `x` of the row that starts at `off` in
/// the buffers: blue and red are stored relative to green.
pub open spec fn delta_at(bufs: Seq<Seq<u8>>, colors: int, off: int, c: int, x: int) -> u8 {
    let v = bufs[c][off + x];
    if colors >= 3 && (c == 0 || c == 2) {
        v.wrapping_add(bufs[1][off + x])
    } else {
        v
    }
}

/// The sum modulo 256 of the deltas of channel `c` up to pixel `x`.
pub open spec fn running(bufs: Seq<Seq<u8>>, colors: int, off: int, c: int, x: int) -> u8
    decreases x + 1,
{
    if x < 0 {
        0
    } else {
        running(bufs, colors, off, c, x - 1).wrapping_add(delta_at(bufs, colors, off, c, x))
    }
}

/// A row of pixels: the running sums of its deltas plus the row above it.
pub open spec fn row_of(
    bufs: Seq<Seq<u8>>,
    colors: int,
    off: int,
    width: int,
    upper: Seq<u8>,
) -> Seq<u8> {
    Seq::new(
        (width * colors) as nat,
        |i: int| running(bufs, colors, off, i % colors, i / colors).wrapping_add(upper[i]),
    )
}

/// The rows `k..rows` of a block behind `data`; with them comes the last row.
pub open spec fn rows_of(
    bufs: Seq<Seq<u8>>,
    colors: int,
    width: int,
    rows: int,
    k: int,
    upper: Seq<u8>,
    data: Seq<u8>,
) -> (Seq<u8>, Seq<u8>)
    decreases rows - k,
{
    if k >= rows {
        (data, upper)
    } else {
        let r = row_of(bufs, colors, k * width, width, upper);
        rows_of(bufs, colors, width, rows, k + 1, r, data + r)
    }
}

/// Number of rows in the block that starts at row `y`.
pub open spec fn rows_in_block(h: Tlg5Header, y: int) -> int {
    if h.height - y < h.blockheight {
        h.height - y
    } else {
        h.blockheight as int
    }
}

/// The pixels of the blocks from row `y` on, behind `data`.
pub open spec fn blocks(
    rest: Seq<u8>,
    st: Planes,
    h: Tlg5Header,
    y: int,
    upper: Seq<u8>,
    data: Seq<u8>,
) -> Result<Seq<u8>, Failure>
    decreases
            if y < h.height {
                h.height - y
            } else {
                0
            },
{
    if y >= h.height {
        Ok(data)
    } else {
        match read_planes(rest, st, h.colors as int, 0, h.plane_size()) {
            Err(e) => Err(e),
            Ok((r, s)) => {
                let (d, u) = rows_of(
                    s.bufs,
                    h.colors as int,
                    h.width as int,
                    rows_in_block(h, y),
                    0,
                    upper,
                    data,
                );
                let step = if h.blockheight > 0 { h.blockheight as int } else { 1 };
                blocks(r, s, h, y + step, u, d)
            },
        }
    }
}

/// `n` zero bytes.
pub open spec fn zeros(n: int) -> Seq<u8> {
    Seq::new(n as nat, |i: int| 0u8)
}

/// What the decoder starts from: a window of zeros and zeroed buffers.
pub open spec fn initial_planes(h: Tlg5Header) -> Planes {
    Planes {
        window: zeros(4096),
        cursor: 0,
        bufs: Seq::new(h.colors as nat, |c: int| zeros(h.plane_size())),
    }
}

/// The fields that open the stream `src`, which holds 13 bytes or more.
pub open spec fn header_of(src: Seq<u8>) -> Tlg5Header {
    Tlg5Header {
        colors: src[0],
        width: u32_at(src, 1),
        height: u32_at(src, 5),
        blockheight: u32_at(src, 9),
    }
}

/// `s` without its first `n` bytes, or without all of them where it is shorter.
pub open spec fn skip_up_to(s: Seq<u8>, n: int) -> Seq<u8> {
    if n <= s.len() {
        s.skip(n)
    } else {
        Seq::empty()
    }
}

/// The image that a TLG5 stream holds behind its signature.
#[verifier::opaque]
pub open spec fn tlg5_decode(src: Seq<u8>) -> Result<TlgView, Failure> {
    if src.len() < 13 {
        Err(Failure::Io)
    } else {
        let h = header_of(src);
        match TlgColorType::spec_from_channels(h.colors) {
            None => Err(Failure::UnsupportedColorType(h.colors)),
            Some(color) => if h.height == 0 || h.blockheight == 0 {
                Err(Failure::InvalidFormat)
            } else if !h.fits() {
                Err(Failure::IndexOutOfRange)
            } else {
                let rest = skip_up_to(src.skip(13), 4 * h.block_count());
                match blocks(rest, initial_planes(h), h, 0, zeros(h.stride()), Seq::empty()) {
                    Err(e) => Err(e),
                    Ok(data) => Ok(
                        TlgView {
                            tags: Map::empty(),
                            version: 5,
                            width: h.width,
                            height: h.height,
                            color,
                            data,
                        },
                    ),
                }
            },
        }
    }
}

/// Byte `c` of pixel `x` in row `y` of the image `data`.
pub open spec fn pixel(data: Seq<u8>, h: Tlg5Header, y: int, x: int, c: int) -> u8 {
    data[(y * h.width + x) * h.colors + c]
}

/// A byte of the image minus the byte above it, modulo 256.
pub open spec fn residual(data: Seq<u8>, h: Tlg5Header, y: int, x: int, c: int) -> u8 {
    if y > 0 {
        pixel(data, h, y, x, c).wrapping_sub(pixel(data, h, y - 1, x, c))
    } else {
        pixel(data, h, y, x, c)
    }
}

/// A residual minus the residual of the pixel to its left, modulo 256.
pub open spec fn step_delta(data: Seq<u8>, h: Tlg5Header, y: int, x: int, c: int) -> u8 {
    if x > 0 {
        residual(data, h, y, x, c).wrapping_sub(residual(data, h, y, x - 1, c))
    } else {
        residual(data, h, y, x, c)
    }
}

/// The delta that the encoder stores: blue and red relative to green.
pub open spec fn stored_delta(data: Seq<u8>, h: Tlg5Header, y: int, x: int, c: int) -> u8 {
    let v = step_delta(data, h, y, x, c);
    if h.colors >= 3 && (c == 0 || c == 2) {
        v.wrapping_sub(step_delta(data, h, y, x, 1))
    } else {
        v
    }
}

/// The stored deltas of channel `c` in row `y`.
pub open spec fn plane_row(data: Seq<u8>, h: Tlg5Header, y: int, c: int) -> Seq<u8> {
    Seq::new(h.width as nat, |x: int| stored_delta(data, h, y, x, c))
}

/// The stored deltas of channel `c` in the `n` rows from row `y0` on.
pub open spec fn plane_of(data: Seq<u8>, h: Tlg5Header, y0: int, n: int, c: int) -> Seq<u8>
    decreases n,
{
    if n <= 0 {
        Seq::empty()
    } else {
        plane_of(data, h, y0, n - 1, c) + plane_row(data, h, y0 + n - 1, c)
    }
}

/// The part of a block for one channel, and the dictionary behind it: the
/// plane is packed where that makes it shorter, and stored as it is
/// otherwise, and then the dictionary stays as it was. The part is a mark, 0
/// for packed and 1 for stored, the low 32 bits of the number of bytes that
/// follow, and those bytes.
pub open spec fn packed_plane(st: SlideState, plane: Seq<u8>) -> (Seq<u8>, SlideState) {
    let packed = pack_tokens(encode_tokens(st, plane, 0));
    if packed.len() < plane.len() {
        (seq![0u8] + u32_bytes(low32(packed.len() as int)) + packed, st.feed(plane))
    } else {
        (seq![1u8] + u32_bytes(low32(plane.len() as int)) + plane, st)
    }
}

/// Number of bytes behind the mark and the size in the part of a block for one channel.
pub open spec fn record_len(st: SlideState, plane: Seq<u8>) -> int {
    let packed = pack_tokens(encode_tokens(st, plane, 0));
    if packed.len() < plane.len() {
        packed.len() as int
    } else {
        plane.len() as int
    }
}

/// In the parts of a block for the channels from `c` on, every size is
/// less than 2^32, so that the part holds it in full.
pub open spec fn block_fits(
    st: SlideState,
    data: Seq<u8>,
    h: Tlg5Header,
    y0: int,
    n: int,
    c: int,
) -> bool
    decreases h.colors - c,
{
    if c >= h.colors {
        true
    } else {
        let plane = plane_of(data, h, y0, n, c);
        record_len(st, plane) <= u32::MAX && block_fits(
            packed_plane(st, plane).1,
            data,
            h,
            y0,
            n,
            c + 1,
        )
    }
}

/// In the blocks from row `y` on, every size of a part is less than 2^32.
pub open spec fn blocks_fit(st: SlideState, data: Seq<u8>, h: Tlg5Header, y: int) -> bool
    decreases
            if y < h.height {
                h.height - y
            } else {
                0
            },
{
    if y >= h.height {
        true
    } else {
        let n = rows_in_block(h, y);
        let step = if h.blockheight > 0 { h.blockheight as int } else { 1 };
        block_fits(st, data, h, y, n, 0) && blocks_fit(
            block_bytes(st, data, h, y, n, 0).1,
            data,
            h,
            y + step,
        )
    }
}

/// The parts of a block for the channels from `c` on, and the dictionary behind them.
pub open spec fn block_bytes(
    st: SlideState,
    data: Seq<u8>,
    h: Tlg5Header,
    y0: int,
    n: int,
    c: int,
) -> (Seq<u8>, SlideState)
    decreases h.colors - c,
{
    if c >= h.colors {
        (Seq::empty(), st)
    } else {
        let (a, s1) = packed_plane(st, plane_of(data, h, y0, n, c));
        let (b, s2) = block_bytes(s1, data, h, y0, n, c + 1);
        (a + b, s2)
    }
}

/// The blocks from row `y` on, with the low 32 bits of the size of each.
pub open spec fn encode_blocks(st: SlideState, data: Seq<u8>, h: Tlg5Header, y: int) -> (
    Seq<u8>,
    Seq<u32>,
)
    decreases
            if y < h.height {
                h.height - y
            } else {
                0
            },
{
    if y >= h.height {
        (Seq::empty(), Seq::empty())
    } else {
        let (a, s1) = block_bytes(st, data, h, y, rows_in_block(h, y), 0);
        let step = if h.blockheight > 0 { h.blockheight as int } else { 1 };
        let (b, z) = encode_blocks(s1, data, h, y + step);
        (a + b, seq![low32(a.len() as int)] + z)
    }
}

/// The table of block sizes.
pub open spec fn table_bytes(sizes: Seq<u32>) -> Seq<u8>
    decreases sizes.len(),
{
    if sizes.len() == 0 {
        Seq::empty()
    } else {
        table_bytes(sizes.drop_last()) + u32_bytes(sizes.last())
    }
}

/// The header that the encoder writes for an image.
pub open spec fn header_for(img: TlgView) -> Tlg5Header {
    Tlg5Header {
        colors: img.color.spec_channels() as u8,
        width: img.width,
        height: img.height,
        blockheight: BLOCK_HEIGHT,
    }
}

/// Number of bytes that the pixels of an image take.
pub open spec fn pixel_bytes(img: TlgView) -> int {
    img.width as int * img.height as int * img.color.spec_channels()
}

/// Why an image cannot be encoded, if it cannot.
pub open spec fn encode_refusal(img: TlgView) -> Option<Seq<char>> {
    if img.data.len() < pixel_bytes(img) {
        Some(
            "Image data size too small: expected "@ + decimal_text(pixel_bytes(img) as nat)
                + ", got "@ + decimal_text(img.data.len()),
        )
    } else if img.height == 0 {
        Some("Image height must not be 0"@)
    } else {
        None
    }
}

/// The TLG5 stream of an image that can be encoded, behind its signature.
#[verifier::opaque]
pub open spec fn tlg5_body(img: TlgView) -> Seq<u8> {
    let h = header_for(img);
    let (body, sizes) = encode_blocks(SlideState::initial(), img.data, h, 0);
    seq![h.colors] + u32_bytes(h.width) + u32_bytes(h.height) + u32_bytes(h.blockheight)
        + table_bytes(sizes) + body
}

} // verus!
