//! The TLG6 stream as mathematics: Golomb-Rice codes, the pixel filters and
//! the image that a stream decodes to.
use crate::lzss::lzss_unpack;
use crate::stream::u32_at;
use crate::tlg5::{overlay, zeros};
use crate::types::{Failure, TlgColorType, TlgView};
use vstd::prelude::*;

verus! {

/// Width of a block of pixels.
pub const TLG6_W_BLOCK_SIZE: usize = 8;

/// Height of a block of pixels.
pub const TLG6_H_BLOCK_SIZE: usize = 8;

/// For the low twelve bits of `i` from bit `cnt` on: the place of the lowest
/// bit that is set, counted from 1, or 0 where none is set.
pub open spec fn lead_from(i: u32, cnt: u32) -> u8
    decreases 12 - cnt,
{
    if cnt >= 12 {
        0
    } else if (i >> cnt) & 1 == 1 {
        (cnt + 1) as u8
    } else {
        lead_from(i, (cnt + 1) as u32)
    }
}

/// Entry `i` of the leading-zero table: the number of bits up to and with
/// the lowest set bit of a twelve-bit window, or 0 for an empty window.
pub open spec fn lead(i: u32) -> u8 {
    lead_from(i, 0)
}

/// For each of the four contexts, how many values of the running sum in a
/// row share each of the nine bit lengths.
pub open spec fn golomb_runs() -> Seq<Seq<int>> {
    seq![
        seq![3, 7, 15, 27, 63, 108, 223, 448, 130],
        seq![3, 5, 13, 24, 51, 95, 192, 384, 257],
        seq![2, 5, 12, 21, 39, 86, 155, 320, 384],
        seq![2, 3, 9, 18, 33, 61, 129, 258, 511],
    ]
}

/// The first bit length from `i` on whose share, counted from `start`, holds `a`.
pub open spec fn golomb_k_from(n: int, a: int, i: int, start: int) -> int
    decreases 9 - i,
{
    if i >= 8 {
        8
    } else if a < start + golomb_runs()[n][i] {
        i
    } else {
        golomb_k_from(n, a, i + 1, start + golomb_runs()[n][i])
    }
}

/// The bit length of the Golomb code for the running sum `a` in context `n`.
pub open spec fn golomb_k(a: int, n: int) -> int {
    golomb_k_from(n, a, 0, 0)
}

/// The little-endian value of the four bytes at `loc`, if they are there.
pub open spec fn fetch32(pool: Seq<u8>, loc: int) -> Option<u32> {
    if loc < 0 || pool.len() < loc + 4 {
        None
    } else {
        Some(u32_at(pool, loc))
    }
}

/// The bits of the pool from bit `p` on, as far as the four bytes hold that start in its byte.
pub open spec fn peek(pool: Seq<u8>, p: int) -> Option<u32> {
    match fetch32(pool, p / 8) {
        None => None,
        Some(w) => Some(w >> ((p % 8) as u32)),
    }
}

/// Passes over empty windows of twelve bits from bit `p` on. Gives the
/// number of bits up to and with the first set bit, the start of the window
/// that holds it, and the bits from there on.
pub open spec fn unary(pool: Seq<u8>, p: int, acc: int) -> Option<(int, int, u32)>
    decreases
            if p < 8 * pool.len() {
                8 * pool.len() - p
            } else {
                0
            },
{
    match peek(pool, p) {
        None => None,
        Some(t) => {
            let b = lead(t & 0xfff);
            if b == 0 {
                if p >= 0 {
                    unary(pool, p + 12, acc + 12)
                } else {
                    None
                }
            } else {
                Some((acc + b, p, t))
            }
        },
    }
}

/// Reads the length of a run at bit `p`: as many zero bits as the number
/// has bits below its highest, a set bit, and those lower bits. Gives the
/// length and the bit behind it.
pub open spec fn run_count(pool: Seq<u8>, p: int) -> Option<(int, int)> {
    match unary(pool, p, 0) {
        None => None,
        Some((bits, q, t)) => {
            let z = bits - 1;
            let q2 = q + lead(t & 0xfff);
            if z >= 32 {
                None
            } else {
                match peek(pool, q2) {
                    None => None,
                    Some(t2) => {
                        let base = 1u32 << (z as u32);
                        Some(((base + (t2 & ((base - 1) as u32))) as int, q2 + z))
                    },
                }
            }
        },
    }
}

/// Reads a Golomb code of `k` low bits at bit `p`. Gives the code and the bit behind it.
pub open spec fn golomb_code(pool: Seq<u8>, p: int, k: int) -> Option<(int, int)> {
    match peek(pool, p) {
        None => None,
        Some(t) => if t != 0 {
            match unary(pool, p, 0) {
                None => None,
                Some((bits, q, tq)) => {
                    let b = lead(tq & 0xfff);
                    let low = (tq >> (b as u32)) & (((1u32 << (k as u32)) - 1) as u32);
                    Some((((bits - 1) * pow2k(k)) + low, q + b + k))
                },
            }
        } else {
            let idx = p / 8 + 5;
            if pool.len() < idx {
                None
            } else {
                match fetch32(pool, idx) {
                    None => None,
                    Some(t2) => {
                        let low = t2 & (((1u32 << (k as u32)) - 1) as u32);
                        Some((pool[idx - 1] as int * pow2k(k) + low, 8 * idx + k))
                    },
                }
            }
        },
    }
}

/// Two to the power of a bit length.
pub open spec fn pow2k(k: int) -> int {
    if k <= 0 {
        1
    } else if k == 1 {
        2
    } else if k == 2 {
        4
    } else if k == 3 {
        8
    } else if k == 4 {
        16
    } else if k == 5 {
        32
    } else if k == 6 {
        64
    } else if k == 7 {
        128
    } else {
        256
    }
}

/// The byte that a code stands for: odd codes count up from 1, even codes down from -1.
pub open spec fn code_byte(v: int) -> u8 {
    let half = v / 2;
    let val = if v % 2 == 1 { half + 1 } else { -half - 1 };
    (val % 256) as u8
}

/// The pixel `px` with its byte `c` replaced by `b`; byte 0 is the lowest.
pub open spec fn set_byte(px: u32, c: int, b: u8) -> u32 {
    if c == 0 {
        (px & 0xffff_ff00) | (b as u32)
    } else if c == 1 {
        (px & 0xffff_00ff) | ((b as u32) << 8)
    } else if c == 2 {
        (px & 0xff00_ffff) | ((b as u32) << 16)
    } else {
        (px & 0x00ff_ffff) | ((b as u32) << 24)
    }
}

/// What a decoded byte makes of a pixel: the whole pixel in the first
/// channel of a color image, one byte of it otherwise.
pub open spec fn put_channel(px: u32, first: bool, c: int, b: u8) -> u32 {
    if first {
        b as u32
    } else {
        set_byte(px, c, b)
    }
}

/// The context of the Golomb codes: which of four, and the running sum.
pub struct Adapt {
    pub n: int,
    pub a: int,
}

/// Where a run of codes ends: the pixels as they then are, the bit behind
/// the last code read, the context, and whether all codes of the run were read.
pub struct RunEnd {
    pub buf: Seq<u32>,
    pub p: int,
    pub ad: Adapt,
    pub ok: bool,
}

/// Decodes a run of `count` codes into the pixels from `index` on. The run
/// ends early, with the pixels decoded before, where the running sum leaves
/// the table, the buffer ends, or the pool ends inside a code.
pub open spec fn values_run(
    buf: Seq<u32>,
    pool: Seq<u8>,
    first: bool,
    c: int,
    p: int,
    ad: Adapt,
    index: int,
    count: int,
) -> RunEnd
    decreases count,
{
    if count <= 0 {
        RunEnd { buf, p, ad, ok: true }
    } else if ad.a >= 1024 || ad.a < 0 || index >= buf.len() || index < 0 {
        RunEnd { buf, p, ad, ok: false }
    } else {
        match golomb_code(pool, p, golomb_k(ad.a, ad.n)) {
            None => RunEnd { buf, p, ad, ok: false },
            Some((v, pn)) => {
                let sum = ad.a + v / 2;
                let next = if ad.n == 0 {
                    Adapt { n: 3, a: sum / 2 }
                } else {
                    Adapt { n: ad.n - 1, a: sum }
                };
                values_run(
                    buf.update(index, put_channel(buf[index], first, c, code_byte(v))),
                    pool,
                    first,
                    c,
                    pn,
                    next,
                    index + 1,
                    count - 1,
                )
            },
        }
    }
}

/// A run of `count` zero bytes in the pixels from `index` on.
pub open spec fn zero_run(buf: Seq<u32>, first: bool, c: int, index: int, count: int) -> Seq<u32> {
    Seq::new(
        buf.len(),
        |i: int|
            if index <= i < index + count {
                put_channel(buf[i], first, c, 0)
            } else {
                buf[i]
            },
    )
}

/// What a decoding leaves: the pixels, and whether it came to its end.
pub struct Decoded {
    pub buf: Seq<u32>,
    pub ok: bool,
}

/// Decodes runs, of zeros and of codes in turn, until `pixel_count` pixels
/// are done. The decoding fails, and leaves the pixels as the runs before
/// left them, where the length of a run cannot be read or a run of zeros
/// does not fit into the buffer; it fails with the pixels of the codes read
/// before where a run of codes ends early.
pub open spec fn golomb_runs_from(
    buf: Seq<u32>,
    pool: Seq<u8>,
    first: bool,
    c: int,
    pixel_count: int,
    p: int,
    ad: Adapt,
    zero: bool,
    index: int,
) -> Decoded
    decreases
            if index < buf.len() {
                buf.len() - index
            } else {
                0
            },
{
    if index >= pixel_count {
        Decoded { buf, ok: true }
    } else {
        match run_count(pool, p) {
            None => Decoded { buf, ok: false },
            Some((count, pn)) => if count < 1 || index < 0 {
                Decoded { buf, ok: false }
            } else if zero {
                if index + count > buf.len() {
                    Decoded { buf, ok: false }
                } else {
                    golomb_runs_from(
                        zero_run(buf, first, c, index, count),
                        pool,
                        first,
                        c,
                        pixel_count,
                        pn,
                        ad,
                        false,
                        index + count,
                    )
                }
            } else {
                let r = values_run(buf, pool, first, c, pn, ad, index, count);
                if r.ok && r.buf.len() == buf.len() && index + count <= buf.len() {
                    golomb_runs_from(
                        r.buf,
                        pool,
                        first,
                        c,
                        pixel_count,
                        r.p,
                        r.ad,
                        true,
                        index + count,
                    )
                } else {
                    Decoded { buf: r.buf, ok: false }
                }
            },
        }
    }
}

/// What decoding the bytes of channel `c` of `pixel_count` pixels from the
/// pool leaves in the pixels, and whether the pool and the buffer were long
/// enough for it. An empty pool leaves the pixels as they are.
pub open spec fn golomb_decode(
    buf: Seq<u32>,
    pixel_count: int,
    pool: Seq<u8>,
    first: bool,
    c: int,
) -> Decoded {
    if pool.len() == 0 {
        Decoded { buf, ok: false }
    } else {
        golomb_runs_from(
            buf,
            pool,
            first,
            c,
            pixel_count,
            1,
            Adapt { n: 3, a: 0 },
            pool[0] & 1 == 0,
            0,
        )
    }
}

/// For each byte of `a` and `b`: 0xff where that of `a` is greater, 0 otherwise.
pub open spec fn gt_mask(a: u32, b: u32) -> u32 {
    let tmp2 = !b;
    let tmp = ((a & tmp2).wrapping_add(((a ^ tmp2) >> 1) & 0x7f7f7f7f)) & 0x80808080;
    ((tmp >> 7).wrapping_add(0x7f7f7f7f)) ^ 0x7f7f7f7f
}

/// The sums modulo 256 of the bytes of `a` and `b`.
pub open spec fn bytes_add(a: u32, b: u32) -> u32 {
    let tmp = (((a & b) << 1).wrapping_add((a ^ b) & 0xfefefefe)) & 0x01010100;
    a.wrapping_add(b).wrapping_sub(tmp)
}

/// For each byte the median of `a`, `b` and `a + b - c`.
pub open spec fn med_of(a: u32, b: u32, c: u32) -> u32 {
    let aa_gt_bb = gt_mask(a, b);
    let x = (a ^ b) & aa_gt_bb;
    let aa = x ^ a;
    let bb = x ^ b;
    let n = gt_mask(c, bb);
    let nn = gt_mask(aa, c);
    let m = !(n | nn);
    (n & aa) | (nn & bb) | (bb & m).wrapping_sub(c & m).wrapping_add(aa & m)
}

/// For each byte the mean of `x` and `y`, rounded up.
pub open spec fn avg_of(x: u32, y: u32) -> u32 {
    ((x & y).wrapping_add(((x ^ y) & 0xfefefefe) >> 1)).wrapping_add((x ^ y) & 0x01010101)
}

/// A pixel from its four bytes.
pub open spec fn pack_bgra(b: u8, g: u8, r: u8, a: u8) -> u32 {
    ((0xff0000u32 & ((r as u32) << 16)) + (0xff00u32 & ((g as u32) << 8)) + (0xffu32 & (b as u32))
        + ((a as u32) << 24)) as u32
}

/// The residual of a pixel with blue, green and red recombined as the scheme says.
pub open spec fn recombine(scheme: int, ib: u8, ig: u8, ir: u8, ia: u8) -> u32 {
    let bg = ib.wrapping_add(ig);
    let br = ib.wrapping_add(ir);
    let gr = ig.wrapping_add(ir);
    let bgr = bg.wrapping_add(ir);
    let b2 = ib.wrapping_add(ib);
    if scheme == 0 {
        pack_bgra(ib, ig, ir, ia)
    } else if scheme == 1 {
        pack_bgra(bg, ig, gr, ia)
    } else if scheme == 2 {
        pack_bgra(ib, bg, bgr, ia)
    } else if scheme == 3 {
        pack_bgra(bgr, gr, ir, ia)
    } else if scheme == 4 {
        pack_bgra(br, bgr, bgr.wrapping_add(ir), ia)
    } else if scheme == 5 {
        pack_bgra(br, bgr, ir, ia)
    } else if scheme == 6 {
        pack_bgra(bg, ig, ir, ia)
    } else if scheme == 7 {
        pack_bgra(ib, bg, ir, ia)
    } else if scheme == 8 {
        pack_bgra(ib, ig, gr, ia)
    } else if scheme == 9 {
        pack_bgra(bgr.wrapping_add(ib), bgr, br, ia)
    } else if scheme == 10 {
        pack_bgra(br, gr, ir, ia)
    } else if scheme == 11 {
        pack_bgra(ib, bg, br, ia)
    } else if scheme == 12 {
        pack_bgra(ib, bgr, br, ia)
    } else if scheme == 13 {
        pack_bgra(bg, bgr.wrapping_add(ig), bgr, ia)
    } else if scheme == 14 {
        pack_bgra(bgr, gr, bgr.wrapping_add(ir), ia)
    } else {
        pack_bgra(ib, ig.wrapping_add(b2), ir.wrapping_add(b2), ia)
    }
}

/// A pixel from its residual `inpt`, the pixel `p` to its left, the pixel
/// `u` above it and the pixel `up` above `p`, under a filter below 32: an
/// even filter predicts by median, an odd one by mean.
pub open spec fn filter_pixel(ft: u8, p: u32, u: u32, up: u32, inpt: u32) -> u32 {
    let ia = ((inpt >> 24) & 0xff) as u8;
    let ir = ((inpt >> 16) & 0xff) as u8;
    let ig = ((inpt >> 8) & 0xff) as u8;
    let ib = (inpt & 0xff) as u8;
    let v = recombine(ft as int / 2, ib, ig, ir, ia);
    if ft % 2 == 0 {
        bytes_add(med_of(p, u, up), v)
    } else {
        bytes_add(avg_of(p, u), v)
    }
}

/// The message for a filter that does not exist.
pub open spec fn filter_message(ft: u8) -> Seq<char> {
    "Unsupported filter type: "@ + crate::decimal::decimal_text(ft as nat)
}

/// What runs along a row: the row so far, the pixel to the left, the pixel
/// above it, and the place of the next residual.
pub struct LineState {
    pub cur: Seq<u32>,
    pub p: u32,
    pub up: u32,
    pub pos: int,
}

/// Where the decoding of pixels ends: what runs along the row as it then
/// is, and the failure that ended it, if one did.
pub struct LineEnd {
    pub st: LineState,
    pub err: Option<Failure>,
}

/// Decodes `w` pixels of a block from column `x` on; the residuals are
/// read `step` apart. A residual, a pixel above or a filter type that is
/// not there, a filter type of 32 or more, or a column behind the row ends
/// the decoding; the pixels decoded before that stay.
pub open spec fn line_pixels(
    prev: Seq<u32>,
    filter_types: Seq<u8>,
    i: int,
    inp: Seq<u32>,
    step: int,
    x: int,
    w: int,
    st: LineState,
) -> LineEnd
    decreases w,
{
    if w <= 0 {
        LineEnd { st, err: None }
    } else if st.pos < 0 || st.pos >= inp.len() || x < 0 || x >= prev.len() || i < 0 || i
        >= filter_types.len() {
        LineEnd { st, err: Some(Failure::IndexOutOfRange) }
    } else if filter_types[i] >= 32 {
        LineEnd { st, err: Some(Failure::Str(filter_message(filter_types[i]))) }
    } else if x >= st.cur.len() {
        LineEnd { st, err: Some(Failure::IndexOutOfRange) }
    } else {
        let px = filter_pixel(filter_types[i], st.p, prev[x], st.up, inp[st.pos]);
        line_pixels(
            prev,
            filter_types,
            i,
            inp,
            step,
            x + 1,
            w - 1,
            LineState { cur: st.cur.update(x, px), p: px, up: prev[x], pos: st.pos + step },
        )
    }
}

/// The parameters of a pass along a row that stay the same from block to block.
pub struct LinePass {
    pub width: int,
    pub block_limit: int,
    pub skip: int,
    pub oddskip: int,
    pub dir: bool,
}

/// What a pass along a row leaves: the row, and the failure that ended the
/// pass, if one did.
pub struct Line {
    pub cur: Seq<u32>,
    pub err: Option<Failure>,
}

/// Decodes the blocks from block `i` on along a row. A block that lies
/// behind the row, or, in a forward pass, is wider than the residuals of
/// two blocks lie apart, ends the pass, as a failure among its pixels does.
pub open spec fn line_blocks(
    prev: Seq<u32>,
    filter_types: Seq<u8>,
    inp: Seq<u32>,
    pass: LinePass,
    i: int,
    st: LineState,
) -> Line
    decreases pass.block_limit - i,
{
    if i >= pass.block_limit {
        Line { cur: st.cur, err: None }
    } else {
        let room = pass.width - i * 8;
        let w = if room < 8 { room } else { 8 };
        if w <= 0 {
            Line { cur: st.cur, err: Some(Failure::IndexOutOfRange) }
        } else {
            let a = st.pos + if pass.dir { 0 } else { w - 1 };
            let b = if i % 2 == 1 { a + pass.oddskip * w } else { a };
            let e = line_pixels(
                prev,
                filter_types,
                i,
                inp,
                if pass.dir { 1 } else { -1 },
                i * 8,
                w,
                LineState { pos: b, ..st },
            );
            if e.err is Some {
                Line { cur: e.st.cur, err: e.err }
            } else if pass.dir && pass.skip < w {
                Line { cur: e.st.cur, err: Some(Failure::IndexOutOfRange) }
            } else {
                let c = e.st.pos + if pass.dir { pass.skip - w } else { pass.skip + 1 };
                let d = if i % 2 == 1 { c - pass.oddskip * w } else { c };
                line_blocks(prev, filter_types, inp, pass, i + 1, LineState { pos: d, ..e.st })
            }
        }
    }
}

/// Decodes the blocks from `start_block` up to `pass.block_limit` of a row
/// into `cur`. The pixel to the left of the first block is `initialp` for
/// block 0 and the last pixel of the block before it otherwise; where that
/// pixel or the pixel above it is not there, the pass fails at once.
pub open spec fn decode_line(
    prev: Seq<u32>,
    cur: Seq<u32>,
    start_block: int,
    filter_types: Seq<u8>,
    inp: Seq<u32>,
    inp_pos: int,
    initialp: u32,
    pass: LinePass,
) -> Line {
    if start_block != 0 && (start_block * 8 - 1 >= cur.len() || start_block * 8 - 1 >= prev.len()
        || start_block < 0) {
        Line { cur, err: Some(Failure::IndexOutOfRange) }
    } else {
        let p = if start_block != 0 { cur[start_block * 8 - 1] } else { initialp };
        let up = if start_block != 0 { prev[start_block * 8 - 1] } else { initialp };
        line_blocks(
            prev,
            filter_types,
            inp,
            pass,
            start_block,
            LineState { cur, p, up, pos: inp_pos + pass.skip * start_block },
        )
    }
}

/// A pass whose residuals would lie far behind those that are there fails
/// at its first block and leaves the row as it is.
pub proof fn lemma_line_far(
    prev: Seq<u32>,
    filter_types: Seq<u8>,
    inp: Seq<u32>,
    pass: LinePass,
    i: int,
    st: LineState,
)
    requires
        i < pass.block_limit,
        -0x8000_0000_0000_0000 <= pass.oddskip <= 0x8000_0000_0000_0000,
        st.pos >= inp.len() + 0x10_0000_0000_0000_0000,
    ensures
        line_blocks(prev, filter_types, inp, pass, i, st) == (Line {
            cur: st.cur,
            err: Some(Failure::IndexOutOfRange),
        }),
{
    let room = pass.width - i * 8;
    let w = if room < 8 { room } else { 8 };
    if w > 0 {
        assert(-0x4_0000_0000_0000_0000 <= pass.oddskip * w <= 0x4_0000_0000_0000_0000)
            by (nonlinear_arith)
            requires
                -0x8000_0000_0000_0000 <= pass.oddskip <= 0x8000_0000_0000_0000,
                1 <= w <= 8,
        ;
    }
}

/// Pixels are decoded into their own columns: the row keeps its length, and
/// the columns before `x` and from `x + w` on stay as they are.
pub proof fn lemma_line_pixels_frame(
    prev: Seq<u32>,
    filter_types: Seq<u8>,
    i: int,
    inp: Seq<u32>,
    step: int,
    x: int,
    w: int,
    st: LineState,
)
    ensures
        ({
            let e = line_pixels(prev, filter_types, i, inp, step, x, w, st);
            &&& e.st.cur.len() == st.cur.len()
            &&& forall|j: int|
                0 <= j < st.cur.len() && (j < x || j >= x + w) ==> #[trigger] e.st.cur[j]
                    == st.cur[j]
        }),
    decreases w,
{
    if w > 0 && !(st.pos < 0 || st.pos >= inp.len() || x < 0 || x >= prev.len() || i < 0 || i
        >= filter_types.len()) && filter_types[i] < 32 && x < st.cur.len() {
        let px = filter_pixel(filter_types[i], st.p, prev[x], st.up, inp[st.pos]);
        let mid = LineState { cur: st.cur.update(x, px), p: px, up: prev[x], pos: st.pos + step };
        lemma_line_pixels_frame(prev, filter_types, i, inp, step, x + 1, w - 1, mid);
        let e = line_pixels(prev, filter_types, i, inp, step, x + 1, w - 1, mid);
        assert forall|j: int| 0 <= j < st.cur.len() && (j < x || j >= x + w) implies
            #[trigger] e.st.cur[j] == st.cur[j] by {
            assert(e.st.cur[j] == mid.cur[j]);
        }
    }
}

/// Blocks are decoded into their own columns: the row keeps its length, and
/// the columns before block `i` and from the end of the last block on, or
/// from the end of the row on, stay as they are: whether the pass fails or not.
pub proof fn lemma_line_blocks_frame(
    prev: Seq<u32>,
    filter_types: Seq<u8>,
    inp: Seq<u32>,
    pass: LinePass,
    i: int,
    st: LineState,
)
    requires
        0 <= i,
    ensures
        ({
            let l = line_blocks(prev, filter_types, inp, pass, i, st);
            &&& l.cur.len() == st.cur.len()
            &&& forall|j: int|
                0 <= j < st.cur.len() && (j < i * 8 || j >= pass.block_limit * 8 || j
                    >= pass.width) ==> #[trigger] l.cur[j] == st.cur[j]
        }),
    decreases pass.block_limit - i,
{
    if i < pass.block_limit {
        let room = pass.width - i * 8;
        let w = if room < 8 { room } else { 8 };
        if w > 0 {
            let a = st.pos + if pass.dir { 0 } else { w - 1 };
            let b = if i % 2 == 1 { a + pass.oddskip * w } else { a };
            let from = LineState { pos: b, ..st };
            let step = if pass.dir { 1int } else { -1int };
            lemma_line_pixels_frame(prev, filter_types, i, inp, step, i * 8, w, from);
            let e = line_pixels(prev, filter_types, i, inp, step, i * 8, w, from);
            if e.err is None && !(pass.dir && pass.skip < w) {
                let c = e.st.pos + if pass.dir { pass.skip - w } else { pass.skip + 1 };
                let d = if i % 2 == 1 { c - pass.oddskip * w } else { c };
                lemma_line_blocks_frame(
                    prev,
                    filter_types,
                    inp,
                    pass,
                    i + 1,
                    LineState { pos: d, ..e.st },
                );
            }
        }
    }
}

/// A pass writes the columns of its blocks only: the row keeps its length,
/// and every column before block `start_block`, behind block
/// `block_limit - 1` or behind the width of the row stays as it was,
/// whether the pass fails or not.
pub proof fn lemma_decode_line_frame(
    prev: Seq<u32>,
    cur: Seq<u32>,
    start_block: int,
    filter_types: Seq<u8>,
    inp: Seq<u32>,
    inp_pos: int,
    initialp: u32,
    pass: LinePass,
)
    ensures
        ({
            let l = decode_line(prev, cur, start_block, filter_types, inp, inp_pos, initialp, pass);
            &&& l.cur.len() == cur.len()
            &&& forall|j: int|
                0 <= j < cur.len() && (j < start_block * 8 || j >= pass.block_limit * 8 || j
                    >= pass.width) ==> #[trigger] l.cur[j] == cur[j]
        }),
{
    if !(start_block != 0 && (start_block * 8 - 1 >= cur.len() || start_block * 8 - 1
        >= prev.len() || start_block < 0)) {
        let p = if start_block != 0 { cur[start_block * 8 - 1] } else { initialp };
        let up = if start_block != 0 { prev[start_block * 8 - 1] } else { initialp };
        lemma_line_blocks_frame(
            prev,
            filter_types,
            inp,
            pass,
            start_block,
            LineState { cur, p, up, pos: inp_pos + pass.skip * start_block },
        );
    }
}

/// A filter type of 32 or more at the first pixel of a pass leaves the row
/// as it was and gives the message that names the filter type.
pub proof fn lemma_line_bad_filter(
    prev: Seq<u32>,
    cur: Seq<u32>,
    filter_types: Seq<u8>,
    inp: Seq<u32>,
    inp_pos: int,
    initialp: u32,
    pass: LinePass,
)
    requires
        pass.block_limit > 0,
        pass.width > 0,
        pass.dir,
        0 <= inp_pos < inp.len(),
        prev.len() > 0,
        filter_types.len() > 0,
        filter_types[0] >= 32,
    ensures
        decode_line(prev, cur, 0, filter_types, inp, inp_pos, initialp, pass) == (Line {
            cur,
            err: Some(Failure::Str(filter_message(filter_types[0]))),
        }),
{
    assert(pass.skip * 0 == 0);
}

/// The fields that open a TLG6 stream, without its three flags.
pub struct Tlg6Header {
    pub colors: u8,
    pub width: u32,
    pub height: u32,
    pub max_bit_length: u32,
}

impl Tlg6Header {
    /// Number of blocks in a row of blocks.
    pub open spec fn x_blocks(self) -> int {
        (self.width as int - 1) / 8 + 1
    }

    /// Number of rows of blocks.
    pub open spec fn y_blocks(self) -> int {
        (self.height as int - 1) / 8 + 1
    }

    /// Number of blocks in a row of blocks that are eight pixels wide.
    pub open spec fn main_count(self) -> int {
        self.width as int / 8
    }

    /// Width of the last block where it is narrower than eight pixels, else 0.
    pub open spec fn fraction(self) -> int {
        self.width as int - self.main_count() * 8
    }

    /// Size of the buffer for the bits of one channel of one band.
    pub open spec fn pool_len(self) -> int {
        self.max_bit_length as int / 8 + 5
    }

    /// Size of the buffer for the residuals of one band.
    pub open spec fn pixel_len(self) -> int {
        self.width as int * 8 + 1
    }

    /// Number of filter types.
    pub open spec fn filter_len(self) -> int {
        self.x_blocks() * self.y_blocks()
    }

    /// The buffers fit into memory.
    pub open spec fn fits(self) -> bool {
        self.pool_len() <= usize::MAX && self.pixel_len() <= usize::MAX && self.filter_len()
            <= usize::MAX && self.width as int * self.colors as int <= usize::MAX
    }

    /// The pixel that stands above the first row and to the left of each row.
    pub open spec fn zero(self) -> u32 {
        if self.colors == 3 {
            0xff00_0000
        } else {
            0
        }
    }
}

/// The window from which the filter types are unpacked.
pub open spec fn priming_text() -> Seq<u8> {
    Seq::new(
        4096,
        |p: int|
            if p % 8 < 4 {
                (p / 8 / 16) as u8
            } else {
                (p / 8 % 16) as u8
            },
    )
}

/// What the decoder keeps between the channels and bands: the bit pool and the residuals.
pub struct Band {
    pub pool: Seq<u8>,
    pub buf: Seq<u32>,
}

/// The message for a bit length that the pool cannot hold.
pub open spec fn pool_message() -> Seq<char> {
    "Bit pool is too small for the given bit length"@
}

/// Reads the bits of channel `c` of a band and decodes them into the residuals.
pub open spec fn read_channel(
    rest: Seq<u8>,
    st: Band,
    h: Tlg6Header,
    pixel_count: int,
    c: int,
) -> Result<(Seq<u8>, Band), Failure> {
    if rest.len() < 4 {
        Err(Failure::Io)
    } else {
        let word = u32_at(rest, 0) as int;
        let method = word / 0x4000_0000;
        let byte_length = (word % 0x4000_0000 + 7) / 8;
        let body = rest.skip(4);
        if byte_length >= h.pool_len() {
            Err(Failure::Str(pool_message()))
        } else if body.len() < byte_length {
            Err(Failure::Io)
        } else if method != 0 {
            Err(Failure::UnsupportedCompressedMethod(method as u8))
        } else {
            let pool = overlay(body.take(byte_length), st.pool);
            let d = golomb_decode(st.buf, pixel_count, pool, c == 0 && h.colors != 1, c);
            if d.ok {
                Ok((body.skip(byte_length), Band { pool, buf: d.buf }))
            } else {
                Err(Failure::IndexOutOfRange)
            }
        }
    }
}

/// Reads the bits of the channels from `c` on of a band.
pub open spec fn read_channels(
    rest: Seq<u8>,
    st: Band,
    h: Tlg6Header,
    pixel_count: int,
    c: int,
) -> Result<(Seq<u8>, Band), Failure>
    decreases h.colors - c,
{
    if c >= h.colors {
        Ok((rest, st))
    } else {
        match read_channel(rest, st, h, pixel_count, c) {
            Err(e) => Err(e),
            Ok((r, s)) => read_channels(r, s, h, pixel_count, c + 1),
        }
    }
}

/// `n` pixels of zero.
pub open spec fn zero_pixels(n: int) -> Seq<u32> {
    Seq::new(n as nat, |i: int| 0u32)
}

/// Row `r` of a band of `rows` rows, from the row `prev` above it.
pub open spec fn band_row(
    prev: Seq<u32>,
    filter_types: Seq<u8>,
    buf: Seq<u32>,
    h: Tlg6Header,
    y: int,
    rows: int,
    r: int,
) -> Result<Seq<u32>, Failure> {
    let w = h.width as int;
    let pass = LinePass {
        width: w,
        block_limit: h.main_count(),
        skip: rows * 8,
        oddskip: (rows - r - 1) - r,
        dir: (y + r) % 2 == 0,
    };
    let whole = if h.main_count() != 0 {
        decode_line(
            prev,
            zero_pixels(w),
            0,
            filter_types,
            buf,
            (if w < 8 { w } else { 8 }) * r,
            h.zero(),
            pass,
        )
    } else {
        Line { cur: zero_pixels(w), err: None }
    };
    match whole.err {
        Some(e) => Err(e),
        None => if h.main_count() != h.x_blocks() {
            let rest = decode_line(
                prev,
                whole.cur,
                h.main_count(),
                filter_types,
                buf,
                (if h.fraction() < 8 { h.fraction() } else { 8 }) * r,
                h.zero(),
                LinePass { block_limit: h.x_blocks(), ..pass },
            );
            match rest.err {
                Some(e) => Err(e),
                None => Ok(rest.cur),
            }
        } else {
            Ok(whole.cur)
        },
    }
}

/// Byte `c` of a pixel; byte 0 is the lowest.
pub open spec fn byte_of(px: u32, c: int) -> u8 {
    if c == 0 {
        (px & 0xff) as u8
    } else if c == 1 {
        ((px >> 8) & 0xff) as u8
    } else if c == 2 {
        ((px >> 16) & 0xff) as u8
    } else {
        ((px >> 24) & 0xff) as u8
    }
}

/// The bytes of a row: of each pixel the lowest `colors` bytes.
pub open spec fn row_bytes(cur: Seq<u32>, colors: int) -> Seq<u8> {
    Seq::new((cur.len() * colors) as nat, |i: int| byte_of(cur[i / colors], i % colors))
}

/// The rows from row `r` on of a band, behind `data`; with them comes the last row.
pub open spec fn band_rows(
    prev: Seq<u32>,
    filter_types: Seq<u8>,
    buf: Seq<u32>,
    h: Tlg6Header,
    y: int,
    rows: int,
    r: int,
    data: Seq<u8>,
) -> Result<(Seq<u8>, Seq<u32>), Failure>
    decreases rows - r,
{
    if r >= rows {
        Ok((data, prev))
    } else {
        match band_row(prev, filter_types, buf, h, y, rows, r) {
            Err(e) => Err(e),
            Ok(cur) => band_rows(
                cur,
                filter_types,
                buf,
                h,
                y,
                rows,
                r + 1,
                data + row_bytes(cur, h.colors as int),
            ),
        }
    }
}

/// Number of rows in the band that starts at row `y`.
pub open spec fn rows_in_band(h: Tlg6Header, y: int) -> int {
    if h.height - y < 8 {
        h.height - y
    } else {
        8
    }
}

/// The pixels of the bands from row `y` on, behind `data`.
pub open spec fn bands(
    rest: Seq<u8>,
    st: Band,
    prev: Seq<u32>,
    h: Tlg6Header,
    filter_types: Seq<u8>,
    y: int,
    data: Seq<u8>,
) -> Result<Seq<u8>, Failure>
    decreases
            if y < h.height {
                h.height - y
            } else {
                0
            },
{
    if y >= h.height || y < 0 {
        Ok(data)
    } else {
        let rows = rows_in_band(h, y);
        match read_channels(rest, st, h, rows * h.width, 0) {
            Err(e) => Err(e),
            Ok((r, s)) => match band_rows(
                prev,
                filter_types.skip(y / 8 * h.x_blocks()),
                s.buf,
                h,
                y,
                rows,
                0,
                data,
            ) {
                Err(e) => Err(e),
                Ok((d, last)) => bands(r, s, last, h, filter_types, y + 8, d),
            },
        }
    }
}

/// The four bytes that open the stream are there and are refused: the
/// first is no number of channels, or one of the three flags is set.
pub open spec fn flags_refused(src: Seq<u8>) -> bool {
    src.len() >= 4 && (TlgColorType::spec_from_channels(src[0]) is None || src[1] != 0 || src[2]
        != 0 || src[3] != 0)
}

/// The fields that open a TLG6 stream, in its first 16 bytes, with the
/// color layout: refused where the number of channels is none, a flag is
/// set, the width or the height is 0, or the buffers do not fit into memory.
pub open spec fn tlg6_header(src: Seq<u8>) -> Result<(Tlg6Header, TlgColorType), Failure> {
    if src.len() < 4 {
        Err(Failure::Io)
    } else {
        match TlgColorType::spec_from_channels(src[0]) {
            None => Err(Failure::UnsupportedColorType(src[0])),
            Some(color) => if src[1] != 0 {
                Err(Failure::Str("Data flags must be 0"@))
            } else if src[2] != 0 {
                Err(Failure::Str("Color types must be 0"@))
            } else if src[3] != 0 {
                Err(Failure::Str("External golomb bit length table is not yet supported."@))
            } else if src.len() < 16 {
                Err(Failure::Io)
            } else {
                let h = Tlg6Header {
                    colors: src[0],
                    width: u32_at(src, 4),
                    height: u32_at(src, 8),
                    max_bit_length: u32_at(src, 12),
                };
                if h.width == 0 || h.height == 0 {
                    Err(Failure::InvalidFormat)
                } else if !h.fits() {
                    Err(Failure::IndexOutOfRange)
                } else {
                    Ok((h, color))
                }
            },
        }
    }
}

/// The bytes of the pixels that a TLG6 stream holds behind its first 16
/// bytes: the packed filter types with their size in front, then the bands.
#[verifier::opaque]
pub open spec fn tlg6_pixels(rest: Seq<u8>, h: Tlg6Header) -> Result<Seq<u8>, Failure> {
    if rest.len() < 4 {
        Err(Failure::Io)
    } else {
        let size = u32_at(rest, 0) as int;
        let body = rest.skip(4);
        if body.len() < size {
            Err(Failure::Io)
        } else {
            match lzss_unpack(body.take(size), priming_text(), 0) {
                None => Err(Failure::IndexOutOfRange),
                Some(u) => if u.out.len() > h.filter_len() {
                    Err(Failure::IndexOutOfRange)
                } else {
                    bands(
                        body.skip(size),
                        Band { pool: zeros(h.pool_len()), buf: zero_pixels(h.pixel_len()) },
                        Seq::new(h.width as nat, |i: int| h.zero()),
                        h,
                        overlay(u.out, zeros(h.filter_len())),
                        0,
                        Seq::empty(),
                    )
                },
            }
        }
    }
}

/// The image that a TLG6 stream holds behind its signature.
#[verifier::opaque]
pub open spec fn tlg6_decode(src: Seq<u8>) -> Result<TlgView, Failure> {
    match tlg6_header(src) {
        Err(e) => Err(e),
        Ok((h, color)) => match tlg6_pixels(src.skip(16), h) {
            Err(e) => Err(e),
            Ok(data) => Ok(
                TlgView {
                    tags: Map::empty(),
                    version: 6,
                    width: h.width,
                    height: h.height,
                    color,
                    data,
                },
            ),
        },
    }
}

/// Where the share of bit length `i` starts in context `n`.
pub open spec fn run_start(n: int, i: int) -> int
    decreases i,
{
    if i <= 0 {
        0
    } else {
        run_start(n, i - 1) + golomb_runs()[n][i - 1]
    }
}

/// The shares of the bit lengths are not negative.
pub proof fn lemma_runs(n: int, i: int)
    requires
        0 <= n < 4,
        0 <= i < 9,
    ensures
        0 < golomb_runs()[n][i] <= 511,
        run_start(n, i + 1) == run_start(n, i) + golomb_runs()[n][i],
        run_start(n, 0) == 0,
{
}

/// The shares of the bit lengths of a context fill its row of 1024 entries.
pub proof fn lemma_run_total(n: int)
    requires
        0 <= n < 4,
    ensures
        run_start(n, 9) == 1024,
{
    reveal_with_fuel(run_start, 10);
}

/// A running sum in the share of bit length `i` has bit length `i`.
pub proof fn lemma_golomb_k(n: int, a: int, i: int, j: int)
    requires
        0 <= n < 4,
        0 <= j <= i < 9,
        run_start(n, i) <= a < run_start(n, i + 1),
    ensures
        golomb_k_from(n, a, j, run_start(n, j)) == i,
    decreases i - j,
{
    lemma_runs(n, j);
    if j < i {
        lemma_run_mono(n, j + 1, i);
        lemma_golomb_k(n, a, i, j + 1);
    }
}

/// The shares start in rising order.
pub proof fn lemma_run_mono(n: int, j: int, i: int)
    requires
        0 <= n < 4,
        0 <= j <= i <= 9,
    ensures
        run_start(n, j) <= run_start(n, i),
    decreases i - j,
{
    if j < i {
        lemma_runs(n, i - 1);
        lemma_run_mono(n, j, i - 1);
    }
}

/// Two buffers of one length hold the same pixels below index `n`.
pub open spec fn agree(a: Seq<u32>, b: Seq<u32>, n: int) -> bool {
    a.len() == b.len() && forall|i: int| 0 <= i < n && i < a.len() ==> a[i] == b[i]
}

/// A run of codes that writes whole pixels does the same to two buffers
/// that agree below the run.
pub proof fn lemma_values_run_agree(
    a: Seq<u32>,
    b: Seq<u32>,
    pool: Seq<u8>,
    c: int,
    p: int,
    ad: Adapt,
    index: int,
    count: int,
)
    requires
        agree(a, b, index),
        0 <= count,
    ensures
        ({
            let ra = values_run(a, pool, true, c, p, ad, index, count);
            let rb = values_run(b, pool, true, c, p, ad, index, count);
            &&& ra.ok == rb.ok
            &&& ra.p == rb.p
            &&& ra.ad == rb.ad
            &&& ra.buf.len() == a.len()
            &&& rb.buf.len() == b.len()
            &&& ra.ok ==> agree(ra.buf, rb.buf, index + count)
        }),
    decreases count,
{
    if count > 0 && !(ad.a >= 1024 || ad.a < 0 || index >= a.len() || index < 0) {
        match golomb_code(pool, p, golomb_k(ad.a, ad.n)) {
            None => {},
            Some((v, pn)) => {
                let sum = ad.a + v / 2;
                let next = if ad.n == 0 {
                    Adapt { n: 3, a: sum / 2 }
                } else {
                    Adapt { n: ad.n - 1, a: sum }
                };
                let px = put_channel(a[index], true, c, code_byte(v));
                lemma_values_run_agree(
                    a.update(index, px),
                    b.update(index, px),
                    pool,
                    c,
                    pn,
                    next,
                    index + 1,
                    count - 1,
                );
            },
        }
    }
}

/// Runs that write whole pixels do the same to two buffers that agree
/// below the first run.
pub proof fn lemma_runs_agree(
    a: Seq<u32>,
    b: Seq<u32>,
    pool: Seq<u8>,
    c: int,
    pixel_count: int,
    p: int,
    ad: Adapt,
    zero: bool,
    index: int,
)
    requires
        agree(a, b, index),
    ensures
        ({
            let da = golomb_runs_from(a, pool, true, c, pixel_count, p, ad, zero, index);
            let db = golomb_runs_from(b, pool, true, c, pixel_count, p, ad, zero, index);
            &&& da.ok == db.ok
            &&& da.ok ==> agree(
                da.buf,
                db.buf,
                if index < pixel_count { pixel_count } else { index },
            )
        }),
    decreases
            if index < a.len() {
                a.len() - index
            } else {
                0
            },
{
    if index < pixel_count {
        match run_count(pool, p) {
            None => {},
            Some((count, pn)) => if count < 1 || index < 0 {
            } else if zero {
                if index + count <= a.len() {
                    let a1 = zero_run(a, true, c, index, count);
                    let b1 = zero_run(b, true, c, index, count);
                    assert(agree(a1, b1, index + count));
                    lemma_runs_agree(a1, b1, pool, c, pixel_count, pn, ad, false, index + count);
                }
            } else {
                lemma_values_run_agree(a, b, pool, c, pn, ad, index, count);
                let ra = values_run(a, pool, true, c, pn, ad, index, count);
                let rb = values_run(b, pool, true, c, pn, ad, index, count);
                if ra.ok && index + count <= a.len() {
                    let at = index + count;
                    lemma_runs_agree(ra.buf, rb.buf, pool, c, pixel_count, ra.p, ra.ad, true, at);
                }
            },
        }
    }
}

/// Decoding a bit pool twice gives the same pixels. What is left in a
/// buffer, and whether the decoding came to its end, depend on the
/// arguments alone. And where whole pixels are written, not even on what
/// the buffer held: with two buffers of one length the decoding ends alike,
/// and where it comes to its end the buffers are alike below `pixel_count`.
pub proof fn lemma_golomb_deterministic(
    a: Seq<u32>,
    b: Seq<u32>,
    pixel_count: int,
    pool: Seq<u8>,
    c: int,
)
    requires
        a.len() == b.len(),
    ensures
        a == b ==> forall|first: bool|
            #[trigger] golomb_decode(a, pixel_count, pool, first, c) == golomb_decode(
                b,
                pixel_count,
                pool,
                first,
                c,
            ),
        golomb_decode(a, pixel_count, pool, true, c).ok == golomb_decode(
            b,
            pixel_count,
            pool,
            true,
            c,
        ).ok,
        golomb_decode(a, pixel_count, pool, true, c).ok ==> agree(
            golomb_decode(a, pixel_count, pool, true, c).buf,
            golomb_decode(b, pixel_count, pool, true, c).buf,
            pixel_count,
        ),
{
    if pool.len() > 0 {
        lemma_runs_agree(a, b, pool, c, pixel_count, 1, Adapt { n: 3, a: 0 }, pool[0] & 1 == 0, 0);
    }
}

/// Two buffers of one length hold the same bytes in every pixel but for byte `c`.
pub open spec fn same_but(a: Seq<u32>, b: Seq<u32>, c: int) -> bool {
    a.len() == b.len() && forall|i: int, j: int|
        0 <= i < a.len() && 0 <= j < 4 && j != c ==> #[trigger] byte_of(a[i], j) == byte_of(b[i], j)
}

/// Replacing byte `c` of a pixel leaves its other bytes as they are.
pub proof fn lemma_set_byte_others(px: u32, c: int, b: u8, j: int)
    requires
        0 <= c < 4,
        0 <= j < 4,
        j != c,
    ensures
        byte_of(set_byte(px, c, b), j) == byte_of(px, j),
{
    let v = b as u32;
    assert(((px & 0xffff_ff00) | v) >> 8 & 0xff == (px >> 8) & 0xff && ((px & 0xffff_ff00) | v)
        >> 16 & 0xff == (px >> 16) & 0xff && ((px & 0xffff_ff00) | v) >> 24 & 0xff == (px >> 24)
        & 0xff) by (bit_vector)
        requires
            v < 256,
    ;
    assert(((px & 0xffff_00ff) | (v << 8)) & 0xff == px & 0xff && ((px & 0xffff_00ff) | (v << 8))
        >> 16 & 0xff == (px >> 16) & 0xff && ((px & 0xffff_00ff) | (v << 8)) >> 24 & 0xff == (px
        >> 24) & 0xff) by (bit_vector)
        requires
            v < 256,
    ;
    assert(((px & 0xff00_ffff) | (v << 16)) & 0xff == px & 0xff && ((px & 0xff00_ffff) | (v
        << 16)) >> 8 & 0xff == (px >> 8) & 0xff && ((px & 0xff00_ffff) | (v << 16)) >> 24 & 0xff
        == (px >> 24) & 0xff) by (bit_vector)
        requires
            v < 256,
    ;
    assert(((px & 0x00ff_ffff) | (v << 24)) & 0xff == px & 0xff && ((px & 0x00ff_ffff) | (v
        << 24)) >> 8 & 0xff == (px >> 8) & 0xff && ((px & 0x00ff_ffff) | (v << 24)) >> 16 & 0xff
        == (px >> 16) & 0xff) by (bit_vector)
        requires
            v < 256,
    ;
}

/// A run of codes for byte `c` leaves the other bytes of every pixel as
/// they are, whether it ends early or not.
pub proof fn lemma_values_run_keeps(
    buf: Seq<u32>,
    pool: Seq<u8>,
    c: int,
    p: int,
    ad: Adapt,
    index: int,
    count: int,
)
    requires
        0 <= c < 4,
    ensures
        same_but(values_run(buf, pool, false, c, p, ad, index, count).buf, buf, c),
    decreases count,
{
    if count > 0 && !(ad.a >= 1024 || ad.a < 0 || index >= buf.len() || index < 0) {
        match golomb_code(pool, p, golomb_k(ad.a, ad.n)) {
            None => {},
            Some((v, pn)) => {
                let sum = ad.a + v / 2;
                let next = if ad.n == 0 {
                    Adapt { n: 3, a: sum / 2 }
                } else {
                    Adapt { n: ad.n - 1, a: sum }
                };
                let px = put_channel(buf[index], false, c, code_byte(v));
                let mid = buf.update(index, px);
                lemma_values_run_keeps(mid, pool, c, pn, next, index + 1, count - 1);
                let end = values_run(mid, pool, false, c, pn, next, index + 1, count - 1).buf;
                assert forall|i: int, j: int|
                    0 <= i < end.len() && 0 <= j < 4 && j != c implies #[trigger] byte_of(
                    end[i],
                    j,
                ) == byte_of(buf[i], j) by {
                    assert(byte_of(end[i], j) == byte_of(mid[i], j));
                    if i == index {
                        lemma_set_byte_others(buf[index], c, code_byte(v), j);
                    }
                }
            },
        }
    }
}

/// Decoding byte `c` leaves the other bytes of every pixel as they are.
pub proof fn lemma_runs_keep(
    buf: Seq<u32>,
    pool: Seq<u8>,
    c: int,
    pixel_count: int,
    p: int,
    ad: Adapt,
    zero: bool,
    index: int,
)
    requires
        0 <= c < 4,
    ensures
        same_but(
            golomb_runs_from(buf, pool, false, c, pixel_count, p, ad, zero, index).buf,
            buf,
            c,
        ),
    decreases
            if index < buf.len() {
                buf.len() - index
            } else {
                0
            },
{
    if index < pixel_count {
        match run_count(pool, p) {
            None => {},
            Some((count, pn)) => if count < 1 || index < 0 {
            } else if zero {
                if index + count <= buf.len() {
                    let mid = zero_run(buf, false, c, index, count);
                    assert forall|i: int, j: int|
                        0 <= i < mid.len() && 0 <= j < 4 && j != c implies #[trigger] byte_of(
                        mid[i],
                        j,
                    ) == byte_of(buf[i], j) by {
                        if index <= i < index + count {
                            lemma_set_byte_others(buf[i], c, 0, j);
                        }
                    }
                    lemma_runs_keep(mid, pool, c, pixel_count, pn, ad, false, index + count);
                    let end = golomb_runs_from(
                        mid,
                        pool,
                        false,
                        c,
                        pixel_count,
                        pn,
                        ad,
                        false,
                        index + count,
                    ).buf;
                    assert forall|i: int, j: int|
                        0 <= i < end.len() && 0 <= j < 4 && j != c implies #[trigger] byte_of(
                        end[i],
                        j,
                    ) == byte_of(buf[i], j) by {
                        assert(byte_of(end[i], j) == byte_of(mid[i], j));
                    }
                }
            } else {
                lemma_values_run_keeps(buf, pool, c, pn, ad, index, count);
                let r = values_run(buf, pool, false, c, pn, ad, index, count);
                if r.ok && r.buf.len() == buf.len() && index + count <= buf.len() {
                    lemma_runs_keep(r.buf, pool, c, pixel_count, r.p, r.ad, true, index + count);
                    let end = golomb_runs_from(
                        r.buf,
                        pool,
                        false,
                        c,
                        pixel_count,
                        r.p,
                        r.ad,
                        true,
                        index + count,
                    ).buf;
                    assert forall|i: int, j: int|
                        0 <= i < end.len() && 0 <= j < 4 && j != c implies #[trigger] byte_of(
                        end[i],
                        j,
                    ) == byte_of(buf[i], j) by {
                        assert(byte_of(end[i], j) == byte_of(r.buf[i], j));
                    }
                }
            },
        }
    }
}

/// Decoding byte `c` of the pixels, where it is not the first channel of a
/// color image, leaves every other byte of every pixel as it was, whether
/// the decoding comes to its end or fails.
pub proof fn lemma_golomb_keeps_other_bytes(
    buf: Seq<u32>,
    pixel_count: int,
    pool: Seq<u8>,
    c: int,
)
    requires
        0 <= c < 4,
    ensures
        same_but(golomb_decode(buf, pixel_count, pool, false, c).buf, buf, c),
{
    if pool.len() > 0 {
        lemma_runs_keep(buf, pool, c, pixel_count, 1, Adapt { n: 3, a: 0 }, pool[0] & 1 == 0, 0);
    }
}

/// A pool of fewer than four bytes holds no length of a run: the decoding
/// of one pixel or more fails and leaves the pixels as they were.
pub proof fn lemma_golomb_short_pool(
    buf: Seq<u32>,
    pixel_count: int,
    pool: Seq<u8>,
    first: bool,
    c: int,
)
    requires
        pool.len() < 4,
        pixel_count > 0,
    ensures
        golomb_decode(buf, pixel_count, pool, first, c) == (Decoded { buf, ok: false }),
{
}

/// The byte of a pixel that lies `sh` bits up.
pub open spec fn lane(x: u32, sh: u32) -> u32 {
    (x >> sh) & 0xff
}

/// Byte by byte, `gt_mask` says which byte is greater.
pub proof fn lemma_gt_mask_lane(a: u32, b: u32, sh: u32)
    by (bit_vector)
    requires
        sh == 0 || sh == 8 || sh == 16 || sh == 24,
    ensures
        lane(gt_mask(a, b), sh) == if lane(a, sh) > lane(b, sh) {
            0xffu32
        } else {
            0u32
        },
{
}

/// Byte by byte, `bytes_add` adds modulo 256.
pub proof fn lemma_bytes_add_lane(a: u32, b: u32, sh: u32)
    by (bit_vector)
    requires
        sh == 0 || sh == 8 || sh == 16 || sh == 24,
    ensures
        lane(bytes_add(a, b), sh) == (lane(a, sh) + lane(b, sh)) % 256,
{
}

/// Byte by byte, `avg_of` is the mean, rounded up.
pub proof fn lemma_avg_lane(x: u32, y: u32, sh: u32)
    by (bit_vector)
    requires
        sh == 0 || sh == 8 || sh == 16 || sh == 24,
    ensures
        lane(avg_of(x, y), sh) == (lane(x, sh) + lane(y, sh) + 1) / 2,
{
}

/// Byte by byte, `med_of` is the median of `a`, `b` and `a + b - c`: the
/// smaller of `a` and `b` where `c` is above both, the greater where `c`
/// is below both, and `a + b - c` otherwise.
pub proof fn lemma_med_lane(a: u32, b: u32, c: u32, sh: u32)
    by (bit_vector)
    requires
        sh == 0 || sh == 8 || sh == 16 || sh == 24,
    ensures
        lane(med_of(a, b, c), sh) == {
            let x = lane(a, sh);
            let y = lane(b, sh);
            let z = lane(c, sh);
            let lo = if x > y { y } else { x };
            let hi = if x > y { x } else { y };
            if z > hi {
                lo
            } else if lo > z {
                hi
            } else {
                (hi + lo - z) as u32
            }
        },
{
}

} // verus!
