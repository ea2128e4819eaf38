//! Decoding gives back what encoding was given.
use crate::container::{raw_decode, scan_chunks, tags_name, tlg_decode, tlg_encode};
use crate::decimal::{decimal, is_digit, lemma_decimal_digits};
use crate::dictionary::{encode_tokens, lemma_initial_wf, lemma_lzss_round_trip, SlideState};
use crate::lzss::pack_tokens;
use crate::stream::{lemma_low32, lemma_u32_bytes, low32, u32_at, u32_bytes};
use crate::tags::{
    lemma_digits_value_decimal, lemma_read_number, map_of, parse_tags, read_number, read_record,
    record_bytes, tags_bytes, TagStep,
};
use crate::tlg5::{
    block_bytes, block_fits, blocks, blocks_fit, delta_at, encode_blocks, encode_refusal,
    header_for, header_of, initial_planes, overlay, packed_plane, pixel, pixel_bytes, plane_of,
    plane_row, read_plane, read_planes, record_len, residual, row_of, rows_in_block, rows_of,
    running, skip_up_to, step_delta, stored_delta, table_bytes, tlg5_body, tlg5_decode, zeros,
    Planes, Tlg5Header,
};
use crate::tlg5_saver::{lemma_pixel_index, lemma_plane_len};
use crate::types::{Failure, TlgColorType, TlgView};
use crate::{has_prefix, magic_tlg0, magic_tlg5};
use vstd::prelude::*;

verus! {

/// An image can be read back from its stream: every size of a part of a
/// block is held in full by its 32 bits, and the buffers of the decoder fit
/// into memory.
pub open spec fn reads_back(img: TlgView) -> bool {
    &&& header_for(img).fits()
    &&& blocks_fit(SlideState::initial(), img.data, header_for(img), 0)
}

/// A header as the encoder writes it, for an image that it takes, with
/// buffers of the decoder that fit into memory.
pub open spec fn encoder_header(h: Tlg5Header, data: Seq<u8>) -> bool {
    &&& (h.colors == 1 || h.colors == 3 || h.colors == 4)
    &&& h.blockheight == 4
    &&& h.height > 0
    &&& h.fits()
    &&& h.width as int * h.height as int * h.colors as int <= data.len()
}

/// Row `y` of an image.
pub open spec fn image_row(data: Seq<u8>, h: Tlg5Header, y: int) -> Seq<u8> {
    data.subrange(y * h.stride(), (y + 1) * h.stride())
}

/// The row above row `y`: zeros above the first row.
pub open spec fn row_above(data: Seq<u8>, h: Tlg5Header, y: int) -> Seq<u8> {
    if y <= 0 {
        zeros(h.stride())
    } else {
        image_row(data, h, y - 1)
    }
}

/// The buffers hold the stored deltas of the `n` rows from row `y0` on.
pub open spec fn holds_deltas(
    bufs: Seq<Seq<u8>>,
    data: Seq<u8>,
    h: Tlg5Header,
    y0: int,
    n: int,
) -> bool {
    &&& bufs.len() == h.colors
    &&& forall|c: int, k: int, x: int|
        0 <= c < h.colors && 0 <= k < n && 0 <= x < h.width ==> #[trigger] holds_delta(
            bufs,
            data,
            h,
            y0,
            c,
            k,
            x,
        )
}

/// The buffer of channel `c` holds the stored delta of pixel `x` in row `k` of the block.
pub open spec fn holds_delta(
    bufs: Seq<Seq<u8>>,
    data: Seq<u8>,
    h: Tlg5Header,
    y0: int,
    c: int,
    k: int,
    x: int,
) -> bool {
    &&& 0 <= k * h.width + x < bufs[c].len()
    &&& bufs[c][k * h.width + x] == stored_delta(data, h, y0 + k, x, c)
}

/// Undoing the green-relative storage gives the stepwise delta.
proof fn lemma_delta(
    bufs: Seq<Seq<u8>>,
    data: Seq<u8>,
    h: Tlg5Header,
    y0: int,
    n: int,
    k: int,
    c: int,
    x: int,
)
    requires
        encoder_header(h, data),
        holds_deltas(bufs, data, h, y0, n),
        0 <= k < n,
        0 <= c < h.colors,
        0 <= x < h.width,
    ensures
        delta_at(bufs, h.colors as int, k * h.width, c, x) == step_delta(data, h, y0 + k, x, c),
{
    assert(holds_delta(bufs, data, h, y0, c, k, x));
    if h.colors >= 3 {
        assert(holds_delta(bufs, data, h, y0, 1, k, x));
    }
}

/// The running sum of the deltas up to a pixel is the residual of that pixel.
proof fn lemma_running(
    bufs: Seq<Seq<u8>>,
    data: Seq<u8>,
    h: Tlg5Header,
    y0: int,
    n: int,
    k: int,
    c: int,
    x: int,
)
    requires
        encoder_header(h, data),
        holds_deltas(bufs, data, h, y0, n),
        0 <= k < n,
        0 <= c < h.colors,
        0 <= x < h.width,
    ensures
        running(bufs, h.colors as int, k * h.width, c, x) == residual(data, h, y0 + k, x, c),
    decreases x,
{
    lemma_delta(bufs, data, h, y0, n, k, c, x);
    if x > 0 {
        lemma_running(bufs, data, h, y0, n, k, c, x - 1);
    } else {
        assert(running(bufs, h.colors as int, k * h.width, c, -1) == 0);
    }
}

/// An index into a row of pixels names a pixel and a channel.
pub proof fn lemma_split_index(i: int, w: int, cc: int)
    requires
        0 <= i < w * cc,
        0 < cc,
    ensures
        i == (i / cc) * cc + i % cc,
        0 <= i % cc < cc,
        0 <= i / cc < w,
{
    vstd::arithmetic::div_mod::lemma_fundamental_div_mod(i, cc);
    vstd::arithmetic::div_mod::lemma_mod_pos_bound(i, cc);
    let x = i / cc;
    let c = i % cc;
    assert(x * cc == cc * x) by (nonlinear_arith);
    assert(0 <= x < w) by (nonlinear_arith)
        requires
            0 <= i < w * cc,
            i == cc * x + c,
            0 <= c < cc,
    ;
}

/// A row built from the stored deltas of an image row and the row above it is that row.
proof fn lemma_row(bufs: Seq<Seq<u8>>, data: Seq<u8>, h: Tlg5Header, y0: int, n: int, k: int)
    requires
        encoder_header(h, data),
        holds_deltas(bufs, data, h, y0, n),
        0 <= k < n,
        0 <= y0,
        y0 + n <= h.height,
    ensures
        row_of(bufs, h.colors as int, k * h.width, h.width as int, row_above(data, h, y0 + k))
            == image_row(data, h, y0 + k),
{
    let y = y0 + k;
    let w = h.width as int;
    let cc = h.colors as int;
    let upper = row_above(data, h, y);
    let row = row_of(bufs, cc, k * w, w, upper);
    let want = image_row(data, h, y);
    assert(h.stride() == w * cc);
    assert((y + 1) * (w * cc) == y * (w * cc) + w * cc) by (nonlinear_arith);
    assert(y * (w * cc) + w * cc <= w * h.height * cc) by (nonlinear_arith)
        requires
            0 <= y < h.height,
            0 <= w,
            0 < cc,
    ;
    assert(row.len() == want.len());
    assert forall|i: int| 0 <= i < row.len() implies row[i] == want[i] by {
        let c = i % cc;
        let x = i / cc;
        lemma_split_index(i, w, cc);
        lemma_running(bufs, data, h, y0, n, k, c, x);
        lemma_pixel_index(w, h.height as int, cc, y, x, c);
        assert(want[i] == data[y * (w * cc) + i]);
        assert(y * (w * cc) + i == (y * w + x) * cc + c);
        assert(want[i] == pixel(data, h, y, x, c));
        if y > 0 {
            lemma_pixel_index(w, h.height as int, cc, y - 1, x, c);
            assert((y - 1 + 1) * (w * cc) == (y - 1) * (w * cc) + w * cc) by (nonlinear_arith);
            assert(upper[i] == data[(y - 1) * (w * cc) + i]);
            assert((y - 1) * (w * cc) + i == ((y - 1) * w + x) * cc + c);
            assert(upper[i] == pixel(data, h, y - 1, x, c));
        } else {
            assert(upper[i] == 0);
        }
    }
    assert(row =~= want);
}

/// The rows of a block built from the stored deltas of its image rows are those rows.
proof fn lemma_rows(bufs: Seq<Seq<u8>>, data: Seq<u8>, h: Tlg5Header, y0: int, n: int, k: int)
    requires
        encoder_header(h, data),
        holds_deltas(bufs, data, h, y0, n),
        0 <= k <= n,
        0 <= y0,
        y0 + n <= h.height,
    ensures
        rows_of(
            bufs,
            h.colors as int,
            h.width as int,
            n,
            k,
            row_above(data, h, y0 + k),
            data.take((y0 + k) * h.stride()),
        ) == (data.take((y0 + n) * h.stride()), row_above(data, h, y0 + n)),
    decreases n - k,
{
    if k < n {
        let y = y0 + k;
        let s = h.stride();
        lemma_row(bufs, data, h, y0, n, k);
        assert((y + 1) * s == y * s + s) by (nonlinear_arith);
        assert(y * s + s <= h.width as int * h.height as int * h.colors as int)
            by (nonlinear_arith)
            requires
                0 <= y < h.height,
                s == h.width as int * h.colors as int,
                0 <= s,
        ;
        assert(0 <= y * s) by (nonlinear_arith)
            requires
                0 <= y,
                0 <= s,
        ;
        assert(data.take(y * s) + image_row(data, h, y) =~= data.take((y + 1) * s));
        assert(row_above(data, h, y + 1) == image_row(data, h, y));
        lemma_rows(bufs, data, h, y0, n, k + 1);
    }
}

/// Where the delta of a pixel lies in a plane.
proof fn lemma_plane_at(data: Seq<u8>, h: Tlg5Header, y0: int, n: int, c: int, k: int, x: int)
    requires
        0 <= k < n,
        0 <= x < h.width,
    ensures
        0 <= k * h.width + x < plane_of(data, h, y0, n, c).len(),
        plane_of(data, h, y0, n, c)[k * h.width + x] == stored_delta(data, h, y0 + k, x, c),
    decreases n,
{
    let w = h.width as int;
    lemma_plane_len(data, h, y0, n, c);
    lemma_plane_len(data, h, y0, n - 1, c);
    assert(0 <= k * w && k * w + w <= n * w && (n - 1) * w + w == n * w) by (nonlinear_arith)
        requires
            0 <= k < n,
            0 <= w,
    ;
    if k < n - 1 {
        lemma_plane_at(data, h, y0, n - 1, c, k, x);
    } else {
        assert(plane_row(data, h, y0 + n - 1, c)[x] == stored_delta(data, h, y0 + k, x, c));
    }
}

/// The decoder in step with the compressor: its window and cursor are those
/// of the dictionary, and its buffers have their full size.
pub open spec fn in_step(planes: Planes, st: SlideState, h: Tlg5Header) -> bool {
    &&& st.wf()
    &&& planes.window == st.window()
    &&& planes.cursor == st.s
    &&& planes.bufs.len() == h.colors
    &&& forall|c: int| 0 <= c < h.colors ==> (#[trigger] planes.bufs[c]).len() == h.plane_size()
}

/// The part that the encoder writes for a plane is read back as that plane,
/// and leaves the decoder in step with the compressor.
proof fn lemma_read_plane(
    st: SlideState,
    planes: Planes,
    h: Tlg5Header,
    plane: Seq<u8>,
    c: int,
    tail: Seq<u8>,
)
    requires
        in_step(planes, st, h),
        0 <= c < h.colors,
        plane.len() <= h.plane_size(),
        record_len(st, plane) <= u32::MAX,
    ensures
        ({
            let (bytes, s1) = packed_plane(st, plane);
            let after = Planes {
                window: s1.window(),
                cursor: s1.s,
                bufs: planes.bufs.update(c, overlay(plane, planes.bufs[c])),
            };
            &&& read_plane(bytes + tail, planes, c, h.plane_size()) == Ok::<
                (Seq<u8>, Planes),
                Failure,
            >((tail, after))
            &&& in_step(after, s1, h)
        }),
{
    let (bytes, s1) = packed_plane(st, plane);
    let packed = pack_tokens(encode_tokens(st, plane, 0));
    let rest = bytes + tail;
    lemma_lzss_round_trip(st, plane);
    let payload = if packed.len() < plane.len() { packed } else { plane };
    let mark = if packed.len() < plane.len() { 0u8 } else { 1u8 };
    lemma_low32(payload.len() as int);
    lemma_u32_bytes(low32(payload.len() as int));
    let b = u32_bytes(low32(payload.len() as int));
    assert(bytes =~= seq![mark] + b + payload);
    assert(rest[0] == mark);
    assert(rest[1] == b[0] && rest[2] == b[1] && rest[3] == b[2] && rest[4] == b[3]);
    assert(u32_at(rest, 1) == u32_at(b, 0));
    assert(rest.skip(5) =~= payload + tail);
    assert(rest.skip(5).take(payload.len() as int) =~= payload);
    assert(rest.skip(5).skip(payload.len() as int) =~= tail);
    let after = Planes {
        window: s1.window(),
        cursor: s1.s,
        bufs: planes.bufs.update(c, overlay(plane, planes.bufs[c])),
    };
    assert(overlay(plane, planes.bufs[c]).len() == h.plane_size());
    assert forall|d: int| 0 <= d < h.colors implies (#[trigger] after.bufs[d]).len()
        == h.plane_size() by {
        if d != c {
            assert(after.bufs[d] == planes.bufs[d]);
        }
    }
}

/// The parts that the encoder writes for the channels of a block are read
/// back as the planes of the block.
#[verifier::rlimit(40)]
proof fn lemma_read_planes(
    st: SlideState,
    planes: Planes,
    data: Seq<u8>,
    h: Tlg5Header,
    y0: int,
    n: int,
    c: int,
    tail: Seq<u8>,
)
    requires
        encoder_header(h, data),
        in_step(planes, st, h),
        0 <= c <= h.colors,
        0 <= n <= 4,
        block_fits(st, data, h, y0, n, c),
    ensures
        ({
            let (bytes, s1) = block_bytes(st, data, h, y0, n, c);
            match read_planes(bytes + tail, planes, h.colors as int, c, h.plane_size()) {
                Err(e) => false,
                Ok((rest, after)) => {
                    &&& rest == tail
                    &&& in_step(after, s1, h)
                    &&& forall|d: int|
                        0 <= d < c ==> #[trigger] after.bufs[d] == planes.bufs[d]
                    &&& forall|d: int|
                        c <= d < h.colors ==> #[trigger] after.bufs[d] == overlay(
                            plane_of(data, h, y0, n, d),
                            planes.bufs[d],
                        )
                },
            }
        }),
    decreases h.colors - c,
{
    if c < h.colors {
        let plane = plane_of(data, h, y0, n, c);
        let (a, s1) = packed_plane(st, plane);
        let (b, s2) = block_bytes(s1, data, h, y0, n, c + 1);
        lemma_plane_len(data, h, y0, n, c);
        assert(plane.len() <= 4 * h.width) by (nonlinear_arith)
            requires
                plane.len() == n * h.width,
                0 <= n <= 4,
        ;
        assert(h.plane_size() == 4 * h.width + 10);
        lemma_read_plane(st, planes, h, plane, c, b + tail);
        assert(a + (b + tail) =~= (a + b) + tail);
        let mid = Planes {
            window: s1.window(),
            cursor: s1.s,
            bufs: planes.bufs.update(c, overlay(plane, planes.bufs[c])),
        };
        lemma_read_planes(s1, mid, data, h, y0, n, c + 1, tail);
        let cap = h.plane_size();
        let cc = h.colors as int;
        assert(block_bytes(st, data, h, y0, n, c) == (a + b, s2));
        assert(read_plane((a + b) + tail, planes, c, cap) == Ok::<(Seq<u8>, Planes), Failure>(
            (b + tail, mid),
        ));
        assert(read_planes((a + b) + tail, planes, cc, c, cap) == read_planes(
            b + tail,
            mid,
            cc,
            c + 1,
            cap,
        ));
        let after = read_planes(b + tail, mid, cc, c + 1, cap)->Ok_0.1;
        assert forall|d: int| 0 <= d < c implies #[trigger] after.bufs[d] == planes.bufs[d] by {
            assert(after.bufs[d] == mid.bufs[d]);
        }
        assert forall|d: int| c <= d < h.colors implies #[trigger] after.bufs[d] == overlay(
            plane_of(data, h, y0, n, d),
            planes.bufs[d],
        ) by {
            if d == c {
                assert(after.bufs[d] == mid.bufs[d]);
            } else {
                assert(mid.bufs[d] == planes.bufs[d]);
            }
        }
    } else {
        assert(Seq::<u8>::empty() + tail =~= tail);
    }
}

/// Buffers that hold the planes of a block in their front hold its stored deltas.
proof fn lemma_holds_deltas(
    bufs: Seq<Seq<u8>>,
    old_bufs: Seq<Seq<u8>>,
    data: Seq<u8>,
    h: Tlg5Header,
    y0: int,
    n: int,
)
    requires
        0 <= n <= 4,
        bufs.len() == h.colors,
        old_bufs.len() == h.colors,
        h.blockheight == 4,
        forall|c: int| 0 <= c < h.colors ==> (#[trigger] old_bufs[c]).len() == h.plane_size(),
        forall|c: int|
            0 <= c < h.colors ==> #[trigger] bufs[c] == overlay(
                plane_of(data, h, y0, n, c),
                old_bufs[c],
            ),
    ensures
        holds_deltas(bufs, data, h, y0, n),
{
    assert forall|c: int, k: int, x: int|
        0 <= c < h.colors && 0 <= k < n && 0 <= x < h.width implies #[trigger] holds_delta(
        bufs,
        data,
        h,
        y0,
        c,
        k,
        x,
    ) by {
        lemma_plane_at(data, h, y0, n, c, k, x);
        lemma_plane_len(data, h, y0, n, c);
        assert(old_bufs[c].len() == h.plane_size());
        assert(n * h.width <= 4 * h.width) by (nonlinear_arith)
            requires
                0 <= n <= 4,
        ;
        assert(bufs[c] == overlay(plane_of(data, h, y0, n, c), old_bufs[c]));
    }
}

/// The blocks that the encoder writes from row `y` on are decoded to the
/// rows of the image.
proof fn lemma_blocks(
    st: SlideState,
    planes: Planes,
    data: Seq<u8>,
    h: Tlg5Header,
    y: int,
    tail: Seq<u8>,
)
    requires
        encoder_header(h, data),
        in_step(planes, st, h),
        blocks_fit(st, data, h, y),
        0 <= y,
        y % 4 == 0,
        y < h.height + 4,
    ensures
        blocks(
            encode_blocks(st, data, h, y).0 + tail,
            planes,
            h,
            y,
            row_above(data, h, y),
            data.take((if y < h.height { y } else { h.height as int }) * h.stride()),
        ) == Ok::<Seq<u8>, Failure>(data.take(h.height * h.stride())),
        encode_blocks(st, data, h, y).1.len() == if y < h.height {
            (h.height - y + 3) / 4
        } else {
            0
        },
    decreases h.height + 4 - y,
{
    if y < h.height {
        let n = rows_in_block(h, y);
        let (a, s1) = block_bytes(st, data, h, y, n, 0);
        let (b, z) = encode_blocks(s1, data, h, y + 4);
        lemma_read_planes(st, planes, data, h, y, n, 0, b + tail);
        assert(a + (b + tail) =~= (a + b) + tail);
        let got = read_planes((a + b) + tail, planes, h.colors as int, 0, h.plane_size());
        let after = got->Ok_0.1;
        assert(encode_blocks(st, data, h, y).0 == a + b);
        assert(got matches Ok((r, s)) && r == b + tail && s == after);
        lemma_holds_deltas(after.bufs, planes.bufs, data, h, y, n);
        lemma_rows(after.bufs, data, h, y, n, 0);
        let (d, u) = rows_of(
            after.bufs,
            h.colors as int,
            h.width as int,
            n,
            0,
            row_above(data, h, y),
            data.take(y * h.stride()),
        );
        assert(d == data.take((y + n) * h.stride()) && u == row_above(data, h, y + n));
        lemma_blocks(s1, after, data, h, y + 4, tail);
        let above = row_above(data, h, y);
        let so_far = data.take(y * h.stride());
        assert(blocks((a + b) + tail, planes, h, y, above, so_far) == blocks(
            b + tail,
            after,
            h,
            y + 4,
            u,
            d,
        ));
        if y + 4 >= h.height {
            assert(y + n == h.height);
            assert(blocks(b + tail, after, h, y + 4, u, d) == Ok::<Seq<u8>, Failure>(d));
        } else {
            assert(n == 4);
        }
    } else {
        assert(Seq::<u8>::empty() + tail =~= tail);
    }
}

/// The table of block sizes takes four bytes for each block.
proof fn lemma_table_len(sizes: Seq<u32>)
    ensures
        table_bytes(sizes).len() == 4 * sizes.len(),
    decreases sizes.len(),
{
    if sizes.len() > 0 {
        lemma_table_len(sizes.drop_last());
    }
}

/// The image that `img` is read back as: its pixels without what lies behind them.
pub open spec fn as_loaded(img: TlgView, tags: Map<Seq<u8>, Seq<u8>>) -> TlgView {
    TlgView {
        tags,
        version: 5,
        width: img.width,
        height: img.height,
        color: img.color,
        data: img.data.take(pixel_bytes(img)),
    }
}

/// A TLG5 stream that the encoder wrote decodes to the pixels that it was
/// given, whatever follows the stream.
pub proof fn lemma_tlg5_round_trip(img: TlgView, tail: Seq<u8>)
    requires
        encode_refusal(img) is None,
        reads_back(img),
    ensures
        tlg5_decode(tlg5_body(img) + tail) == Ok::<TlgView, Failure>(as_loaded(img, Map::empty())),
{
    reveal(tlg5_decode);
    reveal(tlg5_body);
    let h = header_for(img);
    let data = img.data;
    let st = SlideState::initial();
    let (body, sizes) = encode_blocks(st, data, h, 0);
    let table = table_bytes(sizes);
    let src = tlg5_body(img) + tail;
    let bw = u32_bytes(h.width);
    let bh = u32_bytes(h.height);
    let bb = u32_bytes(h.blockheight);
    lemma_u32_bytes(h.width);
    lemma_u32_bytes(h.height);
    lemma_u32_bytes(h.blockheight);
    assert(src =~= seq![h.colors] + bw + bh + bb + table + body + tail);
    assert(src[0] == h.colors);
    assert(src[1] == bw[0] && src[2] == bw[1] && src[3] == bw[2] && src[4] == bw[3]);
    assert(src[5] == bh[0] && src[6] == bh[1] && src[7] == bh[2] && src[8] == bh[3]);
    assert(src[9] == bb[0] && src[10] == bb[1] && src[11] == bb[2] && src[12] == bb[3]);
    assert(u32_at(src, 1) == u32_at(bw, 0));
    assert(u32_at(src, 5) == u32_at(bh, 0));
    assert(u32_at(src, 9) == u32_at(bb, 0));
    assert(header_of(src) == h);
    assert(TlgColorType::spec_from_channels(h.colors) == Some(img.color));
    assert(encoder_header(h, data));
    lemma_initial_wf();
    let planes = initial_planes(h);
    assert(planes.window =~= st.window());
    assert(in_step(planes, st, h));
    lemma_blocks(st, planes, data, h, 0, tail);
    lemma_table_len(sizes);
    assert(h.block_count() == sizes.len());
    let rest = skip_up_to(src.skip(13), 4 * h.block_count());
    assert(src.skip(13) =~= table + body + tail);
    assert(rest =~= body + tail);
    assert(data.take(0 * h.stride()) =~= Seq::<u8>::empty());
    assert(h.height * h.stride() == pixel_bytes(img)) by (nonlinear_arith)
        requires
            h.stride() == h.width as int * h.colors as int,
            pixel_bytes(img) == h.width as int * h.height as int * h.colors as int,
    ;
}

/// The payload of the first entry stands in front of that of the others.
proof fn lemma_tags_bytes_front(k: Seq<u8>, v: Seq<u8>, rest: Seq<(Seq<u8>, Seq<u8>)>)
    ensures
        tags_bytes(seq![(k, v)] + rest) == record_bytes(k, v) + tags_bytes(rest),
    decreases rest.len(),
{
    let all = seq![(k, v)] + rest;
    if rest.len() == 0 {
        assert(all.drop_last() =~= Seq::<(Seq<u8>, Seq<u8>)>::empty());
        assert(tags_bytes(all.drop_last()) =~= Seq::<u8>::empty());
        assert(tags_bytes(all) =~= record_bytes(k, v));
        assert(record_bytes(k, v) + tags_bytes(rest) =~= record_bytes(k, v));
    } else {
        assert(all.drop_last() =~= seq![(k, v)] + rest.drop_last());
        lemma_tags_bytes_front(k, v, rest.drop_last());
        assert(tags_bytes(all) =~= record_bytes(k, v) + tags_bytes(rest));
    }
}

/// The map of `entries` put onto the map `m`: a later entry replaces an earlier one.
pub open spec fn map_onto(m: Map<Seq<u8>, Seq<u8>>, entries: Seq<(Seq<u8>, Seq<u8>)>) -> Map<
    Seq<u8>,
    Seq<u8>,
>
    decreases entries.len(),
{
    if entries.len() == 0 {
        m
    } else {
        map_onto(m, entries.drop_last()).insert(entries.last().0, entries.last().1)
    }
}

proof fn lemma_map_onto_front(
    m: Map<Seq<u8>, Seq<u8>>,
    k: Seq<u8>,
    v: Seq<u8>,
    rest: Seq<(Seq<u8>, Seq<u8>)>,
)
    ensures
        map_onto(m, seq![(k, v)] + rest) == map_onto(m.insert(k, v), rest),
    decreases rest.len(),
{
    let all = seq![(k, v)] + rest;
    if rest.len() == 0 {
        assert(all.drop_last() =~= Seq::<(Seq<u8>, Seq<u8>)>::empty());
        assert(map_onto(m, all.drop_last()) == m);
    } else {
        assert(all.drop_last() =~= seq![(k, v)] + rest.drop_last());
        lemma_map_onto_front(m, k, v, rest.drop_last());
    }
}

proof fn lemma_map_onto_empty(entries: Seq<(Seq<u8>, Seq<u8>)>)
    ensures
        map_onto(Map::empty(), entries) == map_of(entries),
    decreases entries.len(),
{
    if entries.len() > 0 {
        lemma_map_onto_empty(entries.drop_last());
    }
}

/// A number in decimal notation in front of a byte that is no digit is read back.
proof fn lemma_read_decimal(tag: Seq<u8>, i: int, n: nat)
    requires
        0 <= i,
        i + decimal(n).len() < tag.len(),
        tag.subrange(i, i + decimal(n).len()) == decimal(n),
        !is_digit(tag[i + decimal(n).len()]),
    ensures
        read_number(tag, i, 0) == Some((n, i + decimal(n).len())),
{
    let j = i + decimal(n).len();
    lemma_decimal_digits(n);
    assert forall|x: int| i <= x < j implies is_digit(#[trigger] tag[x]) by {
        assert(tag[x] == tag.subrange(i, j)[x - i]);
    }
    lemma_read_number(tag, i, j, 0);
    lemma_digits_value_decimal(tag, i, n);
}

/// A record is read back from its bytes.
proof fn lemma_read_record(tag: Seq<u8>, i: int, k: Seq<u8>, v: Seq<u8>)
    requires
        0 <= i,
        i + record_bytes(k, v).len() <= tag.len(),
        tag.subrange(i, i + record_bytes(k, v).len()) == record_bytes(k, v),
    ensures
        read_record(tag, i) == TagStep::Entry(k, v, i + record_bytes(k, v).len()),
{
    let rec = record_bytes(k, v);
    let dk = decimal(k.len());
    let dv = decimal(v.len());
    let a = i + dk.len() + 1;
    let e = a + k.len();
    let b = e + 1 + dv.len() + 1;
    assert(rec =~= dk + seq![58u8] + k + seq![61u8] + dv + seq![58u8] + v + seq![44u8]);
    assert forall|x: int| 0 <= x < rec.len() implies tag[i + x] == rec[x] by {
        assert(tag.subrange(i, i + rec.len())[x] == tag[i + x]);
    }
    assert(tag.subrange(i, i + dk.len()) =~= dk) by {
        assert forall|x: int| 0 <= x < dk.len() implies tag.subrange(i, i + dk.len())[x]
            == dk[x] by {
            assert(tag[i + x] == rec[x]);
        }
    }
    assert(tag[i + dk.len()] == rec[dk.len() as int]);
    lemma_read_decimal(tag, i, k.len());
    assert(tag[e] == rec[e - i]);
    assert(tag.subrange(e + 1, e + 1 + dv.len()) =~= dv) by {
        assert forall|x: int| 0 <= x < dv.len() implies tag.subrange(e + 1, e + 1 + dv.len())[x]
            == dv[x] by {
            assert(tag[i + (e + 1 - i + x)] == rec[e + 1 - i + x]);
        }
    }
    assert(tag[e + 1 + dv.len()] == rec[e + 1 - i + dv.len()]);
    lemma_read_decimal(tag, e + 1, v.len());
    assert(tag[b + v.len()] == rec[b - i + v.len()]);
    assert(tag.subrange(a, a + k.len()) =~= k) by {
        assert forall|x: int| 0 <= x < k.len() implies tag.subrange(a, a + k.len())[x] == k[x] by {
            assert(tag[i + (a - i + x)] == rec[a - i + x]);
        }
    }
    assert(tag.subrange(b, b + v.len()) =~= v) by {
        assert forall|x: int| 0 <= x < v.len() implies tag.subrange(b, b + v.len())[x] == v[x] by {
            assert(tag[i + (b - i + x)] == rec[b - i + x]);
        }
    }
}

/// The payload that is written for entries is read back as their map.
pub proof fn lemma_tags_round_trip(
    tag: Seq<u8>,
    i: int,
    m: Map<Seq<u8>, Seq<u8>>,
    entries: Seq<(Seq<u8>, Seq<u8>)>,
)
    requires
        0 <= i <= tag.len(),
        tag.skip(i) == tags_bytes(entries),
    ensures
        parse_tags(tag, i, m) == (map_onto(m, entries), true),
    decreases entries.len(),
{
    if entries.len() == 0 {
        assert(tag.skip(i).len() == 0);
    } else {
        let (k, v) = entries[0];
        let rest = entries.skip(1);
        assert(entries =~= seq![(k, v)] + rest);
        lemma_tags_bytes_front(k, v, rest);
        lemma_map_onto_front(m, k, v, rest);
        let rec = record_bytes(k, v);
        assert(tag.skip(i).len() == rec.len() + tags_bytes(rest).len());
        assert(tag.subrange(i, i + rec.len()) =~= tag.skip(i).take(rec.len() as int));
        assert(tag.skip(i).take(rec.len() as int) =~= rec);
        lemma_read_record(tag, i, k, v);
        assert(tag.skip(i + rec.len()) =~= tag.skip(i).skip(rec.len() as int));
        assert(tag.skip(i).skip(rec.len() as int) =~= tags_bytes(rest));
        lemma_tags_round_trip(tag, i + rec.len(), m.insert(k, v), rest);
    }
}

/// A raw TLG5 stream that the encoder wrote decodes to the pixels that it
/// was given, whatever follows the stream.
proof fn lemma_raw_round_trip(img: TlgView, tail: Seq<u8>)
    requires
        encode_refusal(img) is None,
        reads_back(img),
    ensures
        raw_decode(magic_tlg5() + tlg5_body(img) + tail) == Ok::<TlgView, Failure>(
            as_loaded(img, Map::empty()),
        ),
        !has_prefix(magic_tlg5() + tlg5_body(img) + tail, magic_tlg0()),
{
    let src = magic_tlg5() + tlg5_body(img) + tail;
    assert(src.take(11) =~= magic_tlg5());
    assert(src.skip(11) =~= tlg5_body(img) + tail);
    assert(magic_tlg5()[3] != magic_tlg0()[3]);
    lemma_tlg5_round_trip(img, tail);
}

/// A `tags` chunk that was written for entries, at the end of a file, is
/// read back as the map of the entries.
proof fn lemma_scan_tags_chunk(entries: Seq<(Seq<u8>, Seq<u8>)>)
    requires
        tags_bytes(entries).len() <= u32::MAX,
    ensures
        scan_chunks(
            tags_name() + u32_bytes(tags_bytes(entries).len() as u32) + tags_bytes(entries),
            Map::empty(),
        ) == Ok::<Map<Seq<u8>, Seq<u8>>, Failure>(map_of(entries)),
{
    let payload = tags_bytes(entries);
    let bp = u32_bytes(payload.len() as u32);
    let rest = tags_name() + bp + payload;
    lemma_u32_bytes(payload.len() as u32);
    assert(rest.take(4) =~= tags_name());
    assert(rest[4] == bp[0] && rest[5] == bp[1] && rest[6] == bp[2] && rest[7] == bp[3]);
    assert(u32_at(rest, 4) == u32_at(bp, 0));
    let body = rest.skip(8);
    assert(body =~= payload);
    assert(body.take(payload.len() as int) =~= payload);
    assert(payload.skip(0) =~= payload);
    let none = Map::<Seq<u8>, Seq<u8>>::empty();
    lemma_tags_round_trip(payload, 0, none, entries);
    lemma_map_onto_empty(entries);
    let tags = map_of(entries);
    assert(parse_tags(body.take(payload.len() as int), 0, none) == (tags, true));
    let end = body.skip(payload.len() as int);
    assert(end.len() == 0);
    assert(scan_chunks(end, tags) == Ok::<Map<Seq<u8>, Seq<u8>>, Failure>(tags));
}

/// What a container decodes to, from what its parts decode to.
proof fn lemma_container(
    raw: Seq<u8>,
    chunk: Seq<u8>,
    img: TlgView,
    tags: Map<Seq<u8>, Seq<u8>>,
)
    requires
        raw.len() <= u32::MAX,
        raw_decode(raw + chunk) == Ok::<TlgView, Failure>(img),
        scan_chunks(chunk, img.tags) == Ok::<Map<Seq<u8>, Seq<u8>>, Failure>(tags),
    ensures
        tlg_decode(magic_tlg0() + u32_bytes(raw.len() as u32) + raw + chunk) == Ok::<
            TlgView,
            Failure,
        >(TlgView { tags, ..img }),
{
    let bl = u32_bytes(raw.len() as u32);
    let file = magic_tlg0() + bl + raw + chunk;
    lemma_u32_bytes(raw.len() as u32);
    assert(file.take(11) =~= magic_tlg0());
    assert(file[11] == bl[0] && file[12] == bl[1] && file[13] == bl[2] && file[14] == bl[3]);
    assert(u32_at(file, 11) == u32_at(bl, 0));
    assert(file.skip(15) =~= raw + chunk);
    assert(skip_up_to(file, 15 + raw.len() as int) =~= chunk);
}

/// The file that is written for an image that can be encoded.
proof fn lemma_encode_shape(img: TlgView, entries: Seq<(Seq<u8>, Seq<u8>)>)
    requires
        tlg_encode(img, entries) is Ok,
    ensures
        encode_refusal(img) is None,
        img.version == 5,
        entries.len() == 0 ==> tlg_encode(img, entries)->Ok_0 == magic_tlg5() + tlg5_body(img),
        entries.len() > 0 ==> {
            let raw = magic_tlg5() + tlg5_body(img);
            let payload = tags_bytes(entries);
            &&& raw.len() <= u32::MAX
            &&& payload.len() <= u32::MAX
            &&& tlg_encode(img, entries)->Ok_0 == magic_tlg0() + u32_bytes(raw.len() as u32) + raw
                + (tags_name() + u32_bytes(payload.len() as u32) + payload)
        },
{
    if entries.len() > 0 {
        let raw = magic_tlg5() + tlg5_body(img);
        let payload = tags_bytes(entries);
        assert(magic_tlg0() + u32_bytes(raw.len() as u32) + raw + tags_name() + u32_bytes(
            payload.len() as u32,
        ) + payload =~= magic_tlg0() + u32_bytes(raw.len() as u32) + raw + (tags_name() + u32_bytes(
            payload.len() as u32,
        ) + payload));
    }
}

/// What is read back from a file without tags.
proof fn lemma_save_load_plain(img: TlgView)
    requires
        encode_refusal(img) is None,
        reads_back(img),
    ensures
        tlg_decode(magic_tlg5() + tlg5_body(img)) == Ok::<TlgView, Failure>(
            as_loaded(img, Map::empty()),
        ),
{
    let raw = magic_tlg5() + tlg5_body(img);
    assert(raw + Seq::<u8>::empty() =~= raw);
    lemma_raw_round_trip(img, Seq::empty());
}

/// What is read back from a file with tags.
proof fn lemma_save_load_tagged(img: TlgView, entries: Seq<(Seq<u8>, Seq<u8>)>)
    requires
        encode_refusal(img) is None,
        reads_back(img),
        (magic_tlg5() + tlg5_body(img)).len() <= u32::MAX,
        tags_bytes(entries).len() <= u32::MAX,
    ensures
        ({
            let raw = magic_tlg5() + tlg5_body(img);
            let payload = tags_bytes(entries);
            tlg_decode(
                magic_tlg0() + u32_bytes(raw.len() as u32) + raw + (tags_name() + u32_bytes(
                    payload.len() as u32,
                ) + payload),
            ) == Ok::<TlgView, Failure>(as_loaded(img, map_of(entries)))
        }),
{
    let raw = magic_tlg5() + tlg5_body(img);
    let payload = tags_bytes(entries);
    let chunk = tags_name() + u32_bytes(payload.len() as u32) + payload;
    let none = Map::<Seq<u8>, Seq<u8>>::empty();
    lemma_raw_round_trip(img, chunk);
    lemma_scan_tags_chunk(entries);
    lemma_container(raw, chunk, as_loaded(img, none), map_of(entries));
}

/// Saving and loading an image: where an image with the entries of its tags
/// can be encoded and can be read back from its stream, the file decodes to an
/// image of version 5 with the same width, height and color, the pixels that
/// were given, and the map of the entries.
pub proof fn lemma_save_load(img: TlgView, entries: Seq<(Seq<u8>, Seq<u8>)>)
    requires
        tlg_encode(img, entries) is Ok,
        reads_back(img),
    ensures
        tlg_decode(tlg_encode(img, entries)->Ok_0) == Ok::<TlgView, Failure>(
            as_loaded(img, map_of(entries)),
        ),
        img.data.len() == pixel_bytes(img) ==> as_loaded(img, map_of(entries)).data == img.data,
{
    lemma_encode_shape(img, entries);
    assert(img.data.take(img.data.len() as int) =~= img.data);
    if entries.len() == 0 {
        lemma_save_load_plain(img);
        assert(map_of(entries) == Map::<Seq<u8>, Seq<u8>>::empty());
    } else {
        lemma_save_load_tagged(img, entries);
    }
}

/// Saving and loading an image without tags: every image of version 5
/// with a row or more that holds exactly the bytes of its pixels, and
/// that can be read back from its stream, is saved and read back as it was.
pub proof fn lemma_round_trip(img: TlgView)
    requires
        img.version == 5,
        img.tags == Map::<Seq<u8>, Seq<u8>>::empty(),
        img.data.len() == pixel_bytes(img),
        img.height > 0,
        reads_back(img),
    ensures
        tlg_encode(img, Seq::empty()) is Ok,
        tlg_decode(tlg_encode(img, Seq::empty())->Ok_0) == Ok::<TlgView, Failure>(img),
{
    lemma_save_load(img, Seq::empty());
}

/// Saving and loading an image with tags: the tags are read back as they
/// were, and the pixels too, whatever bytes the keys and values hold.
pub proof fn lemma_round_trip_tags(img: TlgView, entries: Seq<(Seq<u8>, Seq<u8>)>)
    requires
        img.version == 5,
        entries.len() > 0,
        img.tags == map_of(entries),
        tlg_encode(img, entries) is Ok,
        reads_back(img),
    ensures
        tlg_decode(tlg_encode(img, entries)->Ok_0) matches Ok(back) && back.tags == img.tags
            && back.data == img.data.take(pixel_bytes(img)) && back.width == img.width
            && back.height == img.height && back.color == img.color,
{
    lemma_save_load(img, entries);
}

/// Storing a plane as it is: where packing makes a plane no shorter, the
/// part written for it is the mark 1, its length and its bytes, and the
/// dictionary is the one from before the attempt, so that what follows is
/// packed as if the attempt had not been made.
pub proof fn lemma_store_restore(st: SlideState, plane: Seq<u8>)
    requires
        pack_tokens(encode_tokens(st, plane, 0)).len() >= plane.len(),
    ensures
        packed_plane(st, plane).0 == seq![1u8] + u32_bytes(low32(plane.len() as int)) + plane,
        packed_plane(st, plane).1 == st,
        forall|next: Seq<u8>|
            packed_plane(packed_plane(st, plane).1, next) == #[trigger] packed_plane(st, next),
{
}

/// The record of a plane of fewer than 2^32 bytes: where packing makes the
/// plane shorter, the mark 0, the number of packed bytes and the packed
/// bytes, and the dictionary has taken the plane in; else the mark 1, the
/// number of bytes of the plane and those bytes, and the dictionary is as
/// it was. Either way the number in the record is at most the length of
/// the plane.
pub proof fn lemma_record(st: SlideState, plane: Seq<u8>)
    requires
        plane.len() <= u32::MAX,
    ensures
        ({
            let packed = pack_tokens(encode_tokens(st, plane, 0));
            let (record, after) = packed_plane(st, plane);
            &&& packed.len() < plane.len() ==> record == seq![0u8] + u32_bytes(packed.len() as u32)
                + packed && after == st.feed(plane)
            &&& packed.len() >= plane.len() ==> record == seq![1u8] + u32_bytes(plane.len() as u32)
                + plane && after == st
            &&& record.len() >= 5
            &&& u32_at(record, 1) <= plane.len()
            &&& record.len() == 5 + u32_at(record, 1)
        }),
{
    let packed = pack_tokens(encode_tokens(st, plane, 0));
    let (record, after) = packed_plane(st, plane);
    let body = if packed.len() < plane.len() { packed } else { plane };
    lemma_low32(body.len() as int);
    let b = u32_bytes(body.len() as u32);
    lemma_u32_bytes(body.len() as u32);
    assert(record[1] == b[0] && record[2] == b[1] && record[3] == b[2] && record[4] == b[3]);
}

/// How the TLG5 stream of an image opens, whatever its width: the number
/// of channels, the width, the height and the block height 4.
pub proof fn lemma_tlg5_body_head(img: TlgView)
    ensures
        tlg5_body(img).len() >= 13,
        tlg5_body(img).take(13) == seq![img.color.spec_channels() as u8] + u32_bytes(img.width)
            + u32_bytes(img.height) + u32_bytes(4),
{
    reveal(tlg5_body);
    let h = header_for(img);
    let head = seq![h.colors] + u32_bytes(h.width) + u32_bytes(h.height) + u32_bytes(
        h.blockheight,
    );
    assert(head.len() == 13);
    assert(tlg5_body(img).take(13) =~= head);
}

/// The parts of a block of rows that hold fewer than 2^32 pixels hold their sizes in full.
proof fn lemma_block_fits(st: SlideState, data: Seq<u8>, h: Tlg5Header, y0: int, n: int, c: int)
    requires
        0 <= n,
        n * h.width <= u32::MAX,
        0 <= c,
    ensures
        block_fits(st, data, h, y0, n, c),
    decreases h.colors - c,
{
    if c < h.colors {
        let plane = plane_of(data, h, y0, n, c);
        lemma_plane_len(data, h, y0, n, c);
        lemma_block_fits(packed_plane(st, plane).1, data, h, y0, n, c + 1);
    }
}

/// The blocks of an image whose blocks hold fewer than 2^32 pixels hold the
/// sizes of their parts in full.
proof fn lemma_blocks_fit(st: SlideState, data: Seq<u8>, h: Tlg5Header, y: int)
    requires
        h.blockheight == 4,
        0 <= y,
        (if h.height < 4 { h.height as int } else { 4 }) * h.width <= u32::MAX,
    ensures
        blocks_fit(st, data, h, y),
    decreases
            if y < h.height {
                h.height - y
            } else {
                0
            },
{
    if y < h.height {
        let n = rows_in_block(h, y);
        let most = if h.height < 4 { h.height as int } else { 4 };
        assert(n * h.width <= most * h.width) by (nonlinear_arith)
            requires
                0 <= n <= most,
        ;
        lemma_block_fits(st, data, h, y, n, 0);
        lemma_blocks_fit(block_bytes(st, data, h, y, n, 0).1, data, h, y + 4);
    }
}

/// An image whose blocks of four rows, or of all its rows where it has
/// fewer, hold fewer than 2^32 pixels can be read back from its stream,
/// where the buffers of the decoder fit into memory.
pub proof fn lemma_reads_back(img: TlgView)
    requires
        (if img.height < 4 { img.height as int } else { 4 }) * img.width <= u32::MAX,
        header_for(img).fits(),
    ensures
        reads_back(img),
{
    lemma_blocks_fit(SlideState::initial(), img.data, header_for(img), 0);
}

} // verus!
