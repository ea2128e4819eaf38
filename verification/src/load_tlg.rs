//! Decoding of TLG5 and TLG6 streams and of the TLG0.0 container.
use crate::container::{raw_decode, scan_chunks, tags_name, tlg_decode};
use crate::stream::{u32_at, ByteReader, ReadExt};
use crate::tlg5::overlay;
use crate::tlg6::{
    band_row, band_rows, bands, byte_of, flags_refused, priming_text, read_channel, read_channels,
    row_bytes, rows_in_band, tlg6_decode, tlg6_header, tlg6_pixels, zero_pixels, Band,
    Tlg6Header,
};
use crate::{magic_tlg0, magic_tlg5, magic_tlg6, starts_with};
use crate::tags::TagMap;
use crate::tlg5::{
    blocks, header_of, initial_planes, read_plane, read_planes, rows_in_block, rows_of,
    skip_up_to, tlg5_decode, zeros, Planes, Tlg5Header,
};
use crate::tvpgl::{
    copy_front, planes_view, tlg5_compose, tlg5_decompress_slide, tlg6_decode_golomb_values,
    tlg6_decode_line, GolombTables,
};
use crate::types::{same_outcome, Failure, Tlg, TlgColorType, TlgError, TlgView};
use vstd::prelude::*;
use vstd::slice::slice_subrange;
use vstd::string::StringExecFns;

verus! {

/// Reads the parts of one block, a mark, a size and the bytes for each
/// channel, into the delta buffers. Returns the new write position of the window.
fn read_block_planes(
    src: &mut ByteReader<'_>,
    outbuf: &mut Vec<Vec<u8>>,
    text: &mut Vec<u8>,
    r: usize,
    colors: u8,
    cap: usize,
) -> (res: Result<usize, TlgError>)
    requires
        old(text).len() == 4096,
        r < 4096,
        old(outbuf).len() == colors,
        forall|c: int| 0 <= c < colors ==> (#[trigger] old(outbuf)@[c]).len() == cap,
    ensures
        final(src).source() == old(src).source(),
        final(text).len() == 4096,
        final(outbuf).len() == colors,
        forall|c: int| 0 <= c < colors ==> (#[trigger] final(outbuf)@[c]).len() == cap,
        match read_planes(
            old(src).remaining(),
            Planes { window: old(text)@, cursor: r as int, bufs: planes_view(old(outbuf)) },
            colors as int,
            0,
            cap as int,
        ) {
            Ok((rest, st)) => {
                &&& res matches Ok(at)
                &&& at == st.cursor
                &&& at < 4096
                &&& final(src).remaining() == rest
                &&& final(text)@ == st.window
                &&& planes_view(final(outbuf)) == st.bufs
            },
            Err(f) => res matches Err(e) && e@ == f,
        },
{
    let ghost rest0 = src.remaining();
    let ghost st0 = Planes { window: text@, cursor: r as int, bufs: planes_view(outbuf) };
    let ghost goal = read_planes(rest0, st0, colors as int, 0, cap as int);
    let mut at = r;
    let mut c: u8 = 0;
    while c < colors
        invariant
            src.source() == old(src).source(),
            c <= colors,
            at < 4096,
            text.len() == 4096,
            outbuf.len() == colors,
            forall|d: int| 0 <= d < colors ==> (#[trigger] outbuf@[d]).len() == cap,
            goal == read_planes(
                old(src).remaining(),
                Planes { window: old(text)@, cursor: r as int, bufs: planes_view(old(outbuf)) },
                colors as int,
                0,
                cap as int,
            ),
            goal == read_planes(
                src.remaining(),
                Planes { window: text@, cursor: at as int, bufs: planes_view(outbuf) },
                colors as int,
                c as int,
                cap as int,
            ),
        decreases colors - c,
    {
        let ghost rest = src.remaining();
        let ghost st = Planes { window: text@, cursor: at as int, bufs: planes_view(outbuf) };
        let ghost step = read_plane(rest, st, c as int, cap as int);
        let mark = match src.read_u8() {
            Ok(v) => v,
            Err(e) => {
                return Err(e);
            },
        };
        let size = match src.read_u32() {
            Ok(v) => v,
            Err(e) => {
                return Err(e);
            },
        };
        assert(size == u32_at(rest, 1)) by {
            assert(rest.skip(1)[0] == rest[1]);
            assert(rest.skip(1)[1] == rest[2]);
            assert(rest.skip(1)[2] == rest[3]);
            assert(rest.skip(1)[3] == rest[4]);
        }
        assert(src.remaining() =~= rest.skip(5));
        if size as u64 > cap as u64 {
            return Err(TlgError::IndexOutOfRange);
        }
        let body = match src.read_exact(size as usize) {
            Ok(b) => b,
            Err(e) => {
                return Err(e);
            },
        };
        assert(outbuf@[c as int].len() == cap);
        let ghost plane = outbuf@[c as int]@;
        assert(planes_view(outbuf)[c as int] == plane);
        if mark == 0 {
            assert(body@.take(size as int) =~= body@);
            match tlg5_decompress_slide(&mut outbuf[c as usize], body, size as usize, text, at) {
                Ok(v) => {
                    at = v;
                },
                Err(e) => {
                    return Err(e);
                },
            }
        } else {
            copy_front(&mut outbuf[c as usize], body);
        }
        proof {
            assert(planes_view(outbuf) =~= st.bufs.update(c as int, outbuf@[c as int]@));
            assert(body@ == rest.skip(5).take(size as int));
            assert(src.remaining() == rest.skip(5).skip(size as int));
            assert(step == Ok::<(Seq<u8>, Planes), Failure>(
                (
                    src.remaining(),
                    Planes { window: text@, cursor: at as int, bufs: planes_view(outbuf) },
                ),
            ));
        }
        c += 1;
    }
    Ok(at)
}

/// Builds the `rows` rows of a block from the delta buffers, behind `data`.
/// `prevline` holds the row above on entry and the last row on return.
fn compose_block(
    data: &mut Vec<u8>,
    prevline: &mut Vec<u8>,
    current: &mut Vec<u8>,
    outbuf: &Vec<Vec<u8>>,
    rows: u32,
    width: u32,
    colors: u8,
    blockheight: u32,
)
    requires
        colors == 1 || colors == 3 || colors == 4,
        rows <= blockheight,
        old(prevline).len() == width as int * colors as int,
        old(current).len() == width as int * colors as int,
        outbuf.len() == colors,
        forall|c: int|
            0 <= c < colors ==> (#[trigger] outbuf@[c]).len() == blockheight as int * width as int
                + 10,
    ensures
        final(prevline).len() == old(prevline).len(),
        final(current).len() == old(current).len(),
        final(data).len() == old(data).len() + rows as int * (width as int * colors as int),
        (final(data)@, final(prevline)@) == rows_of(
            planes_view(outbuf),
            colors as int,
            width as int,
            rows as int,
            0,
            old(prevline)@,
            old(data)@,
        ),
{
    let ghost bufs = planes_view(outbuf);
    let ghost goal = rows_of(bufs, colors as int, width as int, rows as int, 0, prevline@, data@);
    let mut k: u32 = 0;
    let mut off: usize = 0;
    let stride = prevline.len();
    while k < rows
        invariant
            colors == 1 || colors == 3 || colors == 4,
            k <= rows <= blockheight,
            off == k as int * width as int,
            stride == width as int * colors as int,
            prevline.len() == stride,
            current.len() == stride,
            data.len() == old(data).len() + k as int * stride as int,
            outbuf.len() == colors,
            bufs == planes_view(outbuf),
            forall|c: int|
                0 <= c < colors ==> (#[trigger] outbuf@[c]).len() == blockheight as int
                    * width as int + 10,
            goal == rows_of(
                bufs,
                colors as int,
                width as int,
                rows as int,
                k as int,
                prevline@,
                data@,
            ),
        decreases rows - k,
    {
        assert(off + width <= blockheight as int * width as int) by (nonlinear_arith)
            requires
                off == k as int * width as int,
                k < blockheight,
        ;
        tlg5_compose(current, prevline.as_slice(), outbuf, off, width, colors);
        assert(current@.take(stride as int) =~= current@);
        let ghost before = data@;
        let mut i: usize = 0;
        while i < stride
            invariant
                i <= stride,
                current.len() == stride,
                data@ == before + current@.take(i as int),
            decreases stride - i,
        {
            data.push(current[i]);
            i += 1;
            assert(data@ =~= before + current@.take(i as int));
        }
        std::mem::swap(prevline, current);
        assert((k + 1) as int * stride as int == k as int * stride as int + stride as int)
            by (nonlinear_arith);
        assert(off + width <= blockheight as int * width as int);
        assert(outbuf@[0].len() == blockheight as int * width as int + 10);
        k += 1;
        off += width as usize;
        assert(off == k as int * width as int) by (nonlinear_arith)
            requires
                off == (k - 1) as int * width as int + width as int,
        ;
    }
}

/// Decodes a TLG5 stream that stands behind its signature.
pub fn load_tlg5(src: &mut ByteReader<'_>) -> (res: Result<Tlg, TlgError>)
    ensures
        same_outcome(res, tlg5_decode(old(src).remaining())),
        final(src).source() == old(src).source(),
        res matches Ok(t) ==> t.wf() && t.holds_pixels(),
{
    reveal(tlg5_decode);
    let ghost all = src.remaining();
    let colors = match src.read_u8() {
        Ok(v) => v,
        Err(e) => {
            return Err(e);
        },
    };
    let width = match src.read_u32() {
        Ok(v) => v,
        Err(e) => {
            return Err(e);
        },
    };
    let height = match src.read_u32() {
        Ok(v) => v,
        Err(e) => {
            return Err(e);
        },
    };
    let blockheight = match src.read_u32() {
        Ok(v) => v,
        Err(e) => {
            return Err(e);
        },
    };
    let ghost h = header_of(all);
    proof {
        let a = all.skip(1);
        let b = a.skip(4);
        let c = b.skip(4);
        assert(a[0] == all[1] && a[1] == all[2] && a[2] == all[3] && a[3] == all[4]);
        assert(b[0] == all[5] && b[1] == all[6] && b[2] == all[7] && b[3] == all[8]);
        assert(c[0] == all[9] && c[1] == all[10] && c[2] == all[11] && c[3] == all[12]);
        assert(src.remaining() =~= all.skip(13));
        assert(h == Tlg5Header { colors, width, height, blockheight });
    }
    let color = match TlgColorType::from_channels(colors) {
        Some(c) => c,
        None => {
            return Err(TlgError::UnsupportedColorType(colors));
        },
    };
    if height == 0 || blockheight == 0 {
        return Err(TlgError::InvalidFormat);
    }
    assert(blockheight as u64 * width as u64 + 10 <= u64::MAX) by (nonlinear_arith)
        requires
            blockheight <= u32::MAX,
            width <= u32::MAX,
    ;
    let cap64: u64 = blockheight as u64 * width as u64 + 10;
    assert(width as u64 * colors as u64 <= 0x4_0000_0000) by (nonlinear_arith)
        requires
            width <= 0xffff_ffff,
            colors <= 4,
    ;
    let stride64: u64 = width as u64 * colors as u64;
    if cap64 > usize::MAX as u64 || stride64 > usize::MAX as u64 {
        return Err(TlgError::IndexOutOfRange);
    }
    let cap = cap64 as usize;
    let stride = stride64 as usize;
    let blockcount: u64 = ((height - 1) / blockheight) as u64 + 1;
    src.skip(blockcount * 4);
    let mut text: Vec<u8> = vec![0u8; 4096];
    let mut outbuf: Vec<Vec<u8>> = Vec::new();
    let mut c: u8 = 0;
    while c < colors
        invariant
            c <= colors,
            outbuf.len() == c,
            forall|d: int| 0 <= d < c ==> (#[trigger] outbuf@[d])@ == zeros(cap as int),
        decreases colors - c,
    {
        let plane: Vec<u8> = vec![0u8; cap];
        assert(plane@ =~= zeros(cap as int));
        outbuf.push(plane);
        c += 1;
    }
    let mut prevline: Vec<u8> = vec![0u8; stride];
    let mut current: Vec<u8> = vec![0u8; stride];
    let mut data: Vec<u8> = Vec::new();
    let mut at: usize = 0;
    let mut y: u64 = 0;
    let ghost goal = blocks(
        skip_up_to(all.skip(13), 4 * h.block_count()),
        initial_planes(h),
        h,
        0,
        zeros(h.stride()),
        Seq::empty(),
    );
    proof {
        assert(text@ =~= zeros(4096));
        assert(planes_view(&outbuf) =~= initial_planes(h).bufs);
        assert(prevline@ =~= zeros(h.stride()));
    }
    while y < height as u64
        invariant
            h == (Tlg5Header { colors, width, height, blockheight }),
            colors == 1 || colors == 3 || colors == 4,
            blockheight > 0,
            cap == h.plane_size(),
            stride == h.stride(),
            y <= height as u64 + blockheight as u64,
            data.len() == (if y < height { y as int } else { height as int }) * stride as int,
            at < 4096,
            text.len() == 4096,
            outbuf.len() == colors,
            forall|d: int| 0 <= d < colors ==> (#[trigger] outbuf@[d]).len() == cap,
            prevline.len() == stride,
            current.len() == stride,
            src.source() == old(src).source(),
            all == old(src).remaining(),
            tlg5_decode(all) == match goal {
                Err(e) => Err::<TlgView, Failure>(e),
                Ok(data) => Ok(
                    TlgView { tags: Map::empty(), version: 5, width, height, color, data },
                ),
            },
            goal == blocks(
                src.remaining(),
                Planes { window: text@, cursor: at as int, bufs: planes_view(&outbuf) },
                h,
                y as int,
                prevline@,
                data@,
            ),
        decreases height as u64 + blockheight as u64 - y,
    {
        at = match read_block_planes(src, &mut outbuf, &mut text, at, colors, cap) {
            Ok(v) => v,
            Err(e) => {
                return Err(e);
            },
        };
        let left = height as u64 - y;
        let rows: u32 = if left < blockheight as u64 { left as u32 } else { blockheight };
        assert(rows == rows_in_block(h, y as int));
        assert((y + rows) * stride == y * stride + rows * stride) by (nonlinear_arith);
        compose_block(
            &mut data,
            &mut prevline,
            &mut current,
            &outbuf,
            rows,
            width,
            colors,
            blockheight,
        );
        y += blockheight as u64;
    }
    assert(height as int * (width as int * colors as int) == width as int * height as int
        * colors as int) by (nonlinear_arith);
    Ok(Tlg { tags: TagMap::new(), version: 5, width, height, color, data })
}

/// Reads the bits of the channels of a band and decodes them into the residuals.
fn read_band_channels(
    src: &mut ByteReader<'_>,
    tables: &GolombTables,
    bit_pool: &mut Vec<u8>,
    pixelbuf: &mut Vec<u32>,
    h: &Tlg6Header,
    pixel_count: usize,
) -> (res: Result<(), TlgError>)
    requires
        h.colors == 1 || h.colors == 3 || h.colors == 4,
        old(bit_pool).len() == h.pool_len(),
    ensures
        final(src).source() == old(src).source(),
        final(bit_pool).len() == old(bit_pool).len(),
        final(pixelbuf).len() == old(pixelbuf).len(),
        match read_channels(
            old(src).remaining(),
            Band { pool: old(bit_pool)@, buf: old(pixelbuf)@ },
            *h,
            pixel_count as int,
            0,
        ) {
            Ok((rest, st)) => res is Ok && final(src).remaining() == rest && final(bit_pool)@
                == st.pool && final(pixelbuf)@ == st.buf,
            Err(f) => res matches Err(e) && e@ == f,
        },
{
    let ghost goal = read_channels(
        src.remaining(),
        Band { pool: bit_pool@, buf: pixelbuf@ },
        *h,
        pixel_count as int,
        0,
    );
    let mut c: u8 = 0;
    while c < h.colors
        invariant
            h.colors == 1 || h.colors == 3 || h.colors == 4,
            c <= h.colors,
            src.source() == old(src).source(),
            bit_pool.len() == old(bit_pool).len(),
            bit_pool.len() == h.pool_len(),
            pixelbuf.len() == old(pixelbuf).len(),
            goal == read_channels(
                old(src).remaining(),
                Band { pool: old(bit_pool)@, buf: old(pixelbuf)@ },
                *h,
                pixel_count as int,
                0,
            ),
            goal == read_channels(
                src.remaining(),
                Band { pool: bit_pool@, buf: pixelbuf@ },
                *h,
                pixel_count as int,
                c as int,
            ),
        decreases h.colors - c,
    {
        let ghost rest = src.remaining();
        let word = match src.read_u32() {
            Ok(v) => v,
            Err(e) => {
                return Err(e);
            },
        };
        let method = (word >> 30) & 3;
        let bit_length = word & 0x3fff_ffff;
        assert(method == word / 0x4000_0000 && bit_length == word % 0x4000_0000 && bit_length
            <= 0x3fff_ffff) by (bit_vector)
            requires
                method == (word >> 30) & 3,
                bit_length == word & 0x3fff_ffff,
        ;
        let byte_length = (bit_length + 7) / 8;
        if byte_length as u64 >= bit_pool.len() as u64 {
            return Err(
                TlgError::Str(String::from_str("Bit pool is too small for the given bit length")),
            );
        }
        let body = match src.read_exact(byte_length as usize) {
            Ok(b) => b,
            Err(e) => {
                return Err(e);
            },
        };
        if method != 0 {
            return Err(TlgError::UnsupportedCompressedMethod(method as u8));
        }
        let ghost before = Band { pool: bit_pool@, buf: pixelbuf@ };
        copy_front(bit_pool, body);
        proof {
            assert(word == u32_at(rest, 0));
            assert(body@ == rest.skip(4).take(byte_length as int));
            assert(src.remaining() == rest.skip(4).skip(byte_length as int));
            assert(bit_pool@ == overlay(rest.skip(4).take(byte_length as int), before.pool));
        }
        let ghost pool_now = bit_pool@;
        match tlg6_decode_golomb_values(
            tables,
            pixelbuf,
            pixel_count,
            bit_pool.as_slice(),
            c == 0 && h.colors != 1,
            c,
        ) {
            Ok(()) => {},
            Err(e) => {
                return Err(e);
            },
        }
        proof {
            assert(read_channel(rest, before, *h, pixel_count as int, c as int) == Ok::<
                (Seq<u8>, Band),
                Failure,
            >((src.remaining(), Band { pool: pool_now, buf: pixelbuf@ })));
        }
        c += 1;
    }
    Ok(())
}

/// Decodes row `r` of the band of `rows` rows that starts at row `y`.
fn decode_band_row(
    prevline: &Vec<u32>,
    filter_types: &[u8],
    pixelbuf: &Vec<u32>,
    h: &Tlg6Header,
    y: u32,
    rows: u32,
    r: u32,
) -> (res: Result<Vec<u32>, TlgError>)
    requires
        h.width > 0,
        rows <= 8,
        r < rows,
    ensures
        match band_row(prevline@, filter_types@, pixelbuf@, *h, y as int, rows as int, r as int) {
            Ok(cur) => res matches Ok(v) && v@ == cur && v.len() == h.width,
            Err(f) => res matches Err(e) && e@ == f,
        },
{
    let w = h.width;
    let main_count = (w / 8) as usize;
    let x_blocks = ((w - 1) / 8 + 1) as usize;
    let fraction = w - (w / 8) * 8;
    let mut cur: Vec<u32> = vec![0u32; w as usize];
    assert(cur@ =~= zero_pixels(w as int));
    let dir = (y as u64 + r as u64) % 2 == 0;
    let oddskip: isize = (rows - r - 1) as isize - r as isize;
    let zero: u32 = if h.colors == 3 { 0xff00_0000 } else { 0 };
    let skip = (rows * 8) as usize;
    if main_count != 0 {
        let ww = if w < 8 { w } else { 8 };
        assert(ww * r <= 64) by (nonlinear_arith)
            requires
                ww <= 8,
                r <= 8,
        ;
        let start = ww * r;
        match tlg6_decode_line(
            prevline.as_slice(),
            &mut cur,
            w,
            0,
            main_count,
            filter_types,
            skip,
            pixelbuf.as_slice(),
            start as usize,
            zero,
            oddskip,
            dir,
        ) {
            Ok(()) => {},
            Err(e) => {
                return Err(e);
            },
        }
    }
    if main_count != x_blocks {
        let ww = if fraction < 8 { fraction } else { 8 };
        assert(ww * r <= 64) by (nonlinear_arith)
            requires
                ww <= 8,
                r <= 8,
        ;
        let start = ww * r;
        match tlg6_decode_line(
            prevline.as_slice(),
            &mut cur,
            w,
            main_count,
            x_blocks,
            filter_types,
            skip,
            pixelbuf.as_slice(),
            start as usize,
            zero,
            oddskip,
            dir,
        ) {
            Ok(()) => {},
            Err(e) => {
                return Err(e);
            },
        }
    }
    Ok(cur)
}

/// Byte `c` of a pixel.
fn pixel_byte(px: u32, c: u8) -> (b: u8)
    ensures
        b == byte_of(px, c as int),
{
    if c == 0 {
        (px & 0xff) as u8
    } else if c == 1 {
        ((px >> 8) & 0xff) as u8
    } else if c == 2 {
        ((px >> 16) & 0xff) as u8
    } else {
        ((px >> 24) & 0xff) as u8
    }
}

/// Appends the bytes of a row: of each pixel the lowest `colors` bytes.
fn push_row(data: &mut Vec<u8>, cur: &Vec<u32>, colors: u8)
    requires
        colors == 1 || colors == 3 || colors == 4,
    ensures
        final(data)@ == old(data)@ + row_bytes(cur@, colors as int),
        final(data).len() == old(data).len() + cur.len() * colors,
{
    let ghost row = row_bytes(cur@, colors as int);
    let ghost k = colors as int;
    let mut x: usize = 0;
    assert(row.take(0) =~= Seq::<u8>::empty());
    assert(data@ + Seq::<u8>::empty() =~= data@);
    while x < cur.len()
        invariant
            colors == 1 || colors == 3 || colors == 4,
            k == colors,
            row == row_bytes(cur@, k),
            x <= cur.len(),
            data@ == old(data)@ + row.take(x * k),
        decreases cur.len() - x,
    {
        let px = cur[x];
        let mut c: u8 = 0;
        assert(x * k + k <= cur.len() * k) by (nonlinear_arith)
            requires
                x < cur.len(),
                0 < k,
        ;
        while c < colors
            invariant
                colors == 1 || colors == 3 || colors == 4,
                k == colors,
                row == row_bytes(cur@, k),
                x < cur.len(),
                px == cur@[x as int],
                c <= colors,
                x * k + k <= cur.len() * k,
                data@ == old(data)@ + row.take(x * k + c),
            decreases colors - c,
        {
            proof {
                let i = x * k + c;
                crate::roundtrip::lemma_split_index(i, cur.len() as int, k);
                assert(i / k == x && i % k == c) by (nonlinear_arith)
                    requires
                        i == x * k + c,
                        i == (i / k) * k + i % k,
                        0 <= c < k,
                        0 <= i % k < k,
                ;
            }
            data.push(pixel_byte(px, c));
            c += 1;
            assert(data@ =~= old(data)@ + row.take(x * k + c));
        }
        x += 1;
        assert(x * k == (x - 1) * k + k) by (nonlinear_arith);
    }
    assert(row.take(cur.len() * k) =~= row);
}

/// The window from which the filter types are unpacked.
fn priming_window() -> (text: Vec<u8>)
    ensures
        text@ == priming_text(),
{
    let mut text: Vec<u8> = Vec::new();
    let mut p: usize = 0;
    while p < 4096
        invariant
            p <= 4096,
            text.len() == p,
            forall|q: int| 0 <= q < p ==> #[trigger] text@[q] == priming_text()[q],
        decreases 4096 - p,
    {
        let b = if p % 8 < 4 { (p / 8 / 16) as u8 } else { (p / 8 % 16) as u8 };
        text.push(b);
        p += 1;
    }
    assert(text@ =~= priming_text());
    text
}

/// Decodes the rows of a band, behind `data`. `prevline` holds the row
/// above on entry and the last row on return.
fn decode_band_rows(
    data: &mut Vec<u8>,
    prevline: &mut Vec<u32>,
    filter_types: &[u8],
    pixelbuf: &Vec<u32>,
    h: &Tlg6Header,
    y: u32,
    rows: u32,
) -> (res: Result<(), TlgError>)
    requires
        h.colors == 1 || h.colors == 3 || h.colors == 4,
        h.width > 0,
        rows <= 8,
    ensures
        match band_rows(
            old(prevline)@,
            filter_types@,
            pixelbuf@,
            *h,
            y as int,
            rows as int,
            0,
            old(data)@,
        ) {
            Ok((d, last)) => res is Ok && final(data)@ == d && final(prevline)@ == last && d.len()
                == old(data).len() + rows as int * (h.width as int * h.colors as int),
            Err(f) => res matches Err(e) && e@ == f,
        },
{
    let ghost goal = band_rows(
        prevline@,
        filter_types@,
        pixelbuf@,
        *h,
        y as int,
        rows as int,
        0,
        data@,
    );
    let mut r: u32 = 0;
    while r < rows
        invariant
            h.colors == 1 || h.colors == 3 || h.colors == 4,
            h.width > 0,
            r <= rows <= 8,
            data.len() == old(data).len() + r as int * (h.width as int * h.colors as int),
            goal == band_rows(
                old(prevline)@,
                filter_types@,
                pixelbuf@,
                *h,
                y as int,
                rows as int,
                0,
                old(data)@,
            ),
            goal == band_rows(
                prevline@,
                filter_types@,
                pixelbuf@,
                *h,
                y as int,
                rows as int,
                r as int,
                data@,
            ),
        decreases rows - r,
    {
        let cur = match decode_band_row(prevline, filter_types, pixelbuf, h, y, rows, r) {
            Ok(v) => v,
            Err(e) => {
                return Err(e);
            },
        };
        push_row(data, &cur, h.colors);
        *prevline = cur;
        assert((r + 1) as int * (h.width as int * h.colors as int) == r as int * (h.width as int
            * h.colors as int) + h.width as int * h.colors as int) by (nonlinear_arith);
        r += 1;
    }
    Ok(())
}

/// Decodes the band that starts at row `y`: reads the bits of its channels
/// and decodes its rows behind `data`.
fn decode_band(
    src: &mut ByteReader<'_>,
    tables: &GolombTables,
    bit_pool: &mut Vec<u8>,
    pixelbuf: &mut Vec<u32>,
    prevline: &mut Vec<u32>,
    data: &mut Vec<u8>,
    filter_types: &Vec<u8>,
    h: &Tlg6Header,
    y: u32,
) -> (res: Result<(), TlgError>)
    requires
        h.colors == 1 || h.colors == 3 || h.colors == 4,
        h.width > 0,
        h.fits(),
        y < h.height,
        y % 8 == 0,
        filter_types.len() == h.filter_len(),
        old(bit_pool).len() == h.pool_len(),
    ensures
        final(src).source() == old(src).source(),
        final(bit_pool).len() == old(bit_pool).len(),
        final(pixelbuf).len() == old(pixelbuf).len(),
        ({
            let before = bands(
                old(src).remaining(),
                Band { pool: old(bit_pool)@, buf: old(pixelbuf)@ },
                old(prevline)@,
                *h,
                filter_types@,
                y as int,
                old(data)@,
            );
            match res {
                Ok(_) => before == bands(
                    final(src).remaining(),
                    Band { pool: final(bit_pool)@, buf: final(pixelbuf)@ },
                    final(prevline)@,
                    *h,
                    filter_types@,
                    y + 8,
                    final(data)@,
                ) && final(data).len() == old(data).len() + rows_in_band(*h, y as int) * (
                h.width as int * h.colors as int),
                Err(e) => before matches Err(f) && e@ == f,
            }
        }),
{
    let width = h.width;
    let x_blocks: u64 = ((width - 1) / 8 + 1) as u64;
    let y_blocks: u64 = ((h.height - 1) / 8 + 1) as u64;
    let left = h.height - y;
    let rows: u32 = if left < 8 { left } else { 8 };
    assert(rows * width as u64 <= 8 * width as u64) by (nonlinear_arith)
        requires
            rows <= 8,
    ;
    let pixel_count = (rows as u64 * width as u64) as usize;
    match read_band_channels(src, tables, bit_pool, pixelbuf, h, pixel_count) {
        Ok(()) => {},
        Err(e) => {
            return Err(e);
        },
    }
    assert((y as u64 / 8) * x_blocks <= x_blocks * y_blocks - x_blocks) by (nonlinear_arith)
        requires
            y as u64 / 8 < y_blocks,
            0 <= x_blocks,
    ;
    let ft_off = ((y as u64 / 8) * x_blocks) as usize;
    let ft = slice_subrange(filter_types.as_slice(), ft_off, filter_types.len());
    assert(ft@ =~= filter_types@.skip(y as int / 8 * h.x_blocks()));
    decode_band_rows(data, prevline, ft, pixelbuf, h, y, rows)
}

/// Reads the fields that open a TLG6 stream. Where the number of channels
/// or one of the three flags is refused, nothing behind those four bytes is read.
fn read_tlg6_header(src: &mut ByteReader<'_>) -> (res: Result<(Tlg6Header, TlgColorType), TlgError>)
    ensures
        final(src).source() == old(src).source(),
        match tlg6_header(old(src).remaining()) {
            Ok(x) => res == Ok::<(Tlg6Header, TlgColorType), TlgError>(x) && final(src).remaining()
                == old(src).remaining().skip(16),
            Err(f) => res matches Err(e) && e@ == f,
        },
        flags_refused(old(src).remaining()) ==> final(src).remaining() == old(
            src,
        ).remaining().skip(4),
{
    let ghost all = src.remaining();
    let buf = match src.read_exact(4) {
        Ok(b) => b,
        Err(e) => {
            return Err(e);
        },
    };
    let colors = buf[0];
    assert(buf@[0] == all[0] && buf@[1] == all[1] && buf@[2] == all[2] && buf@[3] == all[3]);
    let color = match TlgColorType::from_channels(colors) {
        Some(c) => c,
        None => {
            return Err(TlgError::UnsupportedColorType(colors));
        },
    };
    if buf[1] != 0 {
        return Err(TlgError::Str(String::from_str("Data flags must be 0")));
    }
    if buf[2] != 0 {
        return Err(TlgError::Str(String::from_str("Color types must be 0")));
    }
    if buf[3] != 0 {
        return Err(
            TlgError::Str(
                String::from_str("External golomb bit length table is not yet supported."),
            ),
        );
    }
    let width = match src.read_u32() {
        Ok(v) => v,
        Err(e) => {
            return Err(e);
        },
    };
    let height = match src.read_u32() {
        Ok(v) => v,
        Err(e) => {
            return Err(e);
        },
    };
    let max_bit_length = match src.read_u32() {
        Ok(v) => v,
        Err(e) => {
            return Err(e);
        },
    };
    let h = Tlg6Header { colors, width, height, max_bit_length };
    proof {
        let a = all.skip(4);
        let b = a.skip(4);
        let c = b.skip(4);
        assert(a[0] == all[4] && a[1] == all[5] && a[2] == all[6] && a[3] == all[7]);
        assert(b[0] == all[8] && b[1] == all[9] && b[2] == all[10] && b[3] == all[11]);
        assert(c[0] == all[12] && c[1] == all[13] && c[2] == all[14] && c[3] == all[15]);
        assert(src.remaining() =~= all.skip(16));
    }
    if width == 0 || height == 0 {
        return Err(TlgError::InvalidFormat);
    }
    let x_blocks: u64 = ((width - 1) / 8 + 1) as u64;
    let y_blocks: u64 = ((height - 1) / 8 + 1) as u64;
    let pool_len: u64 = (max_bit_length / 8) as u64 + 5;
    let pixel_len: u64 = width as u64 * 8 + 1;
    assert(x_blocks * y_blocks <= 0x1000_0000_0000_0000) by (nonlinear_arith)
        requires
            x_blocks <= 0x2000_0000,
            y_blocks <= 0x2000_0000,
    ;
    let filter_len: u64 = x_blocks * y_blocks;
    assert(width as u64 * colors as u64 <= 0x4_0000_0000) by (nonlinear_arith)
        requires
            width <= 0xffff_ffff,
            colors <= 4,
    ;
    let stride: u64 = width as u64 * colors as u64;
    if pool_len > usize::MAX as u64 || pixel_len > usize::MAX as u64 || filter_len
        > usize::MAX as u64 || stride > usize::MAX as u64 {
        return Err(TlgError::IndexOutOfRange);
    }
    Ok((h, color))
}

/// Decodes the pixels of a TLG6 stream that stand behind its first 16 bytes.
fn load_tlg6_pixels(src: &mut ByteReader<'_>, h: &Tlg6Header) -> (res: Result<Vec<u8>, TlgError>)
    requires
        h.colors == 1 || h.colors == 3 || h.colors == 4,
        h.width > 0,
        h.height > 0,
        h.fits(),
    ensures
        final(src).source() == old(src).source(),
        match tlg6_pixels(old(src).remaining(), *h) {
            Ok(data) => res matches Ok(v) && v@ == data && v.len() == h.height as int * (
            h.width as int * h.colors as int),
            Err(f) => res matches Err(e) && e@ == f,
        },
{
    reveal(tlg6_pixels);
    let ghost all = src.remaining();
    let colors = h.colors;
    let width = h.width;
    let height = h.height;
    let x_blocks: u64 = ((width - 1) / 8 + 1) as u64;
    let y_blocks: u64 = ((height - 1) / 8 + 1) as u64;
    let pool_len: u64 = (h.max_bit_length / 8) as u64 + 5;
    let pixel_len: u64 = width as u64 * 8 + 1;
    assert(x_blocks * y_blocks <= 0x1000_0000_0000_0000) by (nonlinear_arith)
        requires
            x_blocks <= 0x2000_0000,
            y_blocks <= 0x2000_0000,
    ;
    let filter_len: u64 = x_blocks * y_blocks;
    assert(width as u64 * colors as u64 <= 0x4_0000_0000) by (nonlinear_arith)
        requires
            width <= 0xffff_ffff,
            colors <= 4,
    ;
    let stride: u64 = width as u64 * colors as u64;
    let inbuf_size = match src.read_u32() {
        Ok(v) => v,
        Err(e) => {
            return Err(e);
        },
    };
    assert(src.remaining() =~= all.skip(4));
    let inbuf = match src.read_exact(inbuf_size as usize) {
        Ok(b) => b,
        Err(e) => {
            return Err(e);
        },
    };
    let mut filter_types: Vec<u8> = vec![0u8; filter_len as usize];
    assert(filter_types@ =~= zeros(h.filter_len()));
    let mut lzss_text = priming_window();
    assert(inbuf@.take(inbuf_size as int) =~= inbuf@);
    match tlg5_decompress_slide(&mut filter_types, inbuf, inbuf_size as usize, &mut lzss_text, 0) {
        Ok(_) => {},
        Err(e) => {
            return Err(e);
        },
    }
    let tables = GolombTables::new();
    let mut bit_pool: Vec<u8> = vec![0u8; pool_len as usize];
    let mut pixelbuf: Vec<u32> = vec![0u32; pixel_len as usize];
    let zero: u32 = if colors == 3 { 0xff00_0000 } else { 0 };
    let mut prevline: Vec<u32> = vec![zero; width as usize];
    let mut data: Vec<u8> = Vec::new();
    let mut y: u64 = 0;
    assert(0 * (h.width as int * h.colors as int) == 0);
    let ghost goal = bands(
        src.remaining(),
        Band { pool: bit_pool@, buf: pixelbuf@ },
        prevline@,
        *h,
        filter_types@,
        0,
        data@,
    );
    proof {
        assert(bit_pool@ =~= zeros(h.pool_len()));
        assert(pixelbuf@ =~= zero_pixels(h.pixel_len()));
        assert(prevline@ =~= Seq::new(h.width as nat, |i: int| h.zero()));
        assert(data@ =~= Seq::<u8>::empty());
    }
    while y < height as u64
        invariant
            h.colors == 1 || h.colors == 3 || h.colors == 4,
            h.width > 0,
            h.fits(),
            height == h.height,
            filter_types.len() == h.filter_len(),
            bit_pool.len() == h.pool_len(),
            pixelbuf.len() == h.pixel_len(),
            y % 8 == 0,
            y <= height as u64 + 7,
            data.len() == (if y < height { y as int } else { height as int }) * (h.width as int
                * h.colors as int),
            src.source() == old(src).source(),
            all == old(src).remaining(),
            tlg6_pixels(all, *h) == goal,
            goal == bands(
                src.remaining(),
                Band { pool: bit_pool@, buf: pixelbuf@ },
                prevline@,
                *h,
                filter_types@,
                y as int,
                data@,
            ),
        decreases height as u64 + 7 - y,
    {
        let ghost rows = rows_in_band(*h, y as int);
        assert((y + rows) * (h.width as int * h.colors as int) == y * (h.width as int
            * h.colors as int) + rows * (h.width as int * h.colors as int)) by (nonlinear_arith);
        match decode_band(
            src,
            &tables,
            &mut bit_pool,
            &mut pixelbuf,
            &mut prevline,
            &mut data,
            &filter_types,
            h,
            y as u32,
        ) {
            Ok(()) => {},
            Err(e) => {
                return Err(e);
            },
        }
        y += 8;
    }
    Ok(data)
}


/// Decodes a TLG6 stream that stands behind its signature. Where the
/// number of channels or one of the three flags is refused, nothing behind
/// those four bytes is read.
pub fn load_tlg6(src: &mut ByteReader<'_>) -> (res: Result<Tlg, TlgError>)
    ensures
        same_outcome(res, tlg6_decode(old(src).remaining())),
        final(src).source() == old(src).source(),
        res matches Ok(t) ==> t.wf() && t.holds_pixels(),
        flags_refused(old(src).remaining()) ==> final(src).remaining() == old(
            src,
        ).remaining().skip(4),
{
    reveal(tlg6_decode);
    let (h, color) = match read_tlg6_header(src) {
        Ok(x) => x,
        Err(e) => {
            return Err(e);
        },
    };
    let data = match load_tlg6_pixels(src, &h) {
        Ok(d) => d,
        Err(e) => {
            return Err(e);
        },
    };
    assert(h.height as int * (h.width as int * h.colors as int) == h.width as int
        * h.height as int * h.colors as int) by (nonlinear_arith);
    Ok(Tlg { tags: TagMap::new(), version: 6, width: h.width, height: h.height, color, data })
}

/// Decodes the raw TLG5 or TLG6 stream that starts at the read position.
pub fn internal_load_tlg(src: &mut ByteReader<'_>) -> (res: Result<Tlg, TlgError>)
    ensures
        same_outcome(res, raw_decode(old(src).remaining())),
        final(src).source() == old(src).source(),
        res matches Ok(t) ==> t.wf() && t.holds_pixels(),
{
    let ghost all = src.remaining();
    let mark = match src.read_exact(11) {
        Ok(b) => b,
        Err(e) => {
            return Err(e);
        },
    };
    let m5: [u8; 11] = [0x54, 0x4c, 0x47, 0x35, 0x2e, 0x30, 0x00, 0x72, 0x61, 0x77, 0x1a];
    let m6: [u8; 11] = [0x54, 0x4c, 0x47, 0x36, 0x2e, 0x30, 0x00, 0x72, 0x61, 0x77, 0x1a];
    proof {
        assert(m5@ =~= magic_tlg5());
        assert(m6@ =~= magic_tlg6());
        assert(mark@.take(11) =~= all.take(11));
    }
    if starts_with(mark, m5.as_slice()) {
        load_tlg5(src)
    } else if starts_with(mark, m6.as_slice()) {
        load_tlg6(src)
    } else {
        Err(TlgError::InvalidFormat)
    }
}

/// Reads the chunks from the read position on into the tags of `tlg`.
fn load_chunks(src: &mut ByteReader<'_>, tags: &mut TagMap) -> (res: Result<(), TlgError>)
    requires
        old(tags).wf(),
    ensures
        final(tags).wf(),
        match scan_chunks(old(src).remaining(), old(tags)@) {
            Ok(t) => res is Ok && final(tags)@ == t,
            Err(f) => res matches Err(e) && e@ == f,
        },
{
    let name: [u8; 4] = [0x74, 0x61, 0x67, 0x73];
    assert(name@ =~= tags_name());
    loop
        invariant
            tags.wf(),
            name@ == tags_name(),
            scan_chunks(old(src).remaining(), old(tags)@) == scan_chunks(src.remaining(), tags@),
        decreases src.remaining().len(),
    {
        let ghost rest = src.remaining();
        if src.left() < 4 {
            return Ok(());
        }
        let chunkname = match src.read_exact(4) {
            Ok(b) => b,
            Err(e) => {
                return Err(e);
            },
        };
        let chunksize = match src.read_u32() {
            Ok(v) => v,
            Err(e) => {
                return Err(e);
            },
        };
        proof {
            let a = rest.skip(4);
            assert(a[0] == rest[4] && a[1] == rest[5] && a[2] == rest[6] && a[3] == rest[7]);
            assert(src.remaining() =~= rest.skip(8));
            assert(chunkname@ =~= rest.take(4));
        }
        if crate::tags::bytes_eq(chunkname, name.as_slice()) {
            let tag = match src.read_exact(chunksize as usize) {
                Ok(b) => b,
                Err(e) => {
                    return Err(e);
                },
            };
            if !tags.parse(tag) {
                return Ok(());
            }
        } else {
            src.skip(chunksize as u64);
        }
    }
}

/// Decodes the TLG0.0 container whose signature has been read.
fn load_tagged(src: &mut ByteReader<'_>) -> (res: Result<Tlg, TlgError>)
    requires
        old(src).source().len() >= 11,
        old(src).remaining() == old(src).source().skip(11),
    ensures
        match raw_decode(old(src).source().skip(15)) {
            Err(f) => old(src).source().len() < 15 || (res matches Err(e) && e@ == f),
            Ok(img) => old(src).source().len() < 15 || same_outcome(
                res,
                match scan_chunks(
                    skip_up_to(old(src).source(), 15 + u32_at(old(src).source(), 11) as int),
                    img.tags,
                ) {
                    Err(e) => Err::<TlgView, Failure>(e),
                    Ok(tags) => Ok(TlgView { tags, ..img }),
                },
            ),
        },
        old(src).source().len() < 15 ==> (res matches Err(e) && e@ == Failure::Io),
        res matches Ok(t) ==> t.wf() && t.holds_pixels(),
{
    let ghost all = src.source();
    let rawlen = match src.read_u32() {
        Ok(v) => v,
        Err(e) => {
            return Err(e);
        },
    };
    proof {
        let a = all.skip(11);
        assert(a[0] == all[11] && a[1] == all[12] && a[2] == all[13] && a[3] == all[14]);
        assert(src.remaining() =~= all.skip(15));
    }
    let mut tlg = match internal_load_tlg(src) {
        Ok(t) => t,
        Err(e) => {
            return Err(e);
        },
    };
    src.seek(rawlen as u64 + 15);
    let ghost img = tlg@;
    match load_chunks(src, &mut tlg.tags) {
        Ok(()) => {
            assert(tlg@ == TlgView { tags: tlg.tags@, ..img });
            Ok(tlg)
        },
        Err(e) => Err(e),
    }
}

/// Decode TLG image
pub fn load_tlg(src: ByteReader<'_>) -> (res: Result<Tlg, TlgError>)
    ensures
        same_outcome(res, tlg_decode(src.source())),
        res matches Ok(t) ==> t.wf() && t.holds_pixels(),
{
    let mut src = src;
    src.rewind();
    let ghost all = src.source();
    let mark = match src.read_exact(11) {
        Ok(b) => b,
        Err(e) => {
            return Err(e);
        },
    };
    let m0: [u8; 11] = [0x54, 0x4c, 0x47, 0x30, 0x2e, 0x30, 0x00, 0x73, 0x64, 0x73, 0x1a];
    proof {
        assert(m0@ =~= magic_tlg0());
        assert(mark@.take(11) =~= all.take(11));
    }
    if starts_with(mark, m0.as_slice()) {
        load_tagged(&mut src)
    } else {
        src.rewind();
        internal_load_tlg(&mut src)
    }
}

} // verus!
