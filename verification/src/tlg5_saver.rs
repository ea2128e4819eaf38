//! Encoding of TLG5 streams.
use crate::decimal::append_decimal;
use crate::dictionary::SlideState;
use crate::slide::SlideCompressor;
use crate::stream::{low32, low32_of, u32_bytes, ByteWriter, WriteExt};
use crate::tlg5::{
    block_bytes, encode_blocks, encode_refusal, header_for, packed_plane, pixel, pixel_bytes,
    plane_of, plane_row, residual, rows_in_block, stored_delta, table_bytes, tlg5_body, Tlg5Header,
};
use crate::types::{Tlg, TlgError};
use vstd::prelude::*;
use vstd::string::StringExecFns;

verus! {

/// Where the bytes of a pixel lie in the image.
pub proof fn lemma_pixel_index(w: int, h: int, k: int, y: int, x: int, c: int)
    by (nonlinear_arith)
    requires
        0 <= y < h,
        0 <= x < w,
        0 <= c < k,
    ensures
        0 <= (y * w + x) * k + c < w * h * k,
        0 <= y * w + x < w * h,
        ((y - 1) * w + x) * k + c == (y * w + x) * k + c - w * k,
        (y * w + (x - 1)) * k + c == (y * w + x) * k + c - k,
        (y * w + x) * k == y * (w * k) + x * k,
        0 <= w * k <= w * h * k,
        y * (w * k) + w * k <= w * h * k,
{
}

/// Says why the image cannot be encoded, if it cannot.
pub fn encode_check(tlg: &Tlg) -> (r: Option<TlgError>)
    ensures
        match encode_refusal(tlg@) {
            Some(msg) => r matches Some(TlgError::EncodeError(m)) && m@ == msg,
            None => r is None,
        },
{
    let k = tlg.color.channels();
    assert(tlg.width as u128 * (tlg.height as u128) * (k as u128) <= 0x4_0000_0000_0000_0000)
        by (nonlinear_arith)
        requires
            tlg.width <= 0xffff_ffff,
            tlg.height <= 0xffff_ffff,
            k <= 4,
    ;
    assert(tlg.width as u128 * (tlg.height as u128) <= 0x1_0000_0000_0000_0000)
        by (nonlinear_arith)
        requires
            tlg.width <= 0xffff_ffff,
            tlg.height <= 0xffff_ffff,
    ;
    let size: u128 = tlg.width as u128 * (tlg.height as u128) * (k as u128);
    if (tlg.data.len() as u128) < size {
        let mut m = String::from_str("Image data size too small: expected ");
        append_decimal(&mut m, size);
        m.append(", got ");
        append_decimal(&mut m, tlg.data.len() as u128);
        return Some(TlgError::EncodeError(m));
    }
    if tlg.height == 0 {
        return Some(TlgError::EncodeError(String::from_str("Image height must not be 0")));
    }
    None
}

/// A byte of the image minus the byte above it.
fn residual_at(tlg: &Tlg, y: usize, x: usize, c: usize) -> (r: u8)
    requires
        pixel_bytes(tlg@) <= tlg.data.len(),
        y < tlg.height,
        x < tlg.width,
        c < tlg.color.spec_channels(),
    ensures
        r == residual(tlg.data@, header_for(tlg@), y as int, x as int, c as int),
{
    let w = tlg.width as usize;
    let k = tlg.color.channels() as usize;
    proof {
        lemma_pixel_index(w as int, tlg.height as int, k as int, y as int, x as int, c as int);
    }
    let i = (y * w + x) * k + c;
    let cur = tlg.data[i];
    if y > 0 {
        cur.wrapping_sub(tlg.data[i - w * k])
    } else {
        cur
    }
}

/// The stored deltas of channel `c` in the `n` rows from row `y0` on.
fn build_plane(tlg: &Tlg, y0: usize, n: usize, c: usize) -> (plane: Vec<u8>)
    requires
        pixel_bytes(tlg@) <= tlg.data.len(),
        y0 + n <= tlg.height,
        c < tlg.color.spec_channels(),
    ensures
        plane@ == plane_of(tlg.data@, header_for(tlg@), y0 as int, n as int, c as int),
{
    let ghost h = header_for(tlg@);
    let ghost data = tlg.data@;
    let w = tlg.width as usize;
    let k = tlg.color.channels() as usize;
    let green = k >= 3 && (c == 0 || c == 2);
    let mut plane: Vec<u8> = Vec::new();
    let mut j: usize = 0;
    while j < n
        invariant
            j <= n,
            h == header_for(tlg@),
            data == tlg.data@,
            w == tlg.width,
            k == tlg.color.spec_channels(),
            green == (k >= 3 && (c == 0 || c == 2)),
            pixel_bytes(tlg@) <= tlg.data.len(),
            y0 + n <= tlg.height,
            c < k,
            plane@ == plane_of(data, h, y0 as int, j as int, c as int),
        decreases n - j,
    {
        let y = y0 + j;
        let ghost done = plane@;
        let mut x: usize = 0;
        let mut prev: u8 = 0;
        let mut prev_g: u8 = 0;
        while x < w
            invariant
                x <= w,
                h == header_for(tlg@),
                data == tlg.data@,
                w == tlg.width,
                k == tlg.color.spec_channels(),
                green == (k >= 3 && (c == 0 || c == 2)),
                pixel_bytes(tlg@) <= tlg.data.len(),
                y < tlg.height,
                c < k,
                x > 0 ==> prev == residual(data, h, y as int, x - 1, c as int),
                x > 0 && green ==> prev_g == residual(data, h, y as int, x - 1, 1),
                plane@ == done + plane_row(data, h, y as int, c as int).take(x as int),
            decreases w - x,
        {
            let cur = residual_at(tlg, y, x, c);
            let val = if x > 0 { cur.wrapping_sub(prev) } else { cur };
            let out = if green {
                let cur_g = residual_at(tlg, y, x, 1);
                let val_g = if x > 0 { cur_g.wrapping_sub(prev_g) } else { cur_g };
                prev_g = cur_g;
                val.wrapping_sub(val_g)
            } else {
                val
            };
            prev = cur;
            assert(out == stored_delta(data, h, y as int, x as int, c as int));
            plane.push(out);
            x += 1;
            assert(plane@ =~= done + plane_row(data, h, y as int, c as int).take(x as int));
        }
        j += 1;
        assert(plane_row(data, h, y as int, c as int).take(w as int) =~= plane_row(
            data,
            h,
            y as int,
            c as int,
        ));
    }
    plane
}

/// Writes the part of a block for one channel: packed where that makes it
/// shorter, as it is otherwise. Returns the number of bytes written.
fn write_plane(compressor: &mut SlideCompressor, plane: &Vec<u8>, writer: &mut ByteWriter) -> (n:
    u128)
    requires
        old(compressor).wf(),
    ensures
        final(compressor).wf(),
        final(compressor)@ == packed_plane(old(compressor)@, plane@).1,
        final(writer)@ == old(writer)@ + packed_plane(old(compressor)@, plane@).0,
        n == packed_plane(old(compressor)@, plane@).0.len(),
        n <= plane.len() + 5,
{
    let inp = plane.len();
    compressor.store();
    let mut outbuf: Vec<u8> = Vec::new();
    let wrote = compressor.encode_into(plane.as_slice(), &mut outbuf);
    assert(outbuf@ =~= crate::lzss::pack_tokens(
        crate::dictionary::encode_tokens(old(compressor)@, plane@, 0),
    ));
    if wrote < inp {
        writer.write_u8(0);
        writer.write_u32(low32_of(wrote as u128));
        writer.write_all(outbuf.as_slice());
        assert(writer@ =~= old(writer)@ + (seq![0u8] + u32_bytes(low32(wrote as int)) + outbuf@));
        wrote as u128 + 5
    } else {
        compressor.restore();
        writer.write_u8(1);
        writer.write_u32(low32_of(inp as u128));
        writer.write_all(plane.as_slice());
        assert(writer@ =~= old(writer)@ + (seq![1u8] + u32_bytes(low32(inp as int)) + plane@));
        inp as u128 + 5
    }
}

/// A plane holds one delta for each pixel of its rows.
pub proof fn lemma_plane_len(data: Seq<u8>, h: Tlg5Header, y0: int, n: int, c: int)
    requires
        0 <= n,
    ensures
        plane_of(data, h, y0, n, c).len() == n * h.width,
    decreases n,
{
    if n > 0 {
        lemma_plane_len(data, h, y0, n - 1, c);
        assert((n - 1) * h.width + h.width == n * h.width) by (nonlinear_arith);
    }
}

/// Writes the parts of the block of `n` rows from row `y0` on, one for each channel.
/// Returns the number of bytes written.
fn write_block(
    tlg: &Tlg,
    compressor: &mut SlideCompressor,
    writer: &mut ByteWriter,
    y0: usize,
    n: usize,
) -> (size: u128)
    requires
        old(compressor).wf(),
        encode_refusal(tlg@) is None,
        y0 + n <= tlg.height,
        n <= 4,
    ensures
        final(compressor).wf(),
        final(compressor)@ == block_bytes(
            old(compressor)@,
            tlg.data@,
            header_for(tlg@),
            y0 as int,
            n as int,
            0,
        ).1,
        final(writer)@ == old(writer)@ + block_bytes(
            old(compressor)@,
            tlg.data@,
            header_for(tlg@),
            y0 as int,
            n as int,
            0,
        ).0,
        size == block_bytes(
            old(compressor)@,
            tlg.data@,
            header_for(tlg@),
            y0 as int,
            n as int,
            0,
        ).0.len(),
{
    let ghost h = header_for(tlg@);
    let ghost data = tlg.data@;
    let ghost goal = block_bytes(compressor@, data, h, y0 as int, n as int, 0);
    let ghost mut done: Seq<u8> = Seq::empty();
    let k = tlg.color.channels() as usize;
    let mut size: u128 = 0;
    let mut c: usize = 0;
    assert(writer@ + done =~= writer@);
    assert(done + goal.0 =~= goal.0);
    while c < k
        invariant
            c <= k,
            k == h.colors,
            k <= 4,
            h == header_for(tlg@),
            data == tlg.data@,
            encode_refusal(tlg@) is None,
            y0 + n <= tlg.height,
            n <= 4,
            compressor.wf(),
            size <= c * 0x1_0000_0000_0000_0005,
            writer@ == old(writer)@ + done,
            size == done.len(),
            goal.0 == done + block_bytes(compressor@, data, h, y0 as int, n as int, c as int).0,
            goal.1 == block_bytes(compressor@, data, h, y0 as int, n as int, c as int).1,
        decreases k - c,
    {
        let ghost st = compressor@;
        let plane = build_plane(tlg, y0, n, c);
        let wrote = write_plane(compressor, &plane, writer);
        size += wrote;
        proof {
            let part = packed_plane(st, plane@).0;
            let next = block_bytes(compressor@, data, h, y0 as int, n as int, c + 1);
            assert(writer@ =~= old(writer)@ + (done + part));
            assert(goal.0 =~= (done + part) + next.0);
            done = done + part;
        }
        c += 1;
    }
    proof {
        assert(goal.0 =~= done);
    }
    size
}

/// Writes the TLG5 stream of an image behind what `writer` holds. Fails,
/// and writes nothing, where the image has fewer bytes than its pixels take
/// or no rows.
pub fn save_tlg5(tlg: &Tlg, writer: &mut ByteWriter) -> (res: Result<(), TlgError>)
    ensures
        match encode_refusal(tlg@) {
            Some(msg) => res matches Err(TlgError::EncodeError(m)) && m@ == msg && final(writer)@
                == old(writer)@,
            None => res is Ok && final(writer)@ == old(writer)@ + crate::magic_tlg5() + tlg5_body(
                tlg@,
            ),
        },
{
    reveal(tlg5_body);
    match encode_check(tlg) {
        Some(e) => {
            return Err(e);
        },
        None => {},
    }
    let ghost h = header_for(tlg@);
    let ghost data = tlg.data@;
    let magic: [u8; 11] = [0x54, 0x4c, 0x47, 0x35, 0x2e, 0x30, 0x00, 0x72, 0x61, 0x77, 0x1a];
    assert(magic@ =~= crate::magic_tlg5());
    writer.write_all(magic.as_slice());
    let colors = tlg.color.channels();
    writer.write_u8(colors);
    writer.write_u32(tlg.width);
    writer.write_u32(tlg.height);
    writer.write_u32(4);
    let height = tlg.height as u64;
    let blockcount: u64 = (height - 1) / 4 + 1;
    let blocksizepos = writer.stream_position();
    let ghost head = writer@;
    let space: [u8; 4] = [0x20, 0x20, 0x20, 0x20];
    let mut i: u64 = 0;
    while i < blockcount
        invariant
            i <= blockcount,
            writer@.len() == head.len() + 4 * i,
            writer@.take(head.len() as int) == head,
        decreases blockcount - i,
    {
        let ghost before = writer@;
        writer.write_all(space.as_slice());
        i += 1;
        assert(writer@.take(head.len() as int) =~= before.take(head.len() as int));
    }
    let ghost base = writer@;
    let mut compressor = SlideCompressor::new();
    let mut blocksizes: Vec<u32> = Vec::new();
    let mut y: u64 = 0;
    let ghost whole = encode_blocks(SlideState::initial(), data, h, 0);
    let ghost mut body: Seq<u8> = Seq::empty();
    assert(writer@ + body =~= writer@);
    assert(body + whole.0 =~= whole.0);
    assert(blocksizes@ + whole.1 =~= whole.1);
    while y < height
        invariant
            h == header_for(tlg@),
            data == tlg.data@,
            encode_refusal(tlg@) is None,
            height == tlg.height,
            y % 4 == 0,
            y <= height + 3,
            blocksizes.len() == y / 4,
            compressor.wf(),
            writer@ == base + body,
            whole.0 == body + encode_blocks(compressor@, data, h, y as int).0,
            whole.1 == blocksizes@ + encode_blocks(compressor@, data, h, y as int).1,
        decreases height + 3 - y,
    {
        let ghost st = compressor@;
        let left = height - y;
        let n: usize = if left < 4 { left as usize } else { 4 };
        assert(n == rows_in_block(h, y as int));
        let size = write_block(tlg, &mut compressor, writer, y as usize, n);
        let ghost sizes0 = blocksizes@;
        blocksizes.push(low32_of(size));
        proof {
            let part = block_bytes(st, data, h, y as int, n as int, 0).0;
            let next = encode_blocks(compressor@, data, h, y + 4);
            assert(writer@ =~= base + (body + part));
            assert(whole.0 =~= (body + part) + next.0);
            assert(whole.1 =~= sizes0.push(low32(size as int)) + next.1);
            body = body + part;
        }
        y += 4;
    }
    proof {
        assert(whole.0 =~= body);
        assert(whole.1 =~= blocksizes@);
        assert(blocksizes.len() == blockcount);
        assert(base.len() == head.len() + 4 * blockcount);
    }
    let total = writer.stream_position();
    let mut j: usize = 0;
    assert(table_bytes(blocksizes@.take(0)) =~= Seq::<u8>::empty());
    assert(writer@.subrange(head.len() as int, head.len() as int) =~= Seq::<u8>::empty());
    assert(writer@.skip(base.len() as int) =~= body);
    assert(writer@.take(head.len() as int) =~= base.take(head.len() as int));
    while j < blocksizes.len()
        invariant
            j <= blocksizes.len(),
            blocksizes.len() == blockcount,
            blocksizepos == head.len(),
            base.len() == head.len() + 4 * blockcount,
            total == base.len() + body.len(),
            writer@.len() == total,
            writer@.take(head.len() as int) == head,
            writer@.subrange(head.len() as int, head.len() + 4 * j) == table_bytes(
                blocksizes@.take(j as int),
            ),
            writer@.skip(base.len() as int) == body,
        decreases blocksizes.len() - j,
    {
        let ghost before = writer@;
        writer.patch_u32(blocksizepos + 4 * j, blocksizes[j]);
        proof {
            let at = head.len() + 4 * j;
            assert(writer@.take(head.len() as int) =~= before.take(head.len() as int));
            assert(writer@.skip(base.len() as int) =~= before.skip(base.len() as int));
            assert(blocksizes@.take(j + 1).drop_last() =~= blocksizes@.take(j as int));
            assert(writer@.subrange(head.len() as int, at + 4) =~= before.subrange(
                head.len() as int,
                at,
            ) + u32_bytes(blocksizes@[j as int]));
        }
        j += 1;
    }
    proof {
        assert(blocksizes@.take(blockcount as int) =~= blocksizes@);
        assert(head =~= old(writer)@ + crate::magic_tlg5() + seq![h.colors] + u32_bytes(h.width)
            + u32_bytes(h.height) + u32_bytes(h.blockheight));
        assert(writer@ =~= writer@.take(head.len() as int) + writer@.subrange(
            head.len() as int,
            head.len() + 4 * blockcount,
        ) + writer@.skip(base.len() as int));
        assert(writer@ =~= old(writer)@ + crate::magic_tlg5() + tlg5_body(tlg@));
    }
    Ok(())
}

} // verus!
