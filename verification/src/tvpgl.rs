//! Pixel-level kernels of the TLG5 and TLG6 decoders.
use crate::lzss::{
    apply_tokens, copy_run, flag_bit, lemma_apply_tokens_push, lemma_apply_tokens_shape,
    lemma_parse_tokens_wf, lemma_token_at_wf, lemma_total_span_prefix, lzss_unpack,
    lzss_unpack_into, mask_offset, parse_stream, parse_tokens, prepend, token_at, tokens_wf,
    unpack_from, Token, Unpacked,
};
use crate::tlg5::{overlay, row_of, running};
use crate::tlg6::{
    avg_of, bytes_add, code_byte, decode_line, fetch32, filter_message, filter_pixel, golomb_code,
    golomb_decode, golomb_k, golomb_runs, golomb_runs_from, gt_mask, lead, lead_from,
    lemma_golomb_k, lemma_line_far, lemma_run_total, lemma_runs, line_blocks, line_pixels, med_of,
    pack_bgra, peek, pow2k, put_channel, recombine, run_count, run_start, unary, values_run,
    zero_run, Adapt, LinePass, LineState,
};
use crate::types::{Failure, TlgError};
use vstd::prelude::*;
use vstd::string::StringExecFns;

verus! {

/// One step of reading a stream: the token at `pos` joins those read before.
proof fn lemma_parse_step(src: Seq<u8>, done: Seq<Token>, pos: int, ctrl: u8, used: int)
    requires
        0 <= pos < src.len(),
    ensures
        ({
            let c = if used >= 8 { src[pos] } else { ctrl };
            let k = if used >= 8 { 0 } else { used };
            let p = if used >= 8 { pos + 1 } else { pos };
            match token_at(src, p, flag_bit(c, k)) {
                None => prepend(done, parse_tokens(src, pos, ctrl, used)) is None,
                Some((t, n)) => prepend(done, parse_tokens(src, pos, ctrl, used)) == prepend(
                    done.push(t),
                    parse_tokens(src, p + n, c, k + 1),
                ) && t.wf() && 1 <= n <= 3 && p + n <= src.len(),
            }
        }),
{
    let c = if used >= 8 { src[pos] } else { ctrl };
    let k = if used >= 8 { 0 } else { used };
    let p = if used >= 8 { pos + 1 } else { pos };
    lemma_token_at_wf(src, p, flag_bit(c, k));
    match token_at(src, p, flag_bit(c, k)) {
        None => {},
        Some((t, n)) => {
            match parse_tokens(src, p + n, c, k + 1) {
                Some(rest) => assert(done + (seq![t] + rest) =~= done.push(t) + rest),
                None => {},
            }
        },
    }
}

/// Tokens that overflow a buffer still overflow it with more tokens behind them.
proof fn lemma_overflow(
    start: Unpacked,
    done: Seq<Token>,
    t: Token,
    src: Seq<u8>,
    pos: int,
    ctrl: u8,
    used: int,
    cap: int,
)
    requires
        start.window.len() == 4096,
        0 <= start.cursor < 4096,
        start.out.len() == 0,
        tokens_wf(done),
        t.wf(),
        apply_tokens(start, done).out.len() + t.span() > cap,
    ensures
        prepend(done.push(t), parse_tokens(src, pos, ctrl, used)) matches Some(ts) ==> apply_tokens(
            start,
            ts,
        ).out.len() > cap,
{
    lemma_parse_tokens_wf(src, pos, ctrl, used);
    lemma_apply_tokens_shape(start, done);
    match parse_tokens(src, pos, ctrl, used) {
        Some(rest) => {
            lemma_total_span_prefix(done.push(t), rest);
            lemma_apply_tokens_push(start, done, t);
            lemma_apply_tokens_shape(start, done.push(t) + rest);
        },
        None => {},
    }
}

/// Repeats `mlen` bytes from window offset `mpos` at `out[outpos..]` and at
/// the window's write position `r`; returns the new write position.
fn slide_copy(
    out: &mut Vec<u8>,
    outpos: usize,
    text: &mut Vec<u8>,
    r: usize,
    mpos: usize,
    mlen: usize,
) -> (at: usize)
    requires
        old(text).len() == 4096,
        r < 4096,
        mpos < 4096,
        outpos + mlen <= old(out).len(),
    ensures
        final(out).len() == old(out).len(),
        final(text).len() == 4096,
        ({
            let u = copy_run(
                Unpacked {
                    window: old(text)@,
                    cursor: r as int,
                    out: old(out)@.take(outpos as int),
                },
                mpos as int,
                mlen as int,
            );
            &&& final(text)@ == u.window
            &&& at == u.cursor
            &&& final(out)@.take(outpos + mlen) == u.out
        }),
        at < 4096,
        forall|i: int| outpos + mlen <= i < old(out).len() ==> final(out)@[i] == old(out)@[i],
{
    let ghost before = Unpacked {
        window: text@,
        cursor: r as int,
        out: out@.take(outpos as int),
    };
    let mut at = r;
    let mut from = mpos;
    let mut left = mlen;
    let mut o = outpos;
    while left > 0
        invariant
            at < 4096,
            from < 4096,
            text.len() == 4096,
            out.len() == old(out).len(),
            o + left == outpos + mlen,
            outpos + mlen <= out.len(),
            copy_run(before, mpos as int, mlen as int) == copy_run(
                Unpacked { window: text@, cursor: at as int, out: out@.take(o as int) },
                from as int,
                left as int,
            ),
            forall|i: int| outpos + mlen <= i < old(out).len() ==> out@[i] == old(out)@[i],
        decreases left,
    {
        let ghost cur = Unpacked { window: text@, cursor: at as int, out: out@.take(o as int) };
        let b = text[from];
        out[o] = b;
        o += 1;
        text[at] = b;
        at = mask_offset(at + 1);
        from = mask_offset(from + 1);
        left -= 1;
        assert(out@.take(o as int) =~= cur.out.push(b));
    }
    at
}

/// Unpacks the first `insize` bytes of `inp` into the front of `out`, through
/// the window `text` with its write position `r`, and returns the new write
/// position. Fails where the stream ends inside a token or unpacks to more
/// than `out` can hold; `out` and `text` then hold what the tokens before
/// that one unpacked. Nothing is unpacked where `insize` is more than `inp` holds.
pub fn tlg5_decompress_slide(
    out: &mut Vec<u8>,
    inp: &[u8],
    insize: usize,
    text: &mut Vec<u8>,
    r: usize,
) -> (res: Result<usize, TlgError>)
    requires
        old(text).len() == 4096,
        r < 4096,
    ensures
        final(out).len() == old(out).len(),
        final(text).len() == 4096,
        insize > inp.len() ==> res is Err,
        insize <= inp.len() ==> match lzss_unpack(inp@.take(insize as int), old(text)@, r as int) {
            Some(u) => if u.out.len() <= old(out).len() {
                &&& res matches Ok(v)
                &&& v == u.cursor
                &&& final(text)@ == u.window
                &&& final(out)@ == overlay(u.out, old(out)@)
            } else {
                res is Err
            },
            None => res is Err,
        },
        res matches Err(e) ==> e == TlgError::IndexOutOfRange,
        res matches Ok(v) ==> v < 4096,
        insize > inp.len() ==> final(out)@ == old(out)@ && final(text)@ == old(text)@,
        insize <= inp.len() ==> ({
            let left = lzss_unpack_into(
                inp@.take(insize as int),
                old(text)@,
                r as int,
                old(out).len() as int,
            );
            &&& final(text)@ == left.0.window
            &&& final(out)@ == overlay(left.0.out, old(out)@)
            &&& left.1 == (res is Ok)
        }),
{
    if insize > inp.len() {
        return Err(TlgError::IndexOutOfRange);
    }
    let ghost src = inp@.take(insize as int);
    let ghost start = Unpacked { window: text@, cursor: r as int, out: Seq::empty() };
    let ghost mut done: Seq<Token> = Seq::empty();
    let mut at = r;
    let mut ctrl: u8 = 0;
    let mut used: u8 = 8;
    let mut inpos: usize = 0;
    let mut outpos: usize = 0;
    assert(prepend(done, parse_tokens(src, 0, 0, 8)) == parse_stream(src)) by {
        match parse_stream(src) {
            Some(ts) => assert(done + ts =~= ts),
            None => {},
        }
    }
    assert(out@.take(0) =~= Seq::<u8>::empty());
    let ghost cap = out.len() as int;
    let ghost left = lzss_unpack_into(src, text@, r as int, cap);
    while inpos < insize
        invariant
            cap == old(out).len(),
            left == lzss_unpack_into(src, old(text)@, r as int, cap),
            left == unpack_from(
                src,
                inpos as int,
                ctrl,
                used as int,
                Unpacked { window: text@, cursor: at as int, out: out@.take(outpos as int) },
                cap,
            ),
            insize <= inp.len(),
            src == inp@.take(insize as int),
            start == (Unpacked { window: old(text)@, cursor: r as int, out: Seq::empty() }),
            old(text).len() == 4096,
            r < 4096,
            inpos <= insize,
            used <= 8,
            at < 4096,
            text.len() == 4096,
            out.len() == old(out).len(),
            outpos <= out.len(),
            tokens_wf(done),
            parse_stream(src) == prepend(done, parse_tokens(src, inpos as int, ctrl, used as int)),
            apply_tokens(start, done) == (Unpacked {
                window: text@,
                cursor: at as int,
                out: out@.take(outpos as int),
            }),
            forall|i: int| outpos <= i < old(out).len() ==> out@[i] == old(out)@[i],
        decreases insize - inpos,
    {
        proof {
            lemma_parse_step(src, done, inpos as int, ctrl, used as int);
        }
        if used >= 8 {
            ctrl = inp[inpos];
            inpos += 1;
            used = 0;
        }
        let is_match = (ctrl >> used) & 1 == 1;
        assert(is_match == flag_bit(ctrl, used as int)) by (bit_vector)
            requires
                used < 8,
                is_match == ((ctrl >> used) & 1 == 1),
        ;
        let ghost p = inpos as int;
        if is_match {
            if insize - inpos < 2 {
                proof {
                    assert(out@ =~= overlay(out@.take(outpos as int), old(out)@));
                }
                return Err(TlgError::IndexOutOfRange);
            }
            let b0 = inp[inpos];
            let b1 = inp[inpos + 1];
            let mpos: usize = (b0 as usize) | (((b1 as usize) & 0xf) << 8);
            let mut mlen: usize = ((b1 as usize) & 0xf0) >> 4;
            assert(mpos == b0 as int + 256 * (b1 as int % 16) && mlen == b1 as int / 16 && mpos
                < 4096) by (bit_vector)
                requires
                    mpos == (b0 as usize) | (((b1 as usize) & 0xf) << 8),
                    mlen == ((b1 as usize) & 0xf0) >> 4,
            ;
            inpos += 2;
            mlen += 3;
            if mlen == 18 {
                if inpos >= insize {
                    proof {
                    assert(out@ =~= overlay(out@.take(outpos as int), old(out)@));
                }
                return Err(TlgError::IndexOutOfRange);
                }
                mlen += inp[inpos] as usize;
                inpos += 1;
            }
            let ghost t = Token::Match { pos: mpos as int, len: mlen as int };
            assert(token_at(src, p, true) == Some((t, inpos - p)));
            if mlen > out.len() - outpos {
                proof {
                    lemma_overflow(
                        start,
                        done,
                        t,
                        src,
                        inpos as int,
                        ctrl,
                        used + 1,
                        out.len() as int,
                    );
                }
                proof {
                    assert(out@ =~= overlay(out@.take(outpos as int), old(out)@));
                }
                return Err(TlgError::IndexOutOfRange);
            }
            at = slide_copy(out, outpos, text, at, mpos, mlen);
            outpos += mlen;
            proof {
                lemma_apply_tokens_push(start, done, t);
                done = done.push(t);
            }
        } else {
            if inpos >= insize {
                proof {
                    assert(out@ =~= overlay(out@.take(outpos as int), old(out)@));
                }
                return Err(TlgError::IndexOutOfRange);
            }
            let b = inp[inpos];
            inpos += 1;
            let ghost t = Token::Literal(b);
            assert(token_at(src, p, false) == Some((t, 1int)));
            if outpos >= out.len() {
                proof {
                    lemma_overflow(
                        start,
                        done,
                        t,
                        src,
                        inpos as int,
                        ctrl,
                        used + 1,
                        out.len() as int,
                    );
                }
                proof {
                    assert(out@ =~= overlay(out@.take(outpos as int), old(out)@));
                }
                return Err(TlgError::IndexOutOfRange);
            }
            let ghost prev = out@.take(outpos as int);
            out[outpos] = b;
            outpos += 1;
            text[at] = b;
            at = mask_offset(at + 1);
            proof {
                assert(out@.take(outpos as int) =~= prev.push(b));
                lemma_apply_tokens_push(start, done, t);
                done = done.push(t);
            }
        }
        used += 1;
    }
    proof {
        assert(done + Seq::<Token>::empty() =~= done);
        lemma_apply_tokens_shape(start, done);
        assert(out@ =~= overlay(out@.take(outpos as int), old(out)@));
    }
    Ok(at)
}

/// The delta buffers of the channels as sequences.
pub open spec fn planes_view(buf: &Vec<Vec<u8>>) -> Seq<Seq<u8>> {
    Seq::new(buf@.len(), |c: int| buf@[c]@)
}

/// Writes `src` over the front of `dst`.
pub fn copy_front(dst: &mut Vec<u8>, src: &[u8])
    requires
        src.len() <= old(dst).len(),
    ensures
        final(dst)@ == overlay(src@, old(dst)@),
{
    let mut i: usize = 0;
    while i < src.len()
        invariant
            i <= src.len() <= dst.len(),
            dst.len() == old(dst).len(),
            forall|j: int| 0 <= j < i ==> dst@[j] == src@[j],
            forall|j: int| i <= j < dst.len() ==> dst@[j] == old(dst)@[j],
        decreases src.len() - i,
    {
        dst[i] = src[i];
        i += 1;
    }
    assert(dst@ =~= overlay(src@, old(dst)@));
}

/// Builds a row of `width` pixels of `colors` channels in the front of
/// `outp`: the running sums of the deltas that start at `offset` in the
/// channel buffers, plus the row `upper` above it.
pub fn tlg5_compose(
    outp: &mut Vec<u8>,
    upper: &[u8],
    buf: &Vec<Vec<u8>>,
    offset: usize,
    width: u32,
    colors: u8,
)
    requires
        colors == 1 || colors == 3 || colors == 4,
        width as int * colors as int <= old(outp).len(),
        width as int * colors as int <= upper.len(),
        buf.len() >= colors,
        forall|c: int| 0 <= c < colors ==> offset + width <= (#[trigger] buf@[c]).len(),
    ensures
        final(outp).len() == old(outp).len(),
        final(outp)@.take(width as int * colors as int) == row_of(
            planes_view(buf),
            colors as int,
            offset as int,
            width as int,
            upper@,
        ),
        forall|i: int|
            width as int * colors as int <= i < old(outp).len() ==> final(outp)@[i] == old(
                outp,
            )@[i],
{
    let n = width as usize;
    let k = colors as usize;
    let ghost bufs = planes_view(buf);
    let ghost kk = colors as int;
    let ghost off = offset as int;
    let mut sums: Vec<u8> = vec![0u8, 0u8, 0u8, 0u8];
    let mut x: usize = 0;
    let mut base: usize = 0;
    while x < n
        invariant
            colors == 1 || colors == 3 || colors == 4,
            n == width,
            k == colors,
            kk == colors,
            off == offset,
            bufs == planes_view(buf),
            n * k <= outp.len(),
            n * k <= upper.len(),
            buf.len() >= colors,
            forall|c: int| 0 <= c < colors ==> offset + width <= (#[trigger] buf@[c]).len(),
            x <= n,
            base == x * k,
            outp.len() == old(outp).len(),
            sums.len() == 4,
            forall|c: int| 0 <= c < k ==> sums@[c] == running(bufs, kk, off, c, x - 1),
            forall|i: int|
                0 <= i < base ==> outp@[i] == running(bufs, kk, off, i % kk, i / kk).wrapping_add(
                    upper@[i],
                ),
            forall|i: int| n * k <= i < outp.len() ==> outp@[i] == old(outp)@[i],
        decreases n - x,
    {
        assert(base + k <= n * k) by (nonlinear_arith)
            requires
                base == x * k,
                x < n,
        ;
        let mut c: usize = 0;
        while c < k
            invariant
                colors == 1 || colors == 3 || colors == 4,
                k == colors,
                kk == colors,
                off == offset,
                bufs == planes_view(buf),
                n * k <= outp.len(),
                n * k <= upper.len(),
                buf.len() >= colors,
                forall|c: int| 0 <= c < colors ==> offset + width <= (#[trigger] buf@[c]).len(),
                n == width,
                x < n,
                base == x * k,
                base + k <= n * k,
                c <= k,
                outp.len() == old(outp).len(),
                sums.len() == 4,
                forall|d: int| 0 <= d < c ==> sums@[d] == running(bufs, kk, off, d, x as int),
                forall|d: int| c <= d < k ==> sums@[d] == running(bufs, kk, off, d, x - 1),
                forall|i: int|
                    0 <= i < base + c ==> outp@[i] == running(
                        bufs,
                        kk,
                        off,
                        i % kk,
                        i / kk,
                    ).wrapping_add(upper@[i]),
                forall|i: int| n * k <= i < outp.len() ==> outp@[i] == old(outp)@[i],
            decreases k - c,
        {
            assert(buf@[c as int].len() >= offset + width);
            let v = buf[c][offset + x];
            let d = if k >= 3 && (c == 0 || c == 2) {
                assert(buf@[1].len() >= offset + width);
                v.wrapping_add(buf[1][offset + x])
            } else {
                v
            };
            let s = sums[c].wrapping_add(d);
            sums[c] = s;
            let ghost prior = outp@;
            outp[base + c] = s.wrapping_add(upper[base + c]);
            proof {
                let i = (base + c) as int;
                assert(i % kk == c && i / kk == x) by {
                    if kk == 1 {
                        assert(i == x * 1 + c);
                    } else if kk == 3 {
                        assert(i == x * 3 + c);
                    } else {
                        assert(i == x * 4 + c);
                    }
                }
                assert(bufs[c as int] == buf@[c as int]@);
                if k >= 3 {
                    assert(bufs[1] == buf@[1]@);
                }
            }
            c += 1;
        }
        x += 1;
        base += k;
        assert(base == x * k) by (nonlinear_arith)
            requires
                base == (x - 1) * k + k,
        ;
    }
    proof {
        assert(base == n * k);
        let row = row_of(bufs, kk, off, width as int, upper@);
        assert(outp@.take(width as int * colors as int) =~= row);
    }
}

/// Builds a row of BGR pixels; see `tlg5_compose`.
pub fn tlg5_compose_colors3(
    outp: &mut Vec<u8>,
    upper: &[u8],
    buf: &Vec<Vec<u8>>,
    offset: usize,
    width: u32,
)
    requires
        width as int * 3 <= old(outp).len(),
        width as int * 3 <= upper.len(),
        buf.len() >= 3,
        forall|c: int| 0 <= c < 3 ==> offset + width <= (#[trigger] buf@[c]).len(),
    ensures
        final(outp).len() == old(outp).len(),
        final(outp)@.take(width as int * 3) == row_of(
            planes_view(buf),
            3,
            offset as int,
            width as int,
            upper@,
        ),
        forall|i: int| width as int * 3 <= i < old(outp).len() ==> final(outp)@[i] == old(outp)@[i],
{
    tlg5_compose(outp, upper, buf, offset, width, 3)
}

/// Builds a row of BGRA pixels; see `tlg5_compose`.
pub fn tlg5_compose_colors4(
    outp: &mut Vec<u8>,
    upper: &[u8],
    buf: &Vec<Vec<u8>>,
    offset: usize,
    width: u32,
)
    requires
        width as int * 4 <= old(outp).len(),
        width as int * 4 <= upper.len(),
        buf.len() >= 4,
        forall|c: int| 0 <= c < 4 ==> offset + width <= (#[trigger] buf@[c]).len(),
    ensures
        final(outp).len() == old(outp).len(),
        final(outp)@.take(width as int * 4) == row_of(
            planes_view(buf),
            4,
            offset as int,
            width as int,
            upper@,
        ),
        forall|i: int| width as int * 4 <= i < old(outp).len() ==> final(outp)@[i] == old(outp)@[i],
{
    tlg5_compose(outp, upper, buf, offset, width, 4)
}

/// Builds the leading-zero table: for each window of twelve bits the place
/// of its lowest set bit, counted from 1, or 0 for the empty window.
pub fn tlg6_init_leading_zero_table() -> (table: Vec<u8>)
    ensures
        table.len() == 4096,
        forall|i: int| 0 <= i < 4096 ==> #[trigger] table@[i] == lead(i as u32),
{
    let mut table: Vec<u8> = Vec::new();
    let mut i: u32 = 0;
    while i < 4096
        invariant
            i <= 4096,
            table.len() == i,
            forall|j: int| 0 <= j < i ==> #[trigger] table@[j] == lead(j as u32),
        decreases 4096 - i,
    {
        let mut cnt: u32 = 0;
        while cnt < 12 && (i >> cnt) & 1 != 1
            invariant
                cnt <= 12,
                lead(i) == lead_from(i, cnt),
            decreases 12 - cnt,
        {
            cnt += 1;
        }
        let v: u8 = if cnt >= 12 { 0 } else { (cnt + 1) as u8 };
        table.push(v);
        i += 1;
    }
    table
}

/// Number of running sums in context `n` that share the bit length `i`.
fn golomb_run(n: usize, i: usize) -> (r: u16)
    requires
        n < 4,
        i < 9,
    ensures
        r == golomb_runs()[n as int][i as int],
{
    let row: [u16; 9] = if n == 0 {
        [3, 7, 15, 27, 63, 108, 223, 448, 130]
    } else if n == 1 {
        [3, 5, 13, 24, 51, 95, 192, 384, 257]
    } else if n == 2 {
        [2, 5, 12, 21, 39, 86, 155, 320, 384]
    } else {
        [2, 3, 9, 18, 33, 61, 129, 258, 511]
    };
    row[i]
}

/// Builds the table of Golomb bit lengths: entry `a * 4 + n` is the bit
/// length for the running sum `a` in context `n`.
pub fn tlg6_init_golomb_table() -> (table: Vec<u8>)
    ensures
        table.len() == 4096,
        forall|a: int, n: int|
            0 <= a < 1024 && 0 <= n < 4 ==> #[trigger] table@[a * 4 + n] == golomb_k(a, n),
{
    let mut table: Vec<u8> = vec![0u8; 4096];
    let mut n: usize = 0;
    while n < 4
        invariant
            n <= 4,
            table.len() == 4096,
            forall|a: int, m: int|
                0 <= a < 1024 && 0 <= m < n ==> #[trigger] table@[a * 4 + m] == golomb_k(a, m),
        decreases 4 - n,
    {
        let mut a: usize = 0;
        let mut i: usize = 0;
        proof {
            lemma_run_total(n as int);
        }
        while i < 9
            invariant
                n < 4,
                i <= 9,
                a == run_start(n as int, i as int),
                a <= 1024,
                run_start(n as int, 9) == 1024,
                table.len() == 4096,
                forall|b: int, m: int|
                    0 <= b < 1024 && 0 <= m < n ==> #[trigger] table@[b * 4 + m] == golomb_k(b, m),
                forall|b: int| 0 <= b < a ==> #[trigger] table@[b * 4 + n] == golomb_k(b, n as int),
            decreases 9 - i,
        {
            let run = golomb_run(n, i);
            let end = a + run as usize;
            proof {
                lemma_runs(n as int, i as int);
                crate::tlg6::lemma_run_mono(n as int, i + 1, 9);
            }
            while a < end
                invariant
                    n < 4,
                    i < 9,
                    run_start(n as int, i as int) <= a <= end,
                    end == run_start(n as int, i + 1),
                    end <= 1024,
                    table.len() == 4096,
                    forall|b: int, m: int|
                        0 <= b < 1024 && 0 <= m < n ==> #[trigger] table@[b * 4 + m] == golomb_k(
                            b,
                            m,
                        ),
                    forall|b: int|
                        0 <= b < a ==> #[trigger] table@[b * 4 + n] == golomb_k(b, n as int),
                decreases end - a,
            {
                proof {
                    lemma_golomb_k(n as int, a as int, i as int, 0);
                }
                table[a * 4 + n] = i as u8;
                a += 1;
            }
            i += 1;
        }
        n += 1;
    }
    table
}

/// The tables of the Golomb-Rice decoder.
pub struct GolombTables {
    leading_zero: Vec<u8>,
    bit_length: Vec<u8>,
}

impl GolombTables {
    /// Both tables hold what they are defined to hold.
    #[verifier::type_invariant]
    pub closed spec fn filled(&self) -> bool {
        &&& self.leading_zero.len() == 4096
        &&& forall|i: int| 0 <= i < 4096 ==> #[trigger] self.leading_zero@[i] == lead(i as u32)
        &&& self.bit_length.len() == 4096
        &&& forall|a: int, n: int|
            0 <= a < 1024 && 0 <= n < 4 ==> #[trigger] self.bit_length@[a * 4 + n] == golomb_k(
                a,
                n,
            )
    }

    /// Builds both tables.
    pub fn new() -> (t: Self)
        ensures
            t.filled(),
    {
        GolombTables {
            leading_zero: tlg6_init_leading_zero_table(),
            bit_length: tlg6_init_golomb_table(),
        }
    }

    /// The place of the lowest set bit among the low twelve bits of `t`,
    /// counted from 1, or 0 where none is set.
    pub fn lead(&self, t: u32) -> (b: u8)
        ensures
            b == lead(t & 0xfff),
            b <= 12,
    {
        proof {
            use_type_invariant(self);
            lemma_lead_bound(t & 0xfff, 0);
        }
        let i = t & 0xfff;
        assert(i < 4096) by (bit_vector)
            requires
                i == t & 0xfff,
        ;
        self.leading_zero[i as usize]
    }

    /// The bit length of the Golomb code for the running sum `a` in context `n`.
    pub fn bit_length(&self, a: usize, n: usize) -> (k: u8)
        requires
            a < 1024,
            n < 4,
        ensures
            k == golomb_k(a as int, n as int),
            k <= 8,
    {
        proof {
            use_type_invariant(self);
            lemma_k_bound(n as int, a as int, 0, 0);
        }
        self.bit_length[a * 4 + n]
    }
}

/// An entry of the leading-zero table is at most 12.
pub proof fn lemma_lead_bound(i: u32, cnt: u32)
    ensures
        lead_from(i, cnt) <= 12,
    decreases 12 - cnt,
{
    if cnt < 12 && (i >> cnt) & 1 != 1 {
        lemma_lead_bound(i, (cnt + 1) as u32);
    }
}

/// A bit length is at most 8.
pub proof fn lemma_k_bound(n: int, a: int, i: int, start: int)
    requires
        0 <= i,
    ensures
        0 <= crate::tlg6::golomb_k_from(n, a, i, start) <= 8,
    decreases 9 - i,
{
    if i < 8 && !(a < start + golomb_runs()[n][i]) {
        lemma_k_bound(n, a, i + 1, start + golomb_runs()[n][i]);
    }
}

/// Reads the four bytes at `loc` as a little-endian value.
pub fn tlg6_fetch_32bits(data: &[u8], loc: usize) -> (res: Result<u32, TlgError>)
    ensures
        match fetch32(data@, loc as int) {
            Some(v) => res == Ok::<u32, TlgError>(v),
            None => res == Err::<u32, TlgError>(TlgError::IndexOutOfRange),
        },
{
    if data.len() < 4 || loc > data.len() - 4 {
        return Err(TlgError::IndexOutOfRange);
    }
    Ok(crate::stream::u32_from_le(data[loc], data[loc + 1], data[loc + 2], data[loc + 3]))
}

/// For each byte of `a` and `b`: 0xff where that of `a` is greater, 0 otherwise.
pub fn make_gt_mask(a: u32, b: u32) -> (r: u32)
    ensures
        r == gt_mask(a, b),
{
    let tmp2 = !b;
    let tmp = ((a & tmp2).wrapping_add(((a ^ tmp2) >> 1) & 0x7f7f7f7f)) & 0x80808080;
    ((tmp >> 7).wrapping_add(0x7f7f7f7f)) ^ 0x7f7f7f7f
}

/// The sums modulo 256 of the bytes of `a` and `b`.
pub fn packed_bytes_add(a: u32, b: u32) -> (r: u32)
    ensures
        r == bytes_add(a, b),
{
    let tmp = (((a & b) << 1).wrapping_add((a ^ b) & 0xfefefefe)) & 0x01010100;
    a.wrapping_add(b).wrapping_sub(tmp)
}

/// For each byte the median of `a`, `b` and `a + b - c`.
pub fn med2(a: u32, b: u32, c: u32) -> (r: u32)
    ensures
        r == med_of(a, b, c),
{
    let aa_gt_bb = make_gt_mask(a, b);
    let a_xor_b_and_aa_gt_bb = (a ^ b) & aa_gt_bb;
    let aa = a_xor_b_and_aa_gt_bb ^ a;
    let bb = a_xor_b_and_aa_gt_bb ^ b;
    let n = make_gt_mask(c, bb);
    let nn = make_gt_mask(aa, c);
    let m = !(n | nn);
    (n & aa) | (nn & bb) | (bb & m).wrapping_sub(c & m).wrapping_add(aa & m)
}

/// The median prediction from `a`, `b` and `c` plus the residual `v`, byte by byte.
pub fn med(a: u32, b: u32, c: u32, v: u32) -> (r: u32)
    ensures
        r == bytes_add(med_of(a, b, c), v),
{
    packed_bytes_add(med2(a, b, c), v)
}

/// For each byte the mean of `x` and `y`, rounded up.
pub fn avg_packed(x: u32, y: u32) -> (r: u32)
    ensures
        r == avg_of(x, y),
{
    ((x & y).wrapping_add(((x ^ y) & 0xfefefefe) >> 1)).wrapping_add((x ^ y) & 0x01010101)
}

/// The mean prediction from `a` and `b` plus the residual `v`, byte by byte.
pub fn avg(a: u32, b: u32, v: u32) -> (r: u32)
    ensures
        r == bytes_add(avg_of(a, b), v),
{
    packed_bytes_add(avg_packed(a, b), v)
}

/// A pixel from its four bytes.
pub fn cal_v(b: u8, g: u8, r: u8, a: u8) -> (v: u32)
    ensures
        v == pack_bgra(b, g, r, a),
{
    let x = 0xff0000u32 & ((r as u32) << 16);
    let y = 0xff00u32 & ((g as u32) << 8);
    let z = 0xffu32 & (b as u32);
    let w = (a as u32) << 24;
    assert(x as int + y as int + z as int + w as int <= 0xffff_ffff) by (bit_vector)
        requires
            x == 0xff0000u32 & ((r as u32) << 16),
            y == 0xff00u32 & ((g as u32) << 8),
            z == 0xffu32 & (b as u32),
            w == (a as u32) << 24,
    ;
    x + y + z + w
}

/// The bits of the pool from bit `p` on, as far as the four bytes hold
/// that start in its byte.
fn peek_bits(pool: &[u8], p: u128) -> (r: Option<u32>)
    ensures
        r == peek(pool@, p as int),
        r is Some ==> p / 8 + 4 <= pool.len(),
{
    let loc = p / 8;
    if loc > pool.len() as u128 {
        return None;
    }
    match tlg6_fetch_32bits(pool, loc as usize) {
        Ok(w) => Some(w >> ((p % 8) as u32)),
        Err(_) => None,
    }
}

/// Passes over empty windows of twelve bits from bit `p` on.
fn scan_unary(tables: &GolombTables, pool: &[u8], p: u128) -> (r: Option<(u128, u128, u32)>)
    requires
        p <= 0x1_0000_0000_0000_0000_0000,
    ensures
        match unary(pool@, p as int, 0) {
            None => r is None,
            Some((bits, q, t)) => r matches Some((rb, rq, rt)) && rb == bits && rq == q && rt == t
                && 1 <= bits <= 8 * pool.len() + 12 && p <= q < 8 * pool.len() && lead(t & 0xfff)
                != 0,
        },
{
    let mut q = p;
    let mut acc: u128 = 0;
    loop
        invariant
            p <= 0x1_0000_0000_0000_0000_0000,
            unary(pool@, p as int, 0) == unary(pool@, q as int, acc as int),
            q == p + acc,
            acc == 0 || q < 8 * pool.len() + 12,
        decreases
                if q < 8 * pool.len() {
                    8 * pool.len() - q
                } else {
                    0
                },
    {
        match peek_bits(pool, q) {
            None => {
                return None;
            },
            Some(t) => {
                let b = tables.lead(t);
                if b == 0 {
                    q += 12;
                    acc += 12;
                } else {
                    return Some((acc + b as u128, q, t));
                }
            },
        }
    }
}

/// Reads the length of a run at bit `p`.
fn read_run_count(tables: &GolombTables, pool: &[u8], p: u128) -> (r: Option<(u32, u128)>)
    requires
        p <= 0x1_0000_0000_0000_0000_0000,
    ensures
        match run_count(pool@, p as int) {
            None => r is None,
            Some((count, q)) => r matches Some((rc, rq)) && rc == count && rq == q && 1 <= count
                && q <= 8 * pool.len() + 64,
        },
{
    let (bits, q, t) = match scan_unary(tables, pool, p) {
        None => {
            return None;
        },
        Some(x) => x,
    };
    let z = bits - 1;
    let q2 = q + tables.lead(t) as u128;
    if z >= 32 {
        return None;
    }
    let t2 = match peek_bits(pool, q2) {
        None => {
            return None;
        },
        Some(x) => x,
    };
    let zz = z as u32;
    let base = 1u32 << zz;
    assert(base >= 1) by (bit_vector)
        requires
            base == 1u32 << zz,
            zz < 32,
    ;
    let low = t2 & (base - 1);
    assert(base as int + low as int <= u32::MAX) by (bit_vector)
        requires
            base == 1u32 << zz,
            zz < 32,
            low == t2 & ((base - 1) as u32),
    ;
    Some((base + low, q2 + z))
}

/// Two to the power of a bit length.
fn pow2_of(k: u8) -> (r: u128)
    requires
        k <= 8,
    ensures
        r == pow2k(k as int),
{
    let r = 1u128 << k;
    assert(r == pow2k(k as int)) by {
        assert(1u128 << 0u8 == 1 && 1u128 << 1u8 == 2 && 1u128 << 2u8 == 4 && 1u128 << 3u8 == 8
            && 1u128 << 4u8 == 16 && 1u128 << 5u8 == 32 && 1u128 << 6u8 == 64 && 1u128 << 7u8
            == 128 && 1u128 << 8u8 == 256) by (bit_vector);
    }
    r
}

/// Reads a Golomb code of `k` low bits at bit `p`.
fn read_golomb_code(tables: &GolombTables, pool: &[u8], p: u128, k: u8) -> (r: Option<
    (u128, u128),
>)
    requires
        p <= 0x1_0000_0000_0000_0000_0000,
        k <= 8,
    ensures
        match golomb_code(pool@, p as int, k as int) {
            None => r is None,
            Some((v, q)) => r matches Some((rv, rq)) && rv == v && rq == q && 0 <= v
                <= 0x1000_0000_0000_0000_0000 && q <= 8 * pool.len() + 64,
        },
{
    let t = match peek_bits(pool, p) {
        None => {
            return None;
        },
        Some(x) => x,
    };
    assert(1u32 << (k as u32) >= 1) by (bit_vector)
        requires
            k <= 8,
    ;
    let mask = (1u32 << (k as u32)) - 1;
    if t != 0 {
        let (bits, q, tq) = match scan_unary(tables, pool, p) {
            None => {
                return None;
            },
            Some(x) => x,
        };
        let b = tables.lead(tq);
        let low = (tq >> (b as u32)) & mask;
        assert(low <= 255) by (bit_vector)
            requires
                low == (tq >> (b as u32)) & mask,
                mask == ((1u32 << (k as u32)) - 1) as u32,
                k <= 8,
        ;
        assert((bits - 1) * pow2k(k as int) <= (bits - 1) * 256) by (nonlinear_arith)
            requires
                bits >= 1,
                0 <= pow2k(k as int) <= 256,
        ;
        let v = (bits - 1) * pow2_of(k) + low as u128;
        Some((v, q + b as u128 + k as u128))
    } else {
        let idx = p / 8 + 5;
        if idx > pool.len() as u128 {
            return None;
        }
        let i = idx as usize;
        let bc = pool[i - 1];
        let t2 = match tlg6_fetch_32bits(pool, i) {
            Ok(x) => x,
            Err(_) => {
                return None;
            },
        };
        let low = t2 & mask;
        assert(low <= 255) by (bit_vector)
            requires
                low == t2 & mask,
                mask == ((1u32 << (k as u32)) - 1) as u32,
                k <= 8,
        ;
        assert(bc as int * pow2k(k as int) <= 255 * 256) by (nonlinear_arith)
            requires
                0 <= bc <= 255,
                0 <= pow2k(k as int) <= 256,
        ;
        let v = bc as u128 * pow2_of(k) + low as u128;
        Some((v, 8 * idx + k as u128))
    }
}

/// The byte that a code stands for.
fn byte_of_code(v: u128) -> (b: u8)
    ensures
        b == code_byte(v as int),
{
    let half = v / 2;
    if v % 2 == 1 {
        ((half + 1) % 256) as u8
    } else {
        (255 - (half % 256)) as u8
    }
}

/// What a decoded byte makes of a pixel.
fn channel_put(px: u32, first: bool, c: u8, b: u8) -> (r: u32)
    requires
        first || c < 4,
    ensures
        r == put_channel(px, first, c as int, b),
{
    if first {
        b as u32
    } else if c == 0 {
        (px & 0xffff_ff00) | (b as u32)
    } else if c == 1 {
        (px & 0xffff_00ff) | ((b as u32) << 8)
    } else if c == 2 {
        (px & 0xff00_ffff) | ((b as u32) << 16)
    } else {
        (px & 0x00ff_ffff) | ((b as u32) << 24)
    }
}

/// Puts a run of `count` zero bytes into the pixels from `index` on.
fn fill_zero_run(pixelbuf: &mut Vec<u32>, first: bool, c: u8, index: usize, count: usize)
    requires
        first || c < 4,
        index + count <= old(pixelbuf).len(),
    ensures
        final(pixelbuf)@ == zero_run(old(pixelbuf)@, first, c as int, index as int, count as int),
{
    let mut i = index;
    let end = index + count;
    while i < end
        invariant
            first || c < 4,
            index <= i <= end,
            end == index + count,
            end <= pixelbuf.len(),
            pixelbuf.len() == old(pixelbuf).len(),
            forall|j: int|
                index <= j < i ==> pixelbuf@[j] == put_channel(
                    old(pixelbuf)@[j],
                    first,
                    c as int,
                    0,
                ),
            forall|j: int|
                0 <= j < index || i <= j < pixelbuf.len() ==> pixelbuf@[j] == old(pixelbuf)@[j],
        decreases end - i,
    {
        let px = pixelbuf[i];
        pixelbuf[i] = channel_put(px, first, c, 0);
        i += 1;
    }
    assert(pixelbuf@ =~= zero_run(old(pixelbuf)@, first, c as int, index as int, count as int));
}

/// The context of the Golomb codes.
struct Context {
    n: usize,
    a: u128,
}

impl Context {
    spec fn model(&self) -> Adapt {
        Adapt { n: self.n as int, a: self.a as int }
    }
}

/// Decodes a run of `count` codes into the pixels from `index` on.
/// Returns the bit behind the run, or nothing where the run ends early;
/// the pixels decoded before that stay.
fn decode_values_run(
    tables: &GolombTables,
    pixelbuf: &mut Vec<u32>,
    pool: &[u8],
    first: bool,
    c: u8,
    p: u128,
    ctx: &mut Context,
    index: usize,
    count: usize,
) -> (r: Option<u128>)
    requires
        first || c < 4,
        p <= 0x1_0000_0000_0000_0000_0000,
        old(ctx).n < 4,
        old(ctx).a <= 0x1000_0000_0000_0000_0000,
    ensures
        final(pixelbuf).len() == old(pixelbuf).len(),
        final(ctx).n < 4,
        final(ctx).a <= 0x1000_0000_0000_0000_0000,
        ({
            let end = values_run(
                old(pixelbuf)@,
                pool@,
                first,
                c as int,
                p as int,
                old(ctx).model(),
                index as int,
                count as int,
            );
            &&& final(pixelbuf)@ == end.buf
            &&& final(ctx).model() == end.ad
            &&& end.ok == (r is Some)
            &&& r matches Some(rq) ==> rq == end.p && (end.p <= 8 * pool.len() + 64 || end.p == p)
                && (count > 0 ==> index + count <= old(pixelbuf).len())
        }),
{
    let ghost goal = values_run(
        pixelbuf@,
        pool@,
        first,
        c as int,
        p as int,
        ctx.model(),
        index as int,
        count as int,
    );
    let mut q = p;
    let mut i = index;
    let mut left = count;
    while left > 0
        invariant
            first || c < 4,
            q <= 0x1_0000_0000_0000_0000_0000,
            q <= 8 * pool.len() + 64 || q == p,
            goal == values_run(
                old(pixelbuf)@,
                pool@,
                first,
                c as int,
                p as int,
                old(ctx).model(),
                index as int,
                count as int,
            ),
            ctx.n < 4,
            ctx.a <= 0x1000_0000_0000_0000_0000,
            i + left == index + count,
            left == count || i <= pixelbuf.len(),
            pixelbuf.len() == old(pixelbuf).len(),
            goal == values_run(
                pixelbuf@,
                pool@,
                first,
                c as int,
                q as int,
                ctx.model(),
                i as int,
                left as int,
            ),
        decreases left,
    {
        if ctx.a >= 1024 || i >= pixelbuf.len() {
            return None;
        }
        let k = tables.bit_length(ctx.a as usize, ctx.n);
        let (v, q2) = match read_golomb_code(tables, pool, q, k) {
            None => {
                return None;
            },
            Some(x) => x,
        };
        let px = pixelbuf[i];
        pixelbuf[i] = channel_put(px, first, c, byte_of_code(v));
        let sum = ctx.a + v / 2;
        if ctx.n == 0 {
            ctx.n = 3;
            ctx.a = sum / 2;
        } else {
            ctx.n = ctx.n - 1;
            ctx.a = sum;
        }
        q = q2;
        i += 1;
        left -= 1;
    }
    Some(q)
}

/// Decodes the bytes of channel `c` of `pixel_count` pixels from the bit
/// pool into the pixels of `pixelbuf`: as the whole pixel where `is_first`
/// is set, else as byte `c` of it. Runs of zeros and runs of Golomb codes
/// take turns. Fails where the pool or the buffer is too short: a run of
/// zeros that does not fit is not begun, and a run of codes is decoded as
/// far as the pool and the buffer go; what was decoded before stays.
pub fn tlg6_decode_golomb_values(
    tables: &GolombTables,
    pixelbuf: &mut Vec<u32>,
    pixel_count: usize,
    bit_pool: &[u8],
    is_first: bool,
    c: u8,
) -> (res: Result<(), TlgError>)
    requires
        is_first || c < 4,
    ensures
        final(pixelbuf)@ == golomb_decode(
            old(pixelbuf)@,
            pixel_count as int,
            bit_pool@,
            is_first,
            c as int,
        ).buf,
        final(pixelbuf).len() == old(pixelbuf).len(),
        if golomb_decode(old(pixelbuf)@, pixel_count as int, bit_pool@, is_first, c as int).ok {
            res is Ok
        } else {
            res == Err::<(), TlgError>(TlgError::IndexOutOfRange)
        },
{
    if bit_pool.len() == 0 {
        return Err(TlgError::IndexOutOfRange);
    }
    let ghost goal = golomb_decode(pixelbuf@, pixel_count as int, bit_pool@, is_first, c as int);
    let mut ctx = Context { n: 3, a: 0 };
    let mut p: u128 = 1;
    let mut zero = bit_pool[0] & 1 == 0;
    let mut index: usize = 0;
    while index < pixel_count
        invariant
            is_first || c < 4,
            p <= 0x1_0000_0000_0000_0000_0000,
            ctx.n < 4,
            ctx.a <= 0x1000_0000_0000_0000_0000,
            index <= pixelbuf.len(),
            pixelbuf.len() == old(pixelbuf).len(),
            goal == golomb_decode(
                old(pixelbuf)@,
                pixel_count as int,
                bit_pool@,
                is_first,
                c as int,
            ),
            goal == golomb_runs_from(
                pixelbuf@,
                bit_pool@,
                is_first,
                c as int,
                pixel_count as int,
                p as int,
                ctx.model(),
                zero,
                index as int,
            ),
        decreases pixelbuf.len() - index,
    {
        let (count, pn) = match read_run_count(tables, bit_pool, p) {
            None => {
                return Err(TlgError::IndexOutOfRange);
            },
            Some(x) => x,
        };
        let n = count as usize;
        if zero {
            if n > pixelbuf.len() - index {
                return Err(TlgError::IndexOutOfRange);
            }
            fill_zero_run(pixelbuf, is_first, c, index, n);
            p = pn;
        } else {
            p = match decode_values_run(
                tables,
                pixelbuf,
                bit_pool,
                is_first,
                c,
                pn,
                &mut ctx,
                index,
                n,
            ) {
                None => {
                    return Err(TlgError::IndexOutOfRange);
                },
                Some(x) => x,
            };
        }
        zero = !zero;
        index += n;
    }
    Ok(())
}

/// The residual of a pixel with blue, green and red recombined as the scheme says.
fn recombined(scheme: u8, ib: u8, ig: u8, ir: u8, ia: u8) -> (v: u32)
    requires
        scheme < 16,
    ensures
        v == recombine(scheme as int, ib, ig, ir, ia),
{
    let bg = ib.wrapping_add(ig);
    let br = ib.wrapping_add(ir);
    let gr = ig.wrapping_add(ir);
    let bgr = bg.wrapping_add(ir);
    let b2 = ib.wrapping_add(ib);
    if scheme == 0 {
        cal_v(ib, ig, ir, ia)
    } else if scheme == 1 {
        cal_v(bg, ig, gr, ia)
    } else if scheme == 2 {
        cal_v(ib, bg, bgr, ia)
    } else if scheme == 3 {
        cal_v(bgr, gr, ir, ia)
    } else if scheme == 4 {
        cal_v(br, bgr, bgr.wrapping_add(ir), ia)
    } else if scheme == 5 {
        cal_v(br, bgr, ir, ia)
    } else if scheme == 6 {
        cal_v(bg, ig, ir, ia)
    } else if scheme == 7 {
        cal_v(ib, bg, ir, ia)
    } else if scheme == 8 {
        cal_v(ib, ig, gr, ia)
    } else if scheme == 9 {
        cal_v(bgr.wrapping_add(ib), bgr, br, ia)
    } else if scheme == 10 {
        cal_v(br, gr, ir, ia)
    } else if scheme == 11 {
        cal_v(ib, bg, br, ia)
    } else if scheme == 12 {
        cal_v(ib, bgr, br, ia)
    } else if scheme == 13 {
        cal_v(bg, bgr.wrapping_add(ig), bgr, ia)
    } else if scheme == 14 {
        cal_v(bgr, gr, bgr.wrapping_add(ir), ia)
    } else {
        cal_v(ib, ig.wrapping_add(b2), ir.wrapping_add(b2), ia)
    }
}

/// A pixel from its residual and its three neighbours, under a filter below 32.
fn apply_filter(ft: u8, p: u32, u: u32, up: u32, inpt: u32) -> (px: u32)
    requires
        ft < 32,
    ensures
        px == filter_pixel(ft, p, u, up, inpt),
{
    let ia = ((inpt >> 24) & 0xff) as u8;
    let ir = ((inpt >> 16) & 0xff) as u8;
    let ig = ((inpt >> 8) & 0xff) as u8;
    let ib = (inpt & 0xff) as u8;
    let v = recombined(ft / 2, ib, ig, ir, ia);
    if ft % 2 == 0 {
        med(p, u, up, v)
    } else {
        avg(p, u, v)
    }
}

/// The error for a filter that does not exist.
fn filter_error(ft: u8) -> (e: TlgError)
    ensures
        e@ == Failure::Str(filter_message(ft)),
{
    let mut m = String::from_str("Unsupported filter type: ");
    crate::decimal::append_decimal(&mut m, ft as u128);
    TlgError::Str(m)
}

/// Whether a result is the end that a model gives: `Ok` for no failure,
/// else the error whose view is the failure.
pub open spec fn ends_as(res: Result<(), TlgError>, err: Option<Failure>) -> bool {
    match err {
        None => res is Ok,
        Some(f) => res matches Err(e) && e@ == f,
    }
}

/// Decodes the `w` pixels of block `i` from column `x0` on.
fn decode_pixels(
    prevline: &[u32],
    curline: &mut Vec<u32>,
    filter_types: &[u8],
    i: usize,
    inp: &[u32],
    dir: bool,
    x0: u128,
    w: usize,
    p: &mut u32,
    up: &mut u32,
    pos: &mut i128,
) -> (res: Result<(), TlgError>)
    requires
        1 <= w <= 8,
        x0 <= 0x1_0000_0000_0000_0000_0000,
        -0x1_0000_0000_0000_0000_0000_0000 <= *old(pos) <= 0x1_0000_0000_0000_0000_0000_0000,
    ensures
        final(curline).len() == old(curline).len(),
        ({
            let e = line_pixels(
                prevline@,
                filter_types@,
                i as int,
                inp@,
                if dir { 1 } else { -1 },
                x0 as int,
                w as int,
                LineState { cur: old(curline)@, p: *old(p), up: *old(up), pos: *old(pos) as int },
            );
            &&& ends_as(res, e.err)
            &&& final(curline)@ == e.st.cur
            &&& *final(p) == e.st.p
            &&& *final(up) == e.st.up
            &&& *final(pos) == e.st.pos
            &&& res is Ok ==> -1 <= e.st.pos <= inp.len()
        }),
{
    let ghost step: int = if dir { 1 } else { -1 };
    let ghost goal = line_pixels(
        prevline@,
        filter_types@,
        i as int,
        inp@,
        step,
        x0 as int,
        w as int,
        LineState { cur: curline@, p: *p, up: *up, pos: *pos as int },
    );
    let mut j: usize = 0;
    while j < w
        invariant
            j <= w <= 8,
            x0 <= 0x1_0000_0000_0000_0000_0000,
            step == if dir { 1int } else { -1int },
            curline.len() == old(curline).len(),
            -0x1_0000_0000_0000_0000_0000_0000 <= *pos <= 0x1_0000_0000_0000_0000_0000_0000,
            j > 0 ==> -1 <= *pos <= inp.len(),
            goal == line_pixels(
                prevline@,
                filter_types@,
                i as int,
                inp@,
                step,
                x0 as int,
                w as int,
                LineState {
                    cur: old(curline)@,
                    p: *old(p),
                    up: *old(up),
                    pos: *old(pos) as int,
                },
            ),
            goal == line_pixels(
                prevline@,
                filter_types@,
                i as int,
                inp@,
                step,
                x0 + j,
                w - j,
                LineState { cur: curline@, p: *p, up: *up, pos: *pos as int },
            ),
        decreases w - j,
    {
        let at = x0 + j as u128;
        if *pos < 0 || *pos >= inp.len() as i128 || at >= prevline.len() as u128 || i
            >= filter_types.len() {
            return Err(TlgError::IndexOutOfRange);
        }
        let ft = filter_types[i];
        if ft >= 32 {
            return Err(filter_error(ft));
        }
        if at >= curline.len() as u128 {
            return Err(TlgError::IndexOutOfRange);
        }
        let x = at as usize;
        let u = prevline[x];
        let px = apply_filter(ft, *p, u, *up, inp[*pos as usize]);
        curline[x] = px;
        *p = px;
        *up = u;
        *pos = if dir { *pos + 1 } else { *pos - 1 };
        j += 1;
    }
    Ok(())
}

/// Decodes the blocks from `start_block` up to `block_limit` of a row of
/// `width` pixels into `curline`, from the row `prevline` above it, the
/// filter types of the blocks and the residuals in `inp`. The residuals of
/// a block are read forward where `dir` is set and backward otherwise;
/// `skipblockbytes` lies between the residuals of two blocks, and `oddskip`
/// times the width of the block is added for blocks with an odd number.
/// Fails where a buffer is too short or a filter type is 32 or more; the
/// pixels decoded before that stay in `curline`.
pub fn tlg6_decode_line(
    prevline: &[u32],
    curline: &mut Vec<u32>,
    width: u32,
    start_block: usize,
    block_limit: usize,
    filter_types: &[u8],
    skipblockbytes: usize,
    inp: &[u32],
    inp_pos: usize,
    initialp: u32,
    oddskip: isize,
    dir: bool,
) -> (res: Result<(), TlgError>)
    ensures
        final(curline).len() == old(curline).len(),
        ({
            let l = decode_line(
                prevline@,
                old(curline)@,
                start_block as int,
                filter_types@,
                inp@,
                inp_pos as int,
                initialp,
                LinePass {
                    width: width as int,
                    block_limit: block_limit as int,
                    skip: skipblockbytes as int,
                    oddskip: oddskip as int,
                    dir,
                },
            );
            final(curline)@ == l.cur && ends_as(res, l.err)
        }),
{
    let ghost pass = LinePass {
        width: width as int,
        block_limit: block_limit as int,
        skip: skipblockbytes as int,
        oddskip: oddskip as int,
        dir,
    };
    let ghost goal = decode_line(
        prevline@,
        curline@,
        start_block as int,
        filter_types@,
        inp@,
        inp_pos as int,
        initialp,
        pass,
    );
    let mut p = initialp;
    let mut up = initialp;
    if start_block != 0 {
        let at = start_block as u128 * 8 - 1;
        if at >= curline.len() as u128 || at >= prevline.len() as u128 {
            return Err(TlgError::IndexOutOfRange);
        }
        p = curline[at as usize];
        up = prevline[at as usize];
    }
    if start_block >= block_limit {
        return Ok(());
    }
    assert(skipblockbytes as int * start_block as int <= 0xffff_ffff_ffff_ffff
        * 0xffff_ffff_ffff_ffff) by (nonlinear_arith)
        requires
            0 <= skipblockbytes <= 0xffff_ffff_ffff_ffff,
            0 <= start_block <= 0xffff_ffff_ffff_ffff,
    ;
    let far: u128 = skipblockbytes as u128 * start_block as u128;
    let have = inp.len();
    if far > 0x1_0000_0000_0000_0000_0000 {
        proof {
            lemma_line_far(
                prevline@,
                filter_types@,
                inp@,
                pass,
                start_block as int,
                LineState { cur: curline@, p, up, pos: inp_pos + far },
            );
        }
        return Err(TlgError::IndexOutOfRange);
    }
    let mut pos: i128 = inp_pos as i128 + far as i128;
    let mut i = start_block;
    while i < block_limit
        invariant
            start_block <= i,
            curline.len() == old(curline).len(),
            -0x4_0000_0000_0000_0000_0000 <= pos <= 0x4_0000_0000_0000_0000_0000,
            pass == (LinePass {
                width: width as int,
                block_limit: block_limit as int,
                skip: skipblockbytes as int,
                oddskip: oddskip as int,
                dir,
            }),
            goal == decode_line(
                prevline@,
                old(curline)@,
                start_block as int,
                filter_types@,
                inp@,
                inp_pos as int,
                initialp,
                pass,
            ),
            goal == line_blocks(
                prevline@,
                filter_types@,
                inp@,
                pass,
                i as int,
                LineState { cur: curline@, p, up, pos: pos as int },
            ),
        decreases block_limit - i,
    {
        let room: i128 = width as i128 - (i as i128) * 8;
        let w: i128 = if room < 8 { room } else { 8 };
        if w <= 0 {
            return Err(TlgError::IndexOutOfRange);
        }
        assert(-0x4_0000_0000_0000_0000 <= oddskip as i128 * w <= 0x4_0000_0000_0000_0000)
            by (nonlinear_arith)
            requires
                -0x8000_0000_0000_0000 <= oddskip <= 0x8000_0000_0000_0000,
                1 <= w <= 8,
        ;
        if !dir {
            pos = pos + (w - 1);
        }
        if i % 2 == 1 {
            pos = pos + oddskip as i128 * w;
        }
        match decode_pixels(
            prevline,
            curline,
            filter_types,
            i,
            inp,
            dir,
            i as u128 * 8,
            w as usize,
            &mut p,
            &mut up,
            &mut pos,
        ) {
            Ok(()) => {},
            Err(e) => {
                return Err(e);
            },
        }
        if dir && (skipblockbytes as i128) < w {
            return Err(TlgError::IndexOutOfRange);
        }
        if dir {
            pos = pos + (skipblockbytes as i128 - w);
        } else {
            pos = pos + (skipblockbytes as i128 + 1);
        }
        if i % 2 == 1 {
            pos = pos - oddskip as i128 * w;
        }
        i += 1;
    }
    Ok(())
}

} // verus!
