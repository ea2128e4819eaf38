//! The token stream of the sliding-window dictionary codec, as mathematics:
//! what a packed stream holds, and what replaying it does to a window.
use vstd::prelude::*;

verus! {

/// Size of the sliding window.
pub const SLIDE_N: usize = 4096;

/// Longest match that one token can express.
pub const SLIDE_M: usize = 273;

/// One item of a packed stream.
pub enum Token {
    /// A byte that stands for itself.
    Literal(u8),
    /// `len` bytes repeated from window offset `pos`.
    Match { pos: int, len: int },
}

impl Token {
    /// A match names a window offset and a length that two or three bytes can carry.
    pub open spec fn wf(self) -> bool {
        match self {
            Token::Literal(_) => true,
            Token::Match { pos, len } => 0 <= pos < 4096 && 3 <= len <= 273,
        }
    }

    /// Number of bytes that the token stands for.
    pub open spec fn span(self) -> int {
        match self {
            Token::Literal(_) => 1,
            Token::Match { pos, len } => len,
        }
    }

    /// The token's bytes in a packed stream, without its control bit.
    pub open spec fn bytes(self) -> Seq<u8> {
        match self {
            Token::Literal(c) => seq![c],
            Token::Match { pos, len } => if len >= 18 {
                seq![(pos % 256) as u8, (pos / 256 + 240) as u8, (len - 18) as u8]
            } else {
                seq![(pos % 256) as u8, (pos / 256 + 16 * (len - 3)) as u8]
            },
        }
    }
}

/// Bit `k` of a control byte: set for a match, clear for a literal.
pub open spec fn flag_bit(ctrl: u8, k: int) -> bool {
    ((ctrl as u32) >> (k as u32)) & 1 == 1
}

/// The token that starts at `p`, with the number of bytes it takes, or `None`
/// where the stream ends inside it.
pub open spec fn token_at(inp: Seq<u8>, p: int, is_match: bool) -> Option<(Token, int)> {
    if !is_match {
        if p < inp.len() {
            Some((Token::Literal(inp[p]), 1))
        } else {
            None
        }
    } else if p + 2 > inp.len() {
        None
    } else {
        let pos = inp[p] as int + 256 * (inp[p + 1] as int % 16);
        let code = inp[p + 1] as int / 16;
        if code == 15 {
            if p + 3 > inp.len() {
                None
            } else {
                Some((Token::Match { pos, len: 18 + inp[p + 2] as int }, 3))
            }
        } else {
            Some((Token::Match { pos, len: code + 3 }, 2))
        }
    }
}

/// `ts` in front of what `rest` holds, if it holds anything.
pub open spec fn prepend(ts: Seq<Token>, rest: Option<Seq<Token>>) -> Option<Seq<Token>> {
    match rest {
        Some(r) => Some(ts + r),
        None => None,
    }
}

/// The tokens of the stream from `pos` on. `used` counts the tokens already
/// taken under the control byte `ctrl`; at 8 the next byte is a new control
/// byte, and a token has to follow it. `None` where the stream ends inside a
/// token.
pub open spec fn parse_tokens(inp: Seq<u8>, pos: int, ctrl: u8, used: int) -> Option<Seq<Token>>
    decreases inp.len() - pos,
{
    if pos >= inp.len() || pos < 0 {
        Some(Seq::empty())
    } else {
        let c = if used >= 8 { inp[pos] } else { ctrl };
        let k = if used >= 8 { 0 } else { used };
        let p = if used >= 8 { pos + 1 } else { pos };
        match token_at(inp, p, flag_bit(c, k)) {
            None => None,
            Some((t, n)) => prepend(seq![t], parse_tokens(inp, p + n, c, k + 1)),
        }
    }
}

/// The tokens of a whole packed stream.
pub open spec fn parse_stream(inp: Seq<u8>) -> Option<Seq<Token>> {
    parse_tokens(inp, 0, 0, 8)
}

/// A window, the place of the next write in it, and the bytes produced so far.
pub struct Unpacked {
    pub window: Seq<u8>,
    pub cursor: int,
    pub out: Seq<u8>,
}

/// Window offsets wrap at the window's size.
pub open spec fn wrap(i: int) -> int {
    i % 4096
}

/// One byte leaves the decoder: it is written at the cursor and appended to the output.
pub open spec fn emit(u: Unpacked, c: u8) -> Unpacked {
    Unpacked {
        window: u.window.update(u.cursor, c),
        cursor: wrap(u.cursor + 1),
        out: u.out.push(c),
    }
}

/// `n` bytes are repeated from window offset `from`, one at a time, so that a
/// byte written by this copy can be read again by it.
pub open spec fn copy_run(u: Unpacked, from: int, n: int) -> Unpacked
    decreases n,
{
    if n <= 0 {
        u
    } else {
        copy_run(emit(u, u.window[from]), wrap(from + 1), n - 1)
    }
}

/// What one token does.
pub open spec fn apply_token(u: Unpacked, t: Token) -> Unpacked {
    match t {
        Token::Literal(c) => emit(u, c),
        Token::Match { pos, len } => copy_run(u, pos, len),
    }
}

/// What a sequence of tokens does, first to last.
pub open spec fn apply_tokens(u: Unpacked, ts: Seq<Token>) -> Unpacked
    decreases ts.len(),
{
    if ts.len() == 0 {
        u
    } else {
        apply_token(apply_tokens(u, ts.drop_last()), ts.last())
    }
}

/// Number of bytes that a sequence of tokens stands for.
pub open spec fn total_span(ts: Seq<Token>) -> int
    decreases ts.len(),
{
    if ts.len() == 0 {
        0
    } else {
        total_span(ts.drop_last()) + ts.last().span()
    }
}

/// Unpacking a stream into a window: `None` where the stream ends inside a token.
pub open spec fn lzss_unpack(inp: Seq<u8>, window: Seq<u8>, cursor: int) -> Option<Unpacked> {
    match parse_stream(inp) {
        None => None,
        Some(ts) => Some(apply_tokens(Unpacked { window, cursor, out: Seq::empty() }, ts)),
    }
}

/// Unpacks the stream from `pos` on into a window and an output that holds
/// `cap` bytes at most, token by token. With what is unpacked comes whether
/// the stream was unpacked to its end: it is not where it ends inside a
/// token or a token stands for more bytes than the output still holds; the
/// tokens before that one are unpacked then.
pub open spec fn unpack_from(
    inp: Seq<u8>,
    pos: int,
    ctrl: u8,
    used: int,
    u: Unpacked,
    cap: int,
) -> (Unpacked, bool)
    decreases inp.len() - pos,
{
    if pos >= inp.len() || pos < 0 {
        (u, true)
    } else {
        let c = if used >= 8 { inp[pos] } else { ctrl };
        let k = if used >= 8 { 0 } else { used };
        let p = if used >= 8 { pos + 1 } else { pos };
        match token_at(inp, p, flag_bit(c, k)) {
            None => (u, false),
            Some((t, n)) => if u.out.len() + t.span() > cap || n < 1 {
                (u, false)
            } else {
                unpack_from(inp, p + n, c, k + 1, apply_token(u, t), cap)
            },
        }
    }
}

/// What unpacking a stream into a window and an output of `cap` bytes
/// leaves, and whether the stream was unpacked to its end.
pub open spec fn lzss_unpack_into(inp: Seq<u8>, window: Seq<u8>, cursor: int, cap: int) -> (
    Unpacked,
    bool,
) {
    unpack_from(inp, 0, 0, 8, Unpacked { window, cursor, out: Seq::empty() }, cap)
}

/// The control byte of a group of at most eight tokens: bit `i` is set where
/// token `i` is a match.
pub open spec fn group_ctrl(g: Seq<Token>) -> u8
    decreases g.len(),
{
    if g.len() == 0 {
        0
    } else {
        let low = group_ctrl(g.drop_last());
        if g.last() is Match {
            low | (1u8 << ((g.len() - 1) as u8))
        } else {
            low
        }
    }
}

/// The bytes of the tokens of a group, in order.
pub open spec fn group_body(g: Seq<Token>) -> Seq<u8>
    decreases g.len(),
{
    if g.len() == 0 {
        Seq::empty()
    } else {
        group_body(g.drop_last()) + g.last().bytes()
    }
}

/// A packed stream: the tokens in groups of eight, the last group possibly
/// shorter, each behind its control byte.
pub open spec fn pack_tokens(ts: Seq<Token>) -> Seq<u8>
    decreases ts.len(),
{
    if ts.len() == 0 {
        Seq::empty()
    } else {
        let n = if ts.len() < 8 { ts.len() as int } else { 8 };
        seq![group_ctrl(ts.take(n))] + group_body(ts.take(n)) + pack_tokens(ts.skip(n))
    }
}

/// Every token of the sequence is well formed.
pub open spec fn tokens_wf(ts: Seq<Token>) -> bool {
    forall|i: int| 0 <= i < ts.len() ==> (#[trigger] ts[i]).wf()
}

/// What one more token does behind others.
pub proof fn lemma_apply_tokens_push(u: Unpacked, ts: Seq<Token>, t: Token)
    ensures
        apply_tokens(u, ts.push(t)) == apply_token(apply_tokens(u, ts), t),
        total_span(ts.push(t)) == total_span(ts) + t.span(),
{
    assert(ts.push(t).drop_last() =~= ts);
}

/// A copy keeps the size of the window, moves the cursor by its length and
/// appends as many bytes.
pub proof fn lemma_copy_run_shape(u: Unpacked, from: int, n: int)
    requires
        u.window.len() == 4096,
        0 <= u.cursor < 4096,
        0 <= from < 4096,
    ensures
        copy_run(u, from, n).window.len() == 4096,
        0 <= copy_run(u, from, n).cursor < 4096,
        copy_run(u, from, n).cursor == wrap(u.cursor + if n > 0 { n } else { 0 }),
        copy_run(u, from, n).out.len() == u.out.len() + if n > 0 { n } else { 0 },
        copy_run(u, from, n).out.take(u.out.len() as int) == u.out,
    decreases n,
{
    if n > 0 {
        let v = emit(u, u.window[from]);
        lemma_copy_run_shape(v, wrap(from + 1), n - 1);
        let w = copy_run(v, wrap(from + 1), n - 1);
        assert(w.out.take(u.out.len() as int) =~= w.out.take(v.out.len() as int).take(
            u.out.len() as int,
        ));
        assert(v.out.take(u.out.len() as int) =~= u.out);
    } else {
        assert(u.out.take(u.out.len() as int) =~= u.out);
    }
}

/// A token keeps the size of the window, moves the cursor by its span and
/// appends as many bytes.
pub proof fn lemma_apply_token_shape(u: Unpacked, t: Token)
    requires
        u.window.len() == 4096,
        0 <= u.cursor < 4096,
        t.wf(),
    ensures
        apply_token(u, t).window.len() == 4096,
        0 <= apply_token(u, t).cursor < 4096,
        apply_token(u, t).cursor == wrap(u.cursor + t.span()),
        apply_token(u, t).out.len() == u.out.len() + t.span(),
        apply_token(u, t).out.take(u.out.len() as int) == u.out,
{
    match t {
        Token::Literal(c) => {
            assert(emit(u, c).out.take(u.out.len() as int) =~= u.out);
        },
        Token::Match { pos, len } => {
            lemma_copy_run_shape(u, pos, len);
        },
    }
}

/// Tokens keep the size of the window and append as many bytes as they stand for.
pub proof fn lemma_apply_tokens_shape(u: Unpacked, ts: Seq<Token>)
    requires
        u.window.len() == 4096,
        0 <= u.cursor < 4096,
        tokens_wf(ts),
    ensures
        apply_tokens(u, ts).window.len() == 4096,
        0 <= apply_tokens(u, ts).cursor < 4096,
        apply_tokens(u, ts).out.len() == u.out.len() + total_span(ts),
        total_span(ts) >= 0,
        apply_tokens(u, ts).out.take(u.out.len() as int) == u.out,
    decreases ts.len(),
{
    if ts.len() > 0 {
        lemma_apply_tokens_shape(u, ts.drop_last());
        let v = apply_tokens(u, ts.drop_last());
        lemma_apply_token_shape(v, ts.last());
        let w = apply_token(v, ts.last());
        assert(w.out.take(u.out.len() as int) =~= w.out.take(v.out.len() as int).take(
            u.out.len() as int,
        ));
    } else {
        assert(u.out.take(u.out.len() as int) =~= u.out);
    }
}

/// The tokens of a prefix stand for no more bytes than the whole sequence.
pub proof fn lemma_total_span_prefix(a: Seq<Token>, b: Seq<Token>)
    requires
        tokens_wf(a),
        tokens_wf(b),
    ensures
        total_span(a + b) == total_span(a) + total_span(b),
        total_span(b) >= 0,
    decreases b.len(),
{
    if b.len() == 0 {
        assert(a + b =~= a);
    } else {
        lemma_total_span_prefix(a, b.drop_last());
        assert((a + b).drop_last() =~= a + b.drop_last());
        assert((a + b).last() == b.last());
    }
}

/// A token read from a stream is well formed.
pub proof fn lemma_token_at_wf(inp: Seq<u8>, p: int, is_match: bool)
    requires
        0 <= p,
    ensures
        token_at(inp, p, is_match) matches Some((t, n)) ==> t.wf() && 1 <= n <= 3 && p + n
            <= inp.len(),
{
}

/// Every token parsed from a stream is well formed.
pub proof fn lemma_parse_tokens_wf(inp: Seq<u8>, pos: int, ctrl: u8, used: int)
    ensures
        parse_tokens(inp, pos, ctrl, used) matches Some(ts) ==> tokens_wf(ts),
    decreases inp.len() - pos,
{
    if pos >= inp.len() || pos < 0 {
    } else {
        let c = if used >= 8 { inp[pos] } else { ctrl };
        let k = if used >= 8 { 0 } else { used };
        let p = if used >= 8 { pos + 1 } else { pos };
        lemma_token_at_wf(inp, p, flag_bit(c, k));
        match token_at(inp, p, flag_bit(c, k)) {
            None => {},
            Some((t, n)) => {
                lemma_parse_tokens_wf(inp, p + n, c, k + 1);
            },
        }
    }
}

/// Reduces an offset to the window.
pub fn mask_offset(i: usize) -> (j: usize)
    ensures
        j == wrap(i as int),
        j < 4096,
{
    let j = i & 4095;
    assert(j == i % 4096) by (bit_vector)
        requires
            j == i & 4095,
    ;
    j
}

/// A full or last group behind whole groups is packed behind them.
pub proof fn lemma_pack_group(flushed: Seq<Token>, pending: Seq<Token>)
    requires
        flushed.len() % 8 == 0,
        0 < pending.len() <= 8,
    ensures
        pack_tokens(flushed + pending) == pack_tokens(flushed) + (seq![group_ctrl(pending)]
            + group_body(pending)),
    decreases flushed.len(),
{
    let all = flushed + pending;
    if flushed.len() == 0 {
        assert(all =~= pending);
        let n = pending.len() as int;
        assert(pending.take(n) =~= pending);
        assert(pending.skip(n) =~= Seq::<Token>::empty());
        assert(pack_tokens(pending.skip(n)) =~= Seq::<u8>::empty());
        assert(pack_tokens(pending) =~= seq![group_ctrl(pending)] + group_body(pending));
        assert(pack_tokens(flushed) =~= Seq::<u8>::empty());
        assert(pack_tokens(flushed) + (seq![group_ctrl(pending)] + group_body(pending)) =~= seq![
            group_ctrl(pending),
        ] + group_body(pending));
    } else {
        assert(all.take(8) =~= flushed.take(8));
        assert(all.skip(8) =~= flushed.skip(8) + pending);
        lemma_pack_group(flushed.skip(8), pending);
        assert(pack_tokens(all) =~= pack_tokens(flushed) + (seq![group_ctrl(pending)] + group_body(
            pending,
        )));
    }
}

/// A token joins a group: its control bit and its bytes.
pub proof fn lemma_group_push(g: Seq<Token>, t: Token)
    ensures
        group_body(g.push(t)) == group_body(g) + t.bytes(),
        group_ctrl(g.push(t)) == if t is Match {
            group_ctrl(g) | (1u8 << (g.len() as u8))
        } else {
            group_ctrl(g)
        },
{
    assert(g.push(t).drop_last() =~= g);
}

/// What the first token followed by more tokens does.
pub proof fn lemma_apply_tokens_front(u: Unpacked, t: Token, rest: Seq<Token>)
    ensures
        apply_tokens(u, seq![t] + rest) == apply_tokens(apply_token(u, t), rest),
    decreases rest.len(),
{
    let all = seq![t] + rest;
    if rest.len() == 0 {
        assert(all.drop_last() =~= Seq::<Token>::empty());
        assert(apply_tokens(u, all.drop_last()) == u);
    } else {
        assert(all.drop_last() =~= seq![t] + rest.drop_last());
        lemma_apply_tokens_front(u, t, rest.drop_last());
    }
}

/// Number of bytes that the first `k` tokens of a group take in its body.
pub open spec fn group_offset(g: Seq<Token>, k: int) -> int {
    group_body(g.take(k)).len() as int
}

/// A well-formed token takes one to three bytes.
pub proof fn lemma_token_bytes(t: Token)
    requires
        t.wf(),
    ensures
        1 <= t.bytes().len() <= 3,
{
}

/// Where the bytes of token `k` lie in the body of its group.
pub proof fn lemma_group_body_at(g: Seq<Token>, k: int)
    requires
        0 <= k < g.len(),
        tokens_wf(g),
    ensures
        group_offset(g, k + 1) == group_offset(g, k) + g[k].bytes().len(),
        group_offset(g, k + 1) <= group_body(g).len(),
        forall|j: int|
            0 <= j < g[k].bytes().len() ==> group_body(g)[group_offset(g, k) + j]
                == #[trigger] g[k].bytes()[j],
    decreases g.len(),
{
    let d = g.drop_last();
    assert(g.take(k + 1).drop_last() =~= g.take(k));
    assert(g.take(k + 1).last() == g[k]);
    if k == g.len() - 1 {
        assert(g.take(k + 1) =~= g);
        assert(g.take(k) =~= d);
    } else {
        assert(tokens_wf(d)) by {
            assert forall|i: int| 0 <= i < d.len() implies (#[trigger] d[i]).wf() by {
                assert(d[i] == g[i]);
            }
        }
        lemma_group_body_at(d, k);
        assert(d.take(k) =~= g.take(k));
        assert(d.take(k + 1) =~= g.take(k + 1));
    }
}

proof fn lemma_bit_low(low: u8, m: u8, k: u8)
    by (bit_vector)
    requires
        k < m < 8,
    ensures
        (((low | (1u8 << m)) as u32) >> (k as u32)) & 1 == ((low as u32) >> (k as u32)) & 1,
{
}

proof fn lemma_bit_top(low: u8, m: u8)
    by (bit_vector)
    requires
        m < 8,
        (low as u32) < (1u32 << (m as u32)),
    ensures
        (((low | (1u8 << m)) as u32) >> (m as u32)) & 1 == 1,
        ((low as u32) >> (m as u32)) & 1 == 0,
        ((low | (1u8 << m)) as u32) < (1u32 << ((m + 1) as u32)),
        (low as u32) < (1u32 << ((m + 1) as u32)),
{
}

/// Bit `k` of a group's control byte says whether token `k` is a match.
pub proof fn lemma_group_ctrl_bit(g: Seq<Token>, k: int)
    requires
        g.len() <= 8,
        0 <= k < g.len(),
    ensures
        flag_bit(group_ctrl(g), k) == (g[k] is Match),
        (group_ctrl(g) as u32) < (1u32 << (g.len() as u32)),
    decreases g.len(),
{
    let d = g.drop_last();
    let low = group_ctrl(d);
    let m = (g.len() - 1) as u8;
    if d.len() > 0 {
        lemma_group_ctrl_bit(d, if k < d.len() { k } else { 0 });
    } else {
        assert((0u8 as u32) < (1u32 << 0u32)) by (bit_vector);
    }
    assert((low as u32) < (1u32 << (m as u32)));
    lemma_bit_top(low, m);
    if k < d.len() {
        assert(d[k] == g[k]);
        lemma_bit_low(low, m, k as u8);
    }
}

/// A well-formed token is read back from its bytes.
pub proof fn lemma_token_at_bytes(inp: Seq<u8>, p: int, t: Token)
    requires
        t.wf(),
        0 <= p,
        p + t.bytes().len() <= inp.len(),
        forall|j: int| 0 <= j < t.bytes().len() ==> inp[p + j] == #[trigger] t.bytes()[j],
    ensures
        token_at(inp, p, t is Match) == Some((t, t.bytes().len() as int)),
{
    match t {
        Token::Literal(c) => {
            assert(inp[p + 0] == t.bytes()[0]);
        },
        Token::Match { pos, len } => {
            assert(inp[p + 0] == t.bytes()[0]);
            assert(inp[p + 1] == t.bytes()[1]);
            if len >= 18 {
                assert(inp[p + 2] == t.bytes()[2]);
            }
        },
    }
}

/// The tokens of a group from token `k` on are read back from the group's body.
proof fn lemma_parse_group(inp: Seq<u8>, base: int, g: Seq<Token>, k: int)
    requires
        1 <= g.len() <= 8,
        tokens_wf(g),
        1 <= k <= g.len(),
        0 <= base,
        base + 1 + group_body(g).len() <= inp.len(),
        forall|j: int|
            0 <= j < group_body(g).len() ==> inp[base + 1 + j] == #[trigger] group_body(g)[j],
    ensures
        parse_tokens(inp, base + 1 + group_offset(g, k), group_ctrl(g), k) == prepend(
            g.skip(k),
            parse_tokens(inp, base + 1 + group_body(g).len(), group_ctrl(g), g.len() as int),
        ),
    decreases g.len() - k,
{
    let c = group_ctrl(g);
    let tail = parse_tokens(inp, base + 1 + group_body(g).len(), c, g.len() as int);
    if k == g.len() {
        assert(g.take(k) =~= g);
        assert(g.skip(k) =~= Seq::<Token>::empty());
        match tail {
            Some(r) => assert(g.skip(k) + r =~= r),
            None => {},
        }
    } else {
        let t = g[k];
        let pos = base + 1 + group_offset(g, k);
        lemma_group_body_at(g, k);
        lemma_group_ctrl_bit(g, k);
        lemma_token_bytes(t);
        assert forall|j: int| 0 <= j < t.bytes().len() implies inp[pos + j]
            == #[trigger] t.bytes()[j] by {
            let at = group_offset(g, k) + j;
            assert(inp[base + 1 + at] == group_body(g)[at]);
        }
        lemma_token_at_bytes(inp, pos, t);
        lemma_parse_group(inp, base, g, k + 1);
        let next = parse_tokens(inp, pos + t.bytes().len(), c, k + 1);
        assert(parse_tokens(inp, pos, c, k) == prepend(seq![t], next));
        match tail {
            Some(r) => assert(seq![t] + (g.skip(k + 1) + r) =~= g.skip(k) + r),
            None => {},
        }
    }
}

/// Well-formed tokens are read back from their packed stream.
pub proof fn lemma_parse_packed(inp: Seq<u8>, base: int, ctrl: u8, ts: Seq<Token>)
    requires
        tokens_wf(ts),
        0 <= base <= inp.len(),
        inp.skip(base) == pack_tokens(ts),
    ensures
        parse_tokens(inp, base, ctrl, 8) == Some(ts),
    decreases ts.len(),
{
    if ts.len() == 0 {
        assert(inp.skip(base).len() == 0);
    } else {
        let n = if ts.len() < 8 { ts.len() as int } else { 8 };
        let g = ts.take(n);
        let rest = ts.skip(n);
        let packed = pack_tokens(ts);
        assert(packed == seq![group_ctrl(g)] + group_body(g) + pack_tokens(rest));
        assert(inp.skip(base).len() == packed.len());
        assert(inp[base] == inp.skip(base)[0]);
        assert(inp[base] == group_ctrl(g));
        assert forall|j: int| 0 <= j < group_body(g).len() implies inp[base + 1 + j]
            == #[trigger] group_body(g)[j] by {
            assert(inp[base + 1 + j] == inp.skip(base)[1 + j]);
        }
        let c = group_ctrl(g);
        let t = g[0];
        lemma_group_body_at(g, 0);
        lemma_group_ctrl_bit(g, 0);
        lemma_token_bytes(t);
        assert(g.take(0) =~= Seq::<Token>::empty());
        assert(group_offset(g, 0) == 0);
        assert forall|j: int| 0 <= j < t.bytes().len() implies inp[base + 1 + j]
            == #[trigger] t.bytes()[j] by {
            assert(inp[base + 1 + j] == group_body(g)[group_offset(g, 0) + j]);
        }
        lemma_token_at_bytes(inp, base + 1, t);
        lemma_parse_group(inp, base, g, 1);
        let behind = base + 1 + group_body(g).len();
        let tail = parse_tokens(inp, behind, c, n);
        assert(inp.skip(behind) =~= inp.skip(base).skip(behind - base));
        assert(packed.skip(behind - base) =~= pack_tokens(rest));
        assert(inp.skip(behind) =~= pack_tokens(rest));
        if n == 8 {
            lemma_parse_packed(inp, behind, c, rest);
        } else {
            assert(rest =~= Seq::<Token>::empty());
            assert(pack_tokens(rest) =~= Seq::<u8>::empty());
            assert(behind == inp.len());
        }
        assert(tail == Some(rest));
        assert(parse_tokens(inp, base, ctrl, 8) == prepend(
            seq![t],
            parse_tokens(inp, base + 1 + t.bytes().len(), c, 1),
        ));
        assert(seq![t] + (g.skip(1) + rest) =~= ts);
    }
}

} // verus!
