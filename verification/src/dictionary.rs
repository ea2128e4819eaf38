//! The compressor's dictionary as mathematics: the window with its mirrored
//! head, and for every two-byte key the window positions that start with it,
//! newest first.
use crate::lzss::{
    apply_tokens, copy_run, emit, lemma_apply_tokens_front, lemma_parse_packed, lzss_unpack,
    pack_tokens, tokens_wf, wrap, Token, Unpacked,
};
use vstd::prelude::*;

verus! {

/// Number of two-byte keys.
pub const MAP_SIZE: usize = 65536;

/// Length of the window with its mirrored head.
pub const TEXT_SIZE: usize = 4369;

/// `l` without the position `p`.
pub open spec fn without(l: Seq<int>, p: int) -> Seq<int> {
    l.remove(l.index_of(p))
}

/// The dictionary of the compressor.
pub struct SlideState {
    /// The window, followed by a copy of its first 272 bytes.
    pub text: Seq<u8>,
    /// Where the next byte is written.
    pub s: int,
    /// For each key the positions filed under it, newest first.
    pub lists: Seq<Seq<int>>,
}

impl SlideState {
    /// The key of position `p`: the byte there and the byte after it in the window.
    pub open spec fn key(self, p: int) -> int {
        self.text[p] as int + 256 * (self.text[wrap(p + 1)] as int)
    }

    /// The window itself, without the mirrored head.
    pub open spec fn window(self) -> Seq<u8> {
        self.text.take(4096)
    }

    /// Well-formedness while the positions in `out` are taken out of the lists:
    /// every other position is filed exactly once, under its key.
    pub open spec fn wf_except(self, out: Set<int>) -> bool {
        &&& self.text.len() == 4369
        &&& 0 <= self.s < 4096
        &&& self.lists.len() == 65536
        &&& forall|i: int| 0 <= i < 272 ==> self.text[4096 + i] == #[trigger] self.text[i]
        &&& forall|h: int, i: int|
            0 <= h < 65536 && 0 <= i < self.lists[h].len() ==> {
                let p = #[trigger] self.lists[h][i];
                0 <= p < 4096 && self.key(p) == h && !out.contains(p)
            }
        &&& forall|h: int| 0 <= h < 65536 ==> (#[trigger] self.lists[h]).no_duplicates()
        &&& forall|p: int|
            0 <= p < 4096 && !out.contains(p) ==> (#[trigger] self.lists[self.key(p)]).contains(p)
    }

    /// Every window position is filed exactly once, under its key.
    pub open spec fn wf(self) -> bool {
        self.wf_except(Set::empty())
    }

    /// Position `p` leaves the list of its key.
    pub open spec fn unlink(self, p: int) -> SlideState {
        let h = self.key(p);
        SlideState { lists: self.lists.update(h, without(self.lists[h], p)), ..self }
    }

    /// Position `p` enters the list of its key, in front.
    pub open spec fn link(self, p: int) -> SlideState {
        let h = self.key(p);
        SlideState { lists: self.lists.update(h, seq![p] + self.lists[h]), ..self }
    }

    /// The byte `c` is written at the cursor, and in the mirrored head where
    /// the cursor is among the first 272 positions.
    pub open spec fn write(self, c: u8) -> SlideState {
        let t = if self.s < 272 {
            self.text.update(self.s + 4096, c)
        } else {
            self.text
        };
        SlideState { text: t.update(self.s, c), ..self }
    }

    /// The byte `c` enters the dictionary: the two positions whose keys it
    /// changes are taken out, the byte is written, they are filed again, and
    /// the cursor moves on.
    pub open spec fn put(self, c: u8) -> SlideState {
        let sp = wrap(self.s + 4095);
        let a = self.unlink(sp).unlink(self.s).write(c).link(sp).link(self.s);
        SlideState { s: wrap(self.s + 1), ..a }
    }

    /// The bytes enter the dictionary one after the other.
    pub open spec fn feed(self, bytes: Seq<u8>) -> SlideState
        decreases bytes.len(),
    {
        if bytes.len() == 0 {
            self
        } else {
            self.feed(bytes.drop_last()).put(bytes.last())
        }
    }

    /// The dictionary of a new compressor: a window of zeros, all positions
    /// under key 0 in rising order.
    pub open spec fn initial() -> SlideState {
        SlideState {
            text: Seq::new(4369, |i: int| 0u8),
            s: 0,
            lists: Seq::new(
                65536,
                |h: int|
                    if h == 0 {
                        Seq::new(4096, |i: int| i)
                    } else {
                        Seq::empty()
                    },
            ),
        }
    }
}

/// What is left of a list without one of its positions.
pub proof fn lemma_without(l: Seq<int>, p: int)
    requires
        l.contains(p),
        l.no_duplicates(),
    ensures
        ({
            let i = l.index_of(p);
            let m = without(l, p);
            &&& 0 <= i < l.len()
            &&& l[i] == p
            &&& m.len() == l.len() - 1
            &&& forall|j: int| 0 <= j < i ==> #[trigger] m[j] == l[j]
            &&& forall|j: int| i <= j < m.len() ==> #[trigger] m[j] == l[j + 1]
            &&& m.no_duplicates()
            &&& !m.contains(p)
            &&& forall|q: int| q != p && l.contains(q) ==> #[trigger] m.contains(q)
        }),
{
    let i = l.index_of(p);
    let m = without(l, p);
    assert forall|q: int| q != p && l.contains(q) implies #[trigger] m.contains(q) by {
        let j = l.index_of(q);
        if j < i {
            assert(m[j] == q);
        } else {
            assert(m[j - 1] == q);
        }
    }
}

/// Taking a filed position out of its list keeps the dictionary well formed.
pub proof fn lemma_unlink_wf(st: SlideState, out: Set<int>, p: int)
    requires
        st.wf_except(out),
        0 <= p < 4096,
        !out.contains(p),
    ensures
        st.unlink(p).wf_except(out.insert(p)),
{
    let h = st.key(p);
    let l = st.lists[h];
    let n = st.unlink(p);
    assert(st.lists[st.key(p)].contains(p));
    lemma_without(l, p);
    let i = l.index_of(p);
    assert forall|g: int, j: int| 0 <= g < 65536 && 0 <= j < n.lists[g].len() implies {
        let q = #[trigger] n.lists[g][j];
        0 <= q < 4096 && n.key(q) == g && !out.insert(p).contains(q)
    } by {
        if g == h {
            if j < i {
                assert(n.lists[g][j] == st.lists[g][j]);
            } else {
                assert(n.lists[g][j] == st.lists[g][j + 1]);
            }
        } else {
            assert(n.lists[g][j] == st.lists[g][j]);
        }
    }
    assert forall|g: int| 0 <= g < 65536 implies (#[trigger] n.lists[g]).no_duplicates() by {
        if g != h {
            assert(n.lists[g] == st.lists[g]);
        }
    }
    assert forall|q: int| 0 <= q < 4096 && !out.insert(p).contains(q) implies (
    #[trigger] n.lists[n.key(q)]).contains(q) by {
        assert(st.lists[st.key(q)].contains(q));
        if st.key(q) != h {
            assert(n.lists[n.key(q)] == st.lists[st.key(q)]);
        }
    }
}

/// Filing a position that was taken out keeps the dictionary well formed.
pub proof fn lemma_link_wf(st: SlideState, out: Set<int>, p: int)
    requires
        st.wf_except(out),
        0 <= p < 4096,
        out.contains(p),
    ensures
        st.link(p).wf_except(out.remove(p)),
{
    let h = st.key(p);
    let l = st.lists[h];
    let n = st.link(p);
    let m = n.lists[h];
    assert(m == seq![p] + l);
    assert forall|g: int, j: int| 0 <= g < 65536 && 0 <= j < n.lists[g].len() implies {
        let q = #[trigger] n.lists[g][j];
        0 <= q < 4096 && n.key(q) == g && !out.remove(p).contains(q)
    } by {
        if g == h {
            if j > 0 {
                assert(n.lists[g][j] == st.lists[g][j - 1]);
            }
        } else {
            assert(n.lists[g][j] == st.lists[g][j]);
        }
    }
    assert forall|g: int| 0 <= g < 65536 implies (#[trigger] n.lists[g]).no_duplicates() by {
        if g != h {
            assert(n.lists[g] == st.lists[g]);
        } else {
            assert forall|a: int, b: int|
                0 <= a < m.len() && 0 <= b < m.len() && a != b implies m[a]
                != m[b] by {
                if a > 0 {
                    assert(m[a] == st.lists[h][a - 1]);
                }
                if b > 0 {
                    assert(m[b] == st.lists[h][b - 1]);
                }
            }
        }
    }
    assert forall|q: int| 0 <= q < 4096 && !out.remove(p).contains(q) implies (
    #[trigger] n.lists[n.key(q)]).contains(q) by {
        if q == p {
            assert(m[0] == p);
        } else {
            assert(st.lists[st.key(q)].contains(q));
            if st.key(q) == h {
                let j = l.index_of(q);
                assert(m[j + 1] == q);
            } else {
                assert(n.lists[n.key(q)] == st.lists[st.key(q)]);
            }
        }
    }
}

/// Writing a byte while the two positions around the cursor are taken out
/// keeps the dictionary well formed.
pub proof fn lemma_write_wf(st: SlideState, out: Set<int>, c: u8)
    requires
        st.wf_except(out),
        out.contains(st.s),
        out.contains(wrap(st.s + 4095)),
    ensures
        st.write(c).wf_except(out),
        st.write(c).window() == st.window().update(st.s, c),
{
    let n = st.write(c);
    assert forall|q: int| 0 <= q < 4096 && !out.contains(q) implies n.key(q) == st.key(q) by {
        assert(q != st.s);
        assert(wrap(q + 1) != st.s);
    }
    assert forall|g: int, j: int| 0 <= g < 65536 && 0 <= j < n.lists[g].len() implies {
        let q = #[trigger] n.lists[g][j];
        0 <= q < 4096 && n.key(q) == g && !out.contains(q)
    } by {
        assert(n.lists[g][j] == st.lists[g][j]);
    }
    assert forall|q: int| 0 <= q < 4096 && !out.contains(q) implies (
    #[trigger] n.lists[n.key(q)]).contains(q) by {
        assert(st.lists[st.key(q)].contains(q));
    }
    assert(n.window() =~= st.window().update(st.s, c));
}

/// A byte that enters a well-formed dictionary leaves it well formed.
pub proof fn lemma_put_wf(st: SlideState, c: u8)
    requires
        st.wf(),
    ensures
        st.put(c).wf(),
        st.put(c).s == wrap(st.s + 1),
        st.put(c).window() == st.window().update(st.s, c),
        st.put(c).text == st.write(c).text,
{
    let sp = wrap(st.s + 4095);
    let e = Set::<int>::empty();
    lemma_unlink_wf(st, e, sp);
    let a = st.unlink(sp);
    lemma_unlink_wf(a, e.insert(sp), st.s);
    let b = a.unlink(st.s);
    lemma_write_wf(b, e.insert(sp).insert(st.s), c);
    let w = b.write(c);
    lemma_link_wf(w, e.insert(sp).insert(st.s), sp);
    let x = w.link(sp);
    assert(e.insert(sp).insert(st.s).remove(sp) =~= e.insert(st.s));
    lemma_link_wf(x, e.insert(st.s), st.s);
    assert(e.insert(st.s).remove(st.s) =~= e);
    let y = x.link(st.s);
    let z = st.put(c);
    assert(z == SlideState { s: wrap(st.s + 1), ..y });
    assert forall|p: int| 0 <= p < 4096 implies (#[trigger] z.lists[z.key(p)]).contains(p) by {
        assert(y.lists[y.key(p)].contains(p));
        assert(z.key(p) == y.key(p));
    }
    assert forall|h: int, i: int| 0 <= h < 65536 && 0 <= i < z.lists[h].len() implies {
        let p = #[trigger] z.lists[h][i];
        0 <= p < 4096 && z.key(p) == h
    } by {
        let p = y.lists[h][i];
        assert(z.key(p) == y.key(p));
    }
}

/// Bytes that enter a well-formed dictionary leave it well formed.
pub proof fn lemma_feed_wf(st: SlideState, bytes: Seq<u8>)
    requires
        st.wf(),
    ensures
        st.feed(bytes).wf(),
        st.feed(bytes).s == wrap(st.s + bytes.len()),
    decreases bytes.len(),
{
    if bytes.len() > 0 {
        lemma_feed_wf(st, bytes.drop_last());
        lemma_put_wf(st.feed(bytes.drop_last()), bytes.last());
    }
}

/// The dictionary of a new compressor is well formed.
pub proof fn lemma_initial_wf()
    ensures
        SlideState::initial().wf(),
{
    let st = SlideState::initial();
    assert forall|p: int| 0 <= p < 4096 implies (#[trigger] st.lists[st.key(p)]).contains(p) by {
        assert(st.key(p) == 0);
        assert(st.lists[0][p] == p);
    }
}

/// Where a comparison that starts at position `p` has to stop, so that it
/// reads nothing at or behind the cursor `s`; `room` is the longest match wanted.
pub open spec fn match_limit(p: int, s: int, room: int) -> int {
    let lim = room + p;
    if lim >= 4096 {
        if p <= s {
            s
        } else if s < lim - 4096 {
            s + 4096
        } else {
            lim
        }
    } else if p <= s && s < lim {
        s
    } else {
        lim
    }
}

/// Number of bytes, counted from `j`, up to which `text` from `p` and `cur` agree below `lim`.
pub open spec fn match_extent(text: Seq<u8>, cur: Seq<u8>, p: int, lim: int, j: int) -> int
    decreases lim - p - j,
{
    if p + j < lim && 0 <= j < cur.len() && text[p + j] == cur[j] {
        match_extent(text, cur, p, lim, j + 1)
    } else {
        j
    }
}

/// The longest match wanted for the input `cur`: the last byte is never part of one.
pub open spec fn match_room(cur: Seq<u8>) -> int {
    if cur.len() - 1 > 273 {
        273
    } else {
        cur.len() - 1
    }
}

impl SlideState {
    /// Length of the match of `cur` at a position `p` filed under the key of
    /// its first two bytes.
    pub open spec fn match_len(self, cur: Seq<u8>, p: int) -> int {
        match_extent(self.text, cur, p, match_limit(p, self.s, match_room(cur)), 2)
    }

    /// Walks the list `l` from index `i`: a position at the cursor or just
    /// before it is passed over, a longer match replaces `best`, and a match
    /// of 273 bytes ends the walk. The result is a length and a position.
    pub open spec fn scan(self, cur: Seq<u8>, l: Seq<int>, i: int, best: (int, int)) -> (int, int)
        decreases l.len() - i,
    {
        if i >= l.len() || i < 0 {
            best
        } else {
            let p = l[i];
            if self.s == p || self.s == wrap(p + 1) {
                self.scan(cur, l, i + 1, best)
            } else {
                let m = self.match_len(cur, p);
                if m > best.0 {
                    if m == 273 {
                        (m, p)
                    } else {
                        self.scan(cur, l, i + 1, (m, p))
                    }
                } else {
                    self.scan(cur, l, i + 1, best)
                }
            }
        }
    }

    /// The match that the compressor finds for the input `cur`, as length and
    /// position: the longest among the positions filed under the key of the
    /// first two bytes, the newest of them where several are longest.
    pub open spec fn find_match(self, cur: Seq<u8>) -> (int, int) {
        if cur.len() < 3 {
            (0, 0)
        } else {
            self.scan(cur, self.lists[cur[0] as int + 256 * (cur[1] as int)], 0, (0, 0))
        }
    }

    /// The token that the compressor emits for the input `cur`, which is not empty.
    pub open spec fn next_token(self, cur: Seq<u8>) -> Token {
        let (len, pos) = self.find_match(cur);
        if len >= 3 {
            Token::Match { pos, len }
        } else {
            Token::Literal(cur[0])
        }
    }
}

/// The tokens that the compressor emits for `input[idx..]`, after `input[..idx]`
/// has entered the dictionary `st`.
pub open spec fn encode_tokens(st: SlideState, input: Seq<u8>, idx: int) -> Seq<Token>
    decreases
            if idx < input.len() {
                input.len() - idx
            } else {
                0
            },
{
    if idx >= input.len() || idx < 0 {
        Seq::empty()
    } else {
        let t = st.feed(input.take(idx)).next_token(input.skip(idx));
        let n = if t.span() >= 1 { t.span() } else { 1 };
        seq![t] + encode_tokens(st, input, idx + n)
    }
}

/// What a match found in a well-formed dictionary is worth.
pub open spec fn match_valid(st: SlideState, cur: Seq<u8>, len: int, pos: int) -> bool {
    &&& 0 <= pos < 4096
    &&& 2 <= len <= 273
    &&& len <= cur.len() - 1
    &&& forall|j: int|
        0 <= j < len ==> st.window()[wrap(pos + j)] == #[trigger] cur[j] && wrap(pos + j) != st.s
}

/// The bytes counted by `match_extent` agree, and the count stays below the limit.
pub proof fn lemma_match_extent(text: Seq<u8>, cur: Seq<u8>, p: int, lim: int, j: int)
    requires
        0 <= j <= cur.len(),
        p + j <= lim,
    ensures
        j <= match_extent(text, cur, p, lim, j) <= cur.len(),
        p + match_extent(text, cur, p, lim, j) <= lim,
        forall|i: int|
            j <= i < match_extent(text, cur, p, lim, j) ==> text[p + i] == #[trigger] cur[i],
    decreases lim - p - j,
{
    if p + j < lim && 0 <= j < cur.len() && text[p + j] == cur[j] {
        lemma_match_extent(text, cur, p, lim, j + 1);
    }
}

/// The limit of a comparison leaves room for two bytes and keeps clear of the cursor.
pub proof fn lemma_match_limit(p: int, s: int, room: int)
    requires
        0 <= p < 4096,
        0 <= s < 4096,
        2 <= room <= 273,
        s != p,
        s != wrap(p + 1),
    ensures
        p + 2 <= match_limit(p, s, room) <= p + room,
        forall|j: int| 0 <= j < match_limit(p, s, room) - p ==> #[trigger] wrap(p + j) != s,
{
}

/// The match at a position filed under the key of the input repeats the input.
pub proof fn lemma_match_len_valid(st: SlideState, cur: Seq<u8>, p: int)
    requires
        st.wf(),
        cur.len() >= 3,
        0 <= p < 4096,
        st.key(p) == cur[0] as int + 256 * (cur[1] as int),
        st.s != p,
        st.s != wrap(p + 1),
    ensures
        match_valid(st, cur, st.match_len(cur, p), p),
{
    let room = match_room(cur);
    let lim = match_limit(p, st.s, room);
    lemma_match_limit(p, st.s, room);
    lemma_match_extent(st.text, cur, p, lim, 2);
    let m = st.match_len(cur, p);
    assert forall|j: int| 0 <= j < m implies st.window()[wrap(p + j)] == #[trigger] cur[j] && wrap(
        p + j,
    ) != st.s by {
        if p + j >= 4096 {
            assert(st.text[4096 + (p + j - 4096)] == st.text[p + j - 4096]);
        }
        if j >= 2 {
            assert(st.text[p + j] == cur[j]);
        }
        assert(j < lim - p);
        assert(wrap(p + j) != st.s);
    }
}

/// Walking a list of a well-formed dictionary keeps the best match valid.
pub proof fn lemma_scan_valid(st: SlideState, cur: Seq<u8>, h: int, i: int, best: (int, int))
    requires
        st.wf(),
        cur.len() >= 3,
        h == cur[0] as int + 256 * (cur[1] as int),
        0 <= i,
        best.0 >= 3 ==> match_valid(st, cur, best.0, best.1),
    ensures
        ({
            let r = st.scan(cur, st.lists[h], i, best);
            r.0 >= 3 ==> match_valid(st, cur, r.0, r.1)
        }),
    decreases st.lists[h].len() - i,
{
    let l = st.lists[h];
    if i < l.len() {
        let p = l[i];
        assert(st.lists[h][i] == p);
        if st.s == p || st.s == wrap(p + 1) {
            lemma_scan_valid(st, cur, h, i + 1, best);
        } else {
            lemma_match_len_valid(st, cur, p);
            let m = st.match_len(cur, p);
            if m > best.0 {
                if m != 273 {
                    lemma_scan_valid(st, cur, h, i + 1, (m, p));
                }
            } else {
                lemma_scan_valid(st, cur, h, i + 1, best);
            }
        }
    }
}

/// A match of three bytes or more that the compressor finds repeats the
/// input from window bytes that lie before the cursor.
pub proof fn lemma_find_match_valid(st: SlideState, cur: Seq<u8>)
    requires
        st.wf(),
    ensures
        st.find_match(cur).0 >= 3 ==> match_valid(
            st,
            cur,
            st.find_match(cur).0,
            st.find_match(cur).1,
        ),
        st.next_token(cur).wf(),
        cur.len() > 0 ==> 1 <= st.next_token(cur).span() <= cur.len(),
{
    if cur.len() >= 3 {
        lemma_scan_valid(st, cur, cur[0] as int + 256 * (cur[1] as int), 0, (0, 0));
    }
}

/// What a decoder holds when its window is that of the dictionary `st`
/// and it has produced `out`.
pub open spec fn mirror_of(st: SlideState, out: Seq<u8>) -> Unpacked {
    Unpacked { window: st.window(), cursor: st.s, out }
}

/// Bytes that enter the dictionary in two parts enter it as one.
pub proof fn lemma_feed_concat(st: SlideState, a: Seq<u8>, b: Seq<u8>)
    ensures
        st.feed(a + b) == st.feed(a).feed(b),
    decreases b.len(),
{
    if b.len() == 0 {
        assert(a + b =~= a);
    } else {
        assert((a + b).drop_last() =~= a + b.drop_last());
        lemma_feed_concat(st, a, b.drop_last());
    }
}

/// One byte enters the dictionary.
pub proof fn lemma_feed_one(st: SlideState, c: u8)
    ensures
        st.feed(seq![c]) == st.put(c),
{
    assert(seq![c].drop_last() =~= Seq::<u8>::empty());
    assert(st.feed(Seq::<u8>::empty()) == st);
    assert(seq![c].last() == c);
}

/// A byte that a decoder emits enters its window as it enters the dictionary.
pub proof fn lemma_emit_is_put(st: SlideState, out: Seq<u8>, c: u8)
    requires
        st.wf(),
    ensures
        emit(mirror_of(st, out), c) == mirror_of(st.put(c), out.push(c)),
{
    lemma_put_wf(st, c);
}

proof fn lemma_wrap_step(from: int, j: int, s: int)
    requires
        0 <= from < 4096,
        0 <= j,
        0 <= s < 4096,
        wrap(from + j) != s,
    ensures
        wrap(wrap(from + 1) + j) == wrap(from + (j + 1)),
        wrap(wrap(from + 1) + j) != wrap(s + 1),
{
}

/// A decoder that repeats window bytes which equal `bytes` and lie clear of
/// the cursor does what the dictionary does when `bytes` enter it.
pub proof fn lemma_copy_is_feed(st: SlideState, out: Seq<u8>, from: int, bytes: Seq<u8>)
    requires
        st.wf(),
        0 <= from < 4096,
        forall|j: int|
            0 <= j < bytes.len() ==> st.window()[wrap(from + j)] == #[trigger] bytes[j] && wrap(
                from + j,
            ) != st.s,
    ensures
        copy_run(mirror_of(st, out), from, bytes.len() as int) == mirror_of(
            st.feed(bytes),
            out + bytes,
        ),
    decreases bytes.len(),
{
    if bytes.len() == 0 {
        assert(out + bytes =~= out);
    } else {
        let b = bytes[0];
        let rest = bytes.skip(1);
        assert(wrap(from + 0) == from);
        assert(st.window()[wrap(from + 0)] == bytes[0]);
        lemma_emit_is_put(st, out, b);
        lemma_put_wf(st, b);
        let st1 = st.put(b);
        let from1 = wrap(from + 1);
        let w = st.window();
        let w1 = st1.window();
        let s0 = st.s;
        let s1 = st1.s;
        assert(w1 == w.update(s0, b) && s1 == wrap(s0 + 1));
        assert forall|j: int| 0 <= j < rest.len() implies w1[wrap(from1 + j)] == #[trigger] rest[j]
            && wrap(from1 + j) != s1 by {
            assert(rest[j] == bytes[j + 1]);
            let a = bytes[j];
            let b1 = bytes[j + 1];
            assert(wrap(from + j) != s0);
            assert(wrap(from + (j + 1)) != s0);
            assert(w[wrap(from + (j + 1))] == b1);
            lemma_wrap_step(from, j, s0);
        }
        lemma_copy_is_feed(st1, out.push(b), from1, rest);
        lemma_feed_one(st, b);
        lemma_feed_concat(st, seq![b], rest);
        assert(seq![b] + rest =~= bytes);
        assert(out.push(b) + rest =~= out + bytes);
    }
}

/// The tokens that the compressor emits are well formed.
pub proof fn lemma_encode_tokens_wf(st: SlideState, input: Seq<u8>, idx: int)
    requires
        st.wf(),
    ensures
        tokens_wf(encode_tokens(st, input, idx)),
    decreases
            if idx < input.len() {
                input.len() - idx
            } else {
                0
            },
{
    if idx >= input.len() || idx < 0 {
    } else {
        let cur_st = st.feed(input.take(idx));
        lemma_feed_wf(st, input.take(idx));
        let t = cur_st.next_token(input.skip(idx));
        lemma_find_match_valid(cur_st, input.skip(idx));
        lemma_encode_tokens_wf(st, input, idx + t.span());
    }
}

/// Replaying the tokens emitted for `input[idx..]` on a decoder that stands
/// where the compressor stood gives the input and the compressor's window.
pub proof fn lemma_replay(st: SlideState, input: Seq<u8>, idx: int)
    requires
        st.wf(),
        0 <= idx <= input.len(),
    ensures
        apply_tokens(
            mirror_of(st.feed(input.take(idx)), input.take(idx)),
            encode_tokens(st, input, idx),
        ) == mirror_of(st.feed(input), input),
    decreases input.len() - idx,
{
    if idx >= input.len() {
        assert(input.take(idx) =~= input);
    } else {
        let head = input.take(idx);
        let cur = input.skip(idx);
        let at = st.feed(head);
        lemma_feed_wf(st, head);
        let t = at.next_token(cur);
        lemma_find_match_valid(at, cur);
        let n = t.span();
        let rest = encode_tokens(st, input, idx + n);
        lemma_apply_tokens_front(mirror_of(at, head), t, rest);
        let bytes = cur.take(n);
        assert(head + bytes =~= input.take(idx + n));
        lemma_feed_concat(st, head, bytes);
        match t {
            Token::Literal(c) => {
                assert(c == cur[0]);
                assert(bytes =~= seq![c]);
                lemma_feed_one(at, c);
                lemma_emit_is_put(at, head, c);
                assert(head.push(c) =~= head + bytes);
            },
            Token::Match { pos, len } => {
                assert forall|j: int| 0 <= j < bytes.len() implies at.window()[wrap(pos + j)]
                    == #[trigger] bytes[j] && wrap(pos + j) != at.s by {
                    assert(bytes[j] == cur[j]);
                }
                lemma_copy_is_feed(at, head, pos, bytes);
            },
        }
        lemma_replay(st, input, idx + n);
    }
}

/// Unpacking what the compressor packed gives the input back, and leaves the
/// decoder's window and cursor as the compressor's: for every input, the
/// empty one included, for which nothing is packed.
pub proof fn lemma_lzss_round_trip(st: SlideState, input: Seq<u8>)
    requires
        st.wf(),
    ensures
        lzss_unpack(pack_tokens(encode_tokens(st, input, 0)), st.window(), st.s) == Some(
            mirror_of(st.feed(input), input),
        ),
        input.len() == 0 ==> pack_tokens(encode_tokens(st, input, 0)) == Seq::<u8>::empty(),
        st.feed(input).wf(),
{
    let ts = encode_tokens(st, input, 0);
    let packed = pack_tokens(ts);
    lemma_encode_tokens_wf(st, input, 0);
    assert(packed.skip(0) =~= packed);
    lemma_parse_packed(packed, 0, 0, ts);
    assert(input.take(0) =~= Seq::<u8>::empty());
    lemma_replay(st, input, 0);
    lemma_feed_wf(st, input);
}

} // verus!
