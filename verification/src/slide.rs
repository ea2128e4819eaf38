//! Slide Compressor
use crate::dictionary::{
    encode_tokens, lemma_find_match_valid, lemma_link_wf, lemma_match_extent, lemma_match_limit,
    lemma_put_wf, lemma_unlink_wf, lemma_without, lemma_write_wf, match_extent, match_limit,
    match_room, without, SlideState,
};
use crate::lzss::{
    group_body, group_ctrl, lemma_group_push, lemma_pack_group, mask_offset, pack_tokens, Token,
};
use vstd::prelude::*;

verus! {

/// The links between the window positions agree with the lists: `map` holds
/// the head of each list, `next` and `prev` the neighbours of each position
/// in its list, and a position in `out` has no neighbours.
pub open spec fn chained(
    map: Seq<i32>,
    prev: Seq<i32>,
    next: Seq<i32>,
    lists: Seq<Seq<int>>,
    out: Set<int>,
) -> bool {
    &&& map.len() == 65536
    &&& prev.len() == 4096
    &&& next.len() == 4096
    &&& lists.len() == 65536
    &&& forall|h: int, i: int|
        0 <= h < 65536 && 0 <= i < lists[h].len() ==> #[trigger] next[lists[h][i]] == if i + 1
            < lists[h].len() {
            lists[h][i + 1]
        } else {
            -1
        }
    &&& forall|h: int, i: int|
        0 <= h < 65536 && 0 <= i < lists[h].len() ==> #[trigger] prev[lists[h][i]] == if i > 0 {
            lists[h][i - 1]
        } else {
            -1
        }
    &&& forall|h: int|
        0 <= h < 65536 ==> #[trigger] map[h] == if lists[h].len() > 0 {
            lists[h][0]
        } else {
            -1
        }
    &&& forall|p: int|
        0 <= p < 4096 && #[trigger] out.contains(p) ==> prev[p] == -1 && next[p] == -1
}

/// The neighbours of a filed position are window positions, or there is none.
proof fn lemma_neighbours(
    st: SlideState,
    map: Seq<i32>,
    prev: Seq<i32>,
    next: Seq<i32>,
    out: Set<int>,
    p: int,
)
    requires
        st.wf_except(out),
        chained(map, prev, next, st.lists, out),
        0 <= p < 4096,
        !out.contains(p),
    ensures
        -1 <= next[p] < 4096,
        -1 <= prev[p] < 4096,
        next[p] != p,
        prev[p] != p,
        next[p] != -1 ==> next[p] != prev[p],
{
    let h = st.key(p);
    let l = st.lists[h];
    assert(st.lists[st.key(p)].contains(p));
    let i = l.index_of(p);
    assert(st.lists[h][i] == p);
    if i + 1 < l.len() {
        assert(0 <= st.lists[h][i + 1] < 4096);
    }
    if i > 0 {
        assert(0 <= st.lists[h][i - 1] < 4096);
    }
}

/// Taking a position out of its list, on the links.
#[verifier::rlimit(60)]
proof fn lemma_chained_unlink(
    st: SlideState,
    map: Seq<i32>,
    prev: Seq<i32>,
    next: Seq<i32>,
    out: Set<int>,
    p: int,
)
    requires
        st.wf_except(out),
        chained(map, prev, next, st.lists, out),
        0 <= p < 4096,
        !out.contains(p),
    ensures
        ({
            let n = next[p];
            let b = prev[p];
            let prev1 = if n != -1 { prev.update(n as int, b) } else { prev };
            let next1 = if b != -1 { next.update(b as int, n) } else { next };
            let map1 = if b != -1 { map } else { map.update(st.key(p), n) };
            chained(
                map1,
                prev1.update(p, -1i32),
                next1.update(p, -1i32),
                st.unlink(p).lists,
                out.insert(p),
            )
        }),
{
    let place = st.key(p);
    let l = st.lists[place];
    assert(st.lists[st.key(p)].contains(p));
    lemma_without(l, p);
    lemma_neighbours(st, map, prev, next, out, p);
    let i = l.index_of(p);
    assert(st.lists[place][i] == p);
    let n = next[p];
    let b = prev[p];
    let prev1 = if n != -1 { prev.update(n as int, b) } else { prev };
    let next1 = if b != -1 { next.update(b as int, n) } else { next };
    let map2 = if b != -1 { map } else { map.update(st.key(p), n) };
    let prev2 = prev1.update(p, -1i32);
    let next2 = next1.update(p, -1i32);
    let olists = st.lists;
    let lists = st.unlink(p).lists;
    assert(lists[place] == without(l, p));
    assert forall|h: int, j: int| 0 <= h < 65536 && 0 <= j < lists[h].len() implies
        #[trigger] next2[lists[h][j]] == if j + 1 < lists[h].len() {
        lists[h][j + 1]
    } else {
        -1
    } by {
        if h == place {
            let jj = if j < i { j } else { j + 1 };
            assert(lists[h][j] == olists[h][jj]);
            assert(olists[h][jj] != p);
            assert(0 <= olists[h][jj] < 4096);
            if j + 1 < lists[h].len() {
                assert(lists[h][j + 1] == olists[h][if j + 1 < i { j + 1 } else { j + 2 }]);
            }
            if i > 0 {
                assert(olists[h][i - 1] == b);
                if jj != i - 1 {
                    assert(olists[h][jj] != olists[h][i - 1]);
                }
            }
            assert(next[olists[h][jj]] == if jj + 1 < l.len() { olists[h][jj + 1] } else { -1 });
        } else {
            assert(lists[h][j] == olists[h][j]);
            assert(st.key(olists[h][j]) == h);
            assert(olists[h][j] != p);
            if i > 0 {
                assert(st.key(olists[place][i - 1]) == place);
            }
            assert(next[olists[h][j]] == if j + 1 < olists[h].len() {
                olists[h][j + 1]
            } else {
                -1
            });
        }
    }
    assert forall|h: int, j: int| 0 <= h < 65536 && 0 <= j < lists[h].len() implies
        #[trigger] prev2[lists[h][j]] == if j > 0 {
        lists[h][j - 1]
    } else {
        -1
    } by {
        if h == place {
            let jj = if j < i { j } else { j + 1 };
            assert(lists[h][j] == olists[h][jj]);
            assert(olists[h][jj] != p);
            assert(0 <= olists[h][jj] < 4096);
            if j > 0 {
                assert(lists[h][j - 1] == olists[h][if j - 1 < i { j - 1 } else { j }]);
            }
            if i + 1 < l.len() {
                assert(olists[h][i + 1] == n);
                if jj != i + 1 {
                    assert(olists[h][jj] != olists[h][i + 1]);
                }
            }
            assert(prev[olists[h][jj]] == if jj > 0 { olists[h][jj - 1] } else { -1 });
        } else {
            assert(lists[h][j] == olists[h][j]);
            assert(st.key(olists[h][j]) == h);
            assert(olists[h][j] != p);
            if i + 1 < l.len() {
                assert(st.key(olists[place][i + 1]) == place);
            }
            assert(prev[olists[h][j]] == if j > 0 { olists[h][j - 1] } else { -1 });
        }
    }
    assert forall|h: int| 0 <= h < 65536 implies #[trigger] map2[h] == if lists[h].len() > 0 {
        lists[h][0]
    } else {
        -1
    } by {
        if h == place {
            if lists[h].len() > 0 {
                assert(lists[h][0] == olists[h][if 0 < i { 0int } else { 1int }]);
            }
            if i > 0 {
                assert(olists[h][i - 1] == b);
            }
        } else {
            assert(lists[h] == olists[h]);
        }
    }
    assert forall|q: int| 0 <= q < 4096 && #[trigger] out.insert(p).contains(q) implies prev2[q]
        == -1 && next2[q] == -1 by {
        if q != p {
            assert(out.contains(q));
            if i > 0 {
                assert(!out.contains(olists[place][i - 1]));
            }
            if i + 1 < l.len() {
                assert(!out.contains(olists[place][i + 1]));
            }
        }
    }
}

/// A sliding-window compressor with a snapshot of itself.
pub struct SlideCompressor {
    text: Vec<u8>,
    map: Vec<i32>,
    prev: Vec<i32>,
    next: Vec<i32>,
    text2: Vec<u8>,
    map2: Vec<i32>,
    prev2: Vec<i32>,
    next2: Vec<i32>,
    s: usize,
    s2: usize,
    lists: Ghost<Seq<Seq<int>>>,
    lists2: Ghost<Seq<Seq<int>>>,
}

impl View for SlideCompressor {
    type V = SlideState;

    closed spec fn view(&self) -> SlideState {
        SlideState { text: self.text@, s: self.s as int, lists: self.lists@ }
    }
}

impl SlideCompressor {
    /// The dictionary that `restore` brings back.
    pub closed spec fn snapshot(&self) -> SlideState {
        SlideState { text: self.text2@, s: self.s2 as int, lists: self.lists2@ }
    }

    spec fn snapshot_ok(&self) -> bool {
        &&& self.snapshot().wf()
        &&& chained(self.map2@, self.prev2@, self.next2@, self.lists2@, Set::empty())
    }

    spec fn inv_except(&self, out: Set<int>) -> bool {
        &&& self@.wf_except(out)
        &&& chained(self.map@, self.prev@, self.next@, self.lists@, out)
    }

    spec fn same_backup(&self, other: &Self) -> bool {
        &&& self.text2 == other.text2
        &&& self.map2 == other.map2
        &&& self.prev2 == other.prev2
        &&& self.next2 == other.next2
        &&& self.s2 == other.s2
        &&& self.lists2 == other.lists2
    }

    /// The dictionary and its snapshot are well formed, and the links between
    /// the window positions agree with them.
    pub closed spec fn wf(&self) -> bool {
        &&& self.inv_except(Set::empty())
        &&& self.snapshot_ok()
    }

    /// A well-formed compressor holds a well-formed dictionary and snapshot.
    pub proof fn lemma_wf(&self)
        requires
            self.wf(),
        ensures
            self@.wf(),
            self.snapshot().wf(),
    {
    }

    fn key_of(&self, p: usize) -> (h: usize)
        requires
            self.text.len() == 4369,
            p < 4096,
        ensures
            h == self@.key(p as int),
            h < 65536,
    {
        let q = mask_offset(p + 1);
        let lo = self.text[p] as usize;
        let hi = self.text[q] as usize;
        let up = hi << 8;
        assert(up == 256 * hi) by (bit_vector)
            requires
                up == hi << 8,
                hi < 256,
        ;
        lo + up
    }

    fn add_map(&mut self, p: usize, Ghost(out): Ghost<Set<int>>)
        requires
            old(self).inv_except(out),
            p < 4096,
            out.contains(p as int),
        ensures
            final(self).inv_except(out.remove(p as int)),
            final(self)@ == old(self)@.link(p as int),
            final(self).same_backup(old(self)),
    {
        let place = self.key_of(p);
        let ghost l = self.lists@[place as int];
        let ghost m = seq![p as int] + l;
        let head = self.map[place];
        self.map[place] = p as i32;
        if head != -1 {
            assert(head == l[0]);
            assert(self.lists@[place as int][0] == head);
            self.prev[head as usize] = p as i32;
            self.next[p] = head;
            self.prev[p] = -1;
        }
        proof {
            lemma_link_wf(old(self)@, out, p as int);
            *self.lists.borrow_mut() = self.lists@.update(place as int, m);
            let lists = self.lists@;
            let olists = old(self).lists@;
            assert forall|h: int, i: int| 0 <= h < 65536 && 0 <= i < lists[h].len() implies
                #[trigger] self.next@[lists[h][i]] == if i + 1 < lists[h].len() {
                lists[h][i + 1]
            } else {
                -1
            } by {
                if h == place {
                    if i > 0 {
                        assert(lists[h][i] == olists[h][i - 1]);
                        assert(olists[h][i - 1] != p);
                    }
                } else {
                    assert(lists[h][i] == olists[h][i]);
                    assert(olists[h][i] != p);
                }
            }
            assert forall|h: int, i: int| 0 <= h < 65536 && 0 <= i < lists[h].len() implies
                #[trigger] self.prev@[lists[h][i]] == if i > 0 {
                lists[h][i - 1]
            } else {
                -1
            } by {
                if h == place {
                    if i > 0 {
                        assert(lists[h][i] == olists[h][i - 1]);
                        assert(olists[h][i - 1] != p);
                        if i > 1 {
                            assert(olists[h][i - 1] != olists[h][0]);
                        }
                    }
                } else {
                    assert(lists[h][i] == olists[h][i]);
                    assert(olists[h][i] != p);
                    if head != -1 {
                        assert(old(self)@.key(olists[h][i]) == h);
                        assert(old(self)@.key(olists[place as int][0]) == place);
                    }
                }
            }
        }
    }

    fn delete_map(&mut self, p: usize, Ghost(out): Ghost<Set<int>>)
        requires
            old(self).inv_except(out),
            p < 4096,
            !out.contains(p as int),
        ensures
            final(self).inv_except(out.insert(p as int)),
            final(self)@ == old(self)@.unlink(p as int),
            final(self).same_backup(old(self)),
    {
        let place = self.key_of(p);
        proof {
            lemma_neighbours(self@, self.map@, self.prev@, self.next@, out, p as int);
        }
        let n = self.next[p];
        let b = self.prev[p];
        if n != -1 {
            self.prev[n as usize] = b;
        }
        if b != -1 {
            self.next[b as usize] = n;
        } else {
            self.map[place] = n;
        }
        self.prev[p] = -1;
        self.next[p] = -1;
        proof {
            lemma_unlink_wf(old(self)@, out, p as int);
            lemma_chained_unlink(
                old(self)@,
                old(self).map@,
                old(self).prev@,
                old(self).next@,
                out,
                p as int,
            );
            *self.lists.borrow_mut() = old(self)@.unlink(p as int).lists;
        }
    }

    /// The byte `c` enters the dictionary.
    fn put_byte(&mut self, c: u8)
        requires
            old(self).wf(),
        ensures
            final(self).wf(),
            final(self)@ == old(self)@.put(c),
            final(self).snapshot() == old(self).snapshot(),
    {
        let s = self.s;
        let s_prev = mask_offset(s + 4095);
        let ghost e = Set::<int>::empty();
        self.delete_map(s_prev, Ghost(e));
        self.delete_map(s, Ghost(e.insert(s_prev as int)));
        let ghost mid = self@;
        let ghost both = e.insert(s_prev as int).insert(s as int);
        if s < 272 {
            self.text[s + 4096] = c;
        }
        self.text[s] = c;
        proof {
            lemma_write_wf(mid, both, c);
            assert(self@ == mid.write(c));
        }
        self.add_map(s_prev, Ghost(both));
        proof {
            assert(both.remove(s_prev as int) =~= e.insert(s as int));
        }
        self.add_map(s, Ghost(e.insert(s as int)));
        proof {
            assert(e.insert(s as int).remove(s as int) =~= e);
            lemma_put_wf(old(self)@, c);
        }
        self.s = mask_offset(s + 1);
    }

    /// A compressor over a window of zeros; its snapshot is that first state.
    pub fn new() -> (c: Self)
        ensures
            c.wf(),
            c@ == SlideState::initial(),
            c.snapshot() == SlideState::initial(),
    {
        let mut data = Self {
            text: vec![0u8; 4369],
            map: vec![-1i32; 65536],
            prev: vec![-1i32; 4096],
            next: vec![-1i32; 4096],
            text2: Vec::new(),
            map2: Vec::new(),
            prev2: Vec::new(),
            next2: Vec::new(),
            s: 0,
            s2: 0,
            lists: Ghost(Seq::new(65536, |h: int| Seq::empty())),
            lists2: Ghost(Seq::empty()),
        };
        assert(data.text@ =~= SlideState::initial().text);
        assert(data.lists@[0] =~= Seq::new(0, |j: int| j + 4096));
        let mut i: usize = 4096;
        while i > 0
            invariant
                i <= 4096,
                data.inv_except(Set::new(|p: int| 0 <= p < i)),
                data.text@ == SlideState::initial().text,
                data.s == 0,
                data.lists@[0] == Seq::new((4096 - i) as nat, |j: int| j + i),
                forall|h: int| 0 < h < 65536 ==> #[trigger] data.lists@[h] == Seq::<int>::empty(),
            decreases i,
        {
            i -= 1;
            let ghost out = Set::new(|p: int| 0 <= p < i + 1);
            assert(data@.key(i as int) == 0);
            data.add_map(i, Ghost(out));
            assert(out.remove(i as int) =~= Set::new(|p: int| 0 <= p < i));
            assert(data.lists@[0] =~= Seq::new((4096 - i) as nat, |j: int| j + i));
            assert forall|h: int| 0 < h < 65536 implies #[trigger] data.lists@[h] == Seq::<
                int,
            >::empty() by {}
        }
        assert(Set::new(|p: int| 0 <= p < 0) =~= Set::<int>::empty());
        assert(data.lists@[0] =~= SlideState::initial().lists[0]);
        assert(data.lists@ =~= SlideState::initial().lists);
        data.store_fields();
        data
    }

    fn store_fields(&mut self)
        requires
            old(self).inv_except(Set::empty()),
        ensures
            final(self).wf(),
            final(self)@ == old(self)@,
            final(self).snapshot() == old(self)@,
    {
        self.s2 = self.s;
        self.text2 = self.text.clone();
        self.map2 = self.map.clone();
        self.prev2 = self.prev.clone();
        self.next2 = self.next.clone();
        proof {
            *self.lists2.borrow_mut() = self.lists@;
            assert(self.text2@ =~= self.text@);
            assert(self.map2@ =~= self.map@);
            assert(self.prev2@ =~= self.prev@);
            assert(self.next2@ =~= self.next@);
        }
    }

    /// Takes a snapshot of the dictionary, for `restore` to bring back.
    pub fn store(&mut self)
        requires
            old(self).wf(),
        ensures
            final(self).wf(),
            final(self)@ == old(self)@,
            final(self).snapshot() == old(self)@,
    {
        self.store_fields();
    }

    /// Brings the dictionary back to the last snapshot.
    pub fn restore(&mut self)
        requires
            old(self).wf(),
        ensures
            final(self).wf(),
            final(self)@ == old(self).snapshot(),
            final(self).snapshot() == old(self).snapshot(),
    {
        self.s = self.s2;
        self.text = self.text2.clone();
        self.map = self.map2.clone();
        self.prev = self.prev2.clone();
        self.next = self.next2.clone();
        proof {
            *self.lists.borrow_mut() = self.lists2@;
            assert(self.text@ =~= self.text2@);
            assert(self.map@ =~= self.map2@);
            assert(self.prev@ =~= self.prev2@);
            assert(self.next@ =~= self.next2@);
        }
    }

    /// Finds the match for `input[idx..]`: its length and its window position.
    fn get_match(&self, input: &[u8], idx: usize) -> (r: (usize, usize))
        requires
            self.wf(),
            idx <= input.len(),
        ensures
            (r.0 as int, r.1 as int) == self@.find_match(input@.skip(idx as int)),
            r.0 <= 273,
            r.1 < 4096,
    {
        let n = input.len() - idx;
        if n < 3 {
            return (0, 0);
        }
        let ghost cur = input@.skip(idx as int);
        let lo = input[idx] as usize;
        let hi = input[idx + 1] as usize;
        let up = hi << 8;
        assert(up == 256 * hi) by (bit_vector)
            requires
                up == hi << 8,
                hi < 256,
        ;
        let place = lo + up;
        let room: usize = if n - 1 > 273 { 273 } else { n - 1 };
        let ghost l = self.lists@[place as int];
        let s = self.s;
        let mut best_len: usize = 0;
        let mut best_pos: usize = 0;
        let mut head = self.map[place];
        let ghost mut i: int = 0;
        assert(cur[0] == input@[idx as int] && cur[1] == input@[idx + 1]);
        while head != -1
            invariant
                self.wf(),
                cur == input@.skip(idx as int),
                n == input.len() - idx,
                n >= 3,
                room == match_room(cur),
                0 <= place < 65536,
                place == cur[0] as int + 256 * (cur[1] as int),
                l == self.lists@[place as int],
                s == self.s,
                0 <= i <= l.len(),
                head == if i < l.len() { l[i] } else { -1 },
                self@.scan(cur, l, i, (best_len as int, best_pos as int)) == self@.find_match(cur),
                best_len <= 273,
                best_pos < 4096,
            decreases l.len() - i,
        {
            assert(self.lists@[place as int][i] == head);
            let p = head as usize;
            if s == p || s == mask_offset(p + 1) {
            } else {
                proof {
                    lemma_match_limit(p as int, s as int, room as int);
                }
                let lim0 = room + p;
                let lim = if lim0 >= 4096 {
                    if p <= s {
                        s
                    } else if s < lim0 - 4096 {
                        s + 4096
                    } else {
                        lim0
                    }
                } else if p <= s && s < lim0 {
                    s
                } else {
                    lim0
                };
                assert(lim == match_limit(p as int, s as int, room as int));
                let mut c: usize = 2;
                while p + c < lim && c < n && self.text[p + c] == input[idx + c]
                    invariant
                        self.text.len() == 4369,
                        cur == input@.skip(idx as int),
                        n == input.len() - idx,
                        idx <= input.len(),
                        2 <= c <= n,
                        p + c <= lim <= 4368,
                        match_extent(self.text@, cur, p as int, lim as int, 2) == match_extent(
                            self.text@,
                            cur,
                            p as int,
                            lim as int,
                            c as int,
                        ),
                    decreases lim - p - c,
                {
                    assert(cur[c as int] == input@[idx + c]);
                    c += 1;
                }
                proof {
                    if p + c < lim && c < n {
                        assert(cur[c as int] == input@[idx + c]);
                    }
                    lemma_match_extent(self.text@, cur, p as int, lim as int, 2);
                }
                if c > best_len {
                    best_len = c;
                    best_pos = p;
                    if c == 273 {
                        return (c, p);
                    }
                }
            }
            head = self.next[p];
            proof {
                i = i + 1;
                if i < l.len() {
                    assert(0 <= self.lists@[place as int][i] < 4096);
                }
            }
        }
        (best_len, best_pos)
    }

    /// The bytes `input[from..to]` enter the dictionary.
    fn feed_bytes(&mut self, input: &[u8], from: usize, to: usize, Ghost(st0): Ghost<SlideState>)
        requires
            old(self).wf(),
            from <= to <= input.len(),
            old(self)@ == st0.feed(input@.take(from as int)),
        ensures
            final(self).wf(),
            final(self)@ == st0.feed(input@.take(to as int)),
            final(self).snapshot() == old(self).snapshot(),
    {
        let mut idx = from;
        while idx < to
            invariant
                self.wf(),
                self.snapshot() == old(self).snapshot(),
                from <= idx <= to <= input.len(),
                self@ == st0.feed(input@.take(idx as int)),
            decreases to - idx,
        {
            let c = input[idx];
            self.put_byte(c);
            idx += 1;
            assert(input@.take(idx as int).drop_last() =~= input@.take(idx - 1));
        }
    }

    /// Compresses `input` behind what `output` holds, through the dictionary,
    /// and returns the length of `output`, or 0 for an empty input.
    pub fn encode_into(&mut self, input: &[u8], output: &mut Vec<u8>) -> (n: usize)
        requires
            old(self).wf(),
        ensures
            final(self).wf(),
            final(self)@ == old(self)@.feed(input@),
            final(self).snapshot() == old(self).snapshot(),
            final(output)@ == old(output)@ + pack_tokens(encode_tokens(old(self)@, input@, 0)),
            n == if input@.len() == 0 { 0 } else { final(output)@.len() },
    {
        if input.len() == 0 {
            assert(output@ + pack_tokens(encode_tokens(self@, input@, 0)) =~= output@);
            return 0;
        }
        let ghost st0 = self@;
        let ghost all = encode_tokens(st0, input@, 0);
        let ghost mut flushed: Seq<Token> = Seq::empty();
        let ghost mut pending: Seq<Token> = Seq::empty();
        let mut ctrl: u8 = 0;
        let mut body: Vec<u8> = Vec::new();
        let mut cnt: u8 = 0;
        let mut idx: usize = 0;
        assert(flushed + pending + all =~= all);
        assert(input@.take(0) =~= Seq::<u8>::empty());
        assert(output@ + pack_tokens(flushed) =~= output@);
        while idx < input.len()
            invariant
                self.wf(),
                self.snapshot() == old(self).snapshot(),
                st0 == old(self)@,
                all == encode_tokens(st0, input@, 0),
                idx <= input.len(),
                self@ == st0.feed(input@.take(idx as int)),
                all == flushed + pending + encode_tokens(st0, input@, idx as int),
                flushed.len() % 8 == 0,
                pending.len() == cnt,
                cnt < 8,
                ctrl == group_ctrl(pending),
                body@ == group_body(pending),
                output@ == old(output)@ + pack_tokens(flushed),
            decreases input.len() - idx,
        {
            let ghost cur = input@.skip(idx as int);
            let ghost t = self@.next_token(cur);
            let ghost rest = encode_tokens(st0, input@, idx + t.span());
            proof {
                self.lemma_wf();
                lemma_find_match_valid(self@, cur);
                lemma_group_push(pending, t);
                assert(encode_tokens(st0, input@, idx as int) == seq![t] + rest);
                assert(flushed + pending + (seq![t] + rest) =~= flushed + pending.push(t) + rest);
                assert(cur[0] == input@[idx as int]);
            }
            let (len, pos) = self.get_match(input, idx);
            if len >= 3 {
                ctrl = ctrl | (1u8 << cnt);
                push_match(&mut body, pos, len);
                self.feed_bytes(input, idx, idx + len, Ghost(st0));
                idx += len;
            } else {
                let c = input[idx];
                self.feed_bytes(input, idx, idx + 1, Ghost(st0));
                idx += 1;
                body.push(c);
                assert(body@ =~= group_body(pending) + t.bytes());
            }
            cnt += 1;
            proof {
                pending = pending.push(t);
            }
            if cnt == 8 {
                proof {
                    lemma_pack_group(flushed, pending);
                }
                flush_group(output, ctrl, &mut body);
                proof {
                    flushed = flushed + pending;
                    pending = Seq::empty();
                    assert(flushed + pending + rest =~= flushed + rest);
                }
                ctrl = 0;
                cnt = 0;
            }
        }
        if cnt != 0 {
            proof {
                lemma_pack_group(flushed, pending);
            }
            flush_group(output, ctrl, &mut body);
        }
        proof {
            assert(flushed + pending + Seq::<Token>::empty() =~= flushed + pending);
            if cnt == 0 {
                assert(flushed + pending =~= flushed);
            }
            assert(input@.take(input@.len() as int) =~= input@);
        }
        output.len()
    }
}

/// Appends the two or three bytes of a match token to `body`.
fn push_match(body: &mut Vec<u8>, pos: usize, len: usize)
    requires
        pos < 4096,
        3 <= len <= 273,
    ensures
        final(body)@ == old(body)@ + (Token::Match { pos: pos as int, len: len as int }).bytes(),
{
    let b0 = (pos & 0xff) as u8;
    assert(b0 == pos % 256) by (bit_vector)
        requires
            b0 == (pos & 0xff) as u8,
    ;
    body.push(b0);
    if len >= 18 {
        let b1 = (((pos & 0xf00) >> 8) as u8) | 0xf0;
        let b2 = (len - 18) as u8;
        assert(b1 == pos / 256 + 240) by (bit_vector)
            requires
                b1 == (((pos & 0xf00) >> 8) as u8) | 0xf0,
                pos < 4096,
        ;
        body.push(b1);
        body.push(b2);
    } else {
        let b1 = (((pos & 0xf00) >> 8) as u8) | (((len - 3) as u8) << 4);
        assert(b1 == pos / 256 + 16 * (len - 3)) by (bit_vector)
            requires
                b1 == (((pos & 0xf00) >> 8) as u8) | (((len - 3) as u8) << 4),
                pos < 4096,
                3 <= len < 18,
        ;
        body.push(b1);
    }
    assert(body@ =~= old(body)@ + (Token::Match { pos: pos as int, len: len as int }).bytes());
}

/// Appends a control byte and the bytes of its group to `output`, and empties `body`.
fn flush_group(output: &mut Vec<u8>, ctrl: u8, body: &mut Vec<u8>)
    ensures
        final(output)@ == old(output)@ + (seq![ctrl] + old(body)@),
        final(body)@ == Seq::<u8>::empty(),
{
    output.push(ctrl);
    output.append(body);
    assert(output@ =~= old(output)@ + (seq![ctrl] + old(body)@));
}

} // verus!
