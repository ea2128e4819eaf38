//! Tags of an image: byte-string keys with byte-string values.
use crate::decimal::{decimal, is_digit, push_decimal};
use vstd::prelude::*;

verus! {

/// The map that a sequence of entries stands for: a later entry replaces an
/// earlier one with the same key.
pub open spec fn map_of(entries: Seq<(Seq<u8>, Seq<u8>)>) -> Map<Seq<u8>, Seq<u8>>
    decreases entries.len(),
{
    if entries.len() == 0 {
        Map::empty()
    } else {
        map_of(entries.drop_last()).insert(entries.last().0, entries.last().1)
    }
}

/// No key occurs twice.
pub open spec fn distinct_keys(entries: Seq<(Seq<u8>, Seq<u8>)>) -> bool {
    forall|i: int, j: int|
        0 <= i < entries.len() && 0 <= j < entries.len() && i != j ==> (#[trigger] entries[i]).0
            != (#[trigger] entries[j]).0
}

/// Whether two byte strings are equal.
pub fn bytes_eq(a: &[u8], b: &[u8]) -> (r: bool)
    ensures
        r == (a@ == b@),
{
    if a.len() != b.len() {
        return false;
    }
    let mut i: usize = 0;
    while i < a.len()
        invariant
            i <= a.len() == b.len(),
            forall|j: int| 0 <= j < i ==> a@[j] == b@[j],
        decreases a.len() - i,
    {
        if a[i] != b[i] {
            return false;
        }
        i += 1;
    }
    assert(a@ =~= b@);
    true
}

/// A map from byte strings to byte strings that keeps the order in which its
/// keys first came.
#[derive(Debug, Clone)]
pub struct TagMap {
    entries: Vec<(Vec<u8>, Vec<u8>)>,
}

impl View for TagMap {
    type V = Map<Seq<u8>, Seq<u8>>;

    closed spec fn view(&self) -> Map<Seq<u8>, Seq<u8>> {
        map_of(self.entries())
    }
}

/// The keys of the map of entries are the keys of the entries.
pub proof fn lemma_map_of_keys(entries: Seq<(Seq<u8>, Seq<u8>)>, k: Seq<u8>)
    ensures
        map_of(entries).dom().contains(k) <==> exists|i: int|
            0 <= i < entries.len() && (#[trigger] entries[i]).0 == k,
        map_of(entries).dom().finite(),
    decreases entries.len(),
{
    if entries.len() > 0 {
        let d = entries.drop_last();
        lemma_map_of_keys(d, k);
        if map_of(entries).dom().contains(k) {
            if entries.last().0 == k {
                assert(entries[entries.len() - 1].0 == k);
            } else {
                let i = choose|i: int| 0 <= i < d.len() && (#[trigger] d[i]).0 == k;
                assert(entries[i].0 == k);
            }
        }
        if exists|i: int| 0 <= i < entries.len() && (#[trigger] entries[i]).0 == k {
            let i = choose|i: int| 0 <= i < entries.len() && (#[trigger] entries[i]).0 == k;
            if i < d.len() {
                assert(d[i].0 == k);
            }
        }
    }
}

/// Under distinct keys the map holds the value of each entry under its key.
pub proof fn lemma_map_of_value(entries: Seq<(Seq<u8>, Seq<u8>)>, i: int)
    requires
        distinct_keys(entries),
        0 <= i < entries.len(),
    ensures
        map_of(entries).dom().contains(entries[i].0),
        map_of(entries)[entries[i].0] == entries[i].1,
    decreases entries.len(),
{
    let d = entries.drop_last();
    if i < d.len() {
        assert(distinct_keys(d)) by {
            assert forall|a: int, b: int| 0 <= a < d.len() && 0 <= b < d.len() && a != b implies (
            #[trigger] d[a]).0 != (#[trigger] d[b]).0 by {
                assert(d[a] == entries[a] && d[b] == entries[b]);
            }
        }
        lemma_map_of_value(d, i);
        assert(d[i] == entries[i]);
        assert(entries[i].0 != entries[entries.len() - 1].0);
    }
}

/// Replacing the value of an entry puts the new value under its key in the map.
pub proof fn lemma_map_of_update(entries: Seq<(Seq<u8>, Seq<u8>)>, i: int, v: Seq<u8>)
    requires
        distinct_keys(entries),
        0 <= i < entries.len(),
    ensures
        map_of(entries.update(i, (entries[i].0, v))) == map_of(entries).insert(entries[i].0, v),
        distinct_keys(entries.update(i, (entries[i].0, v))),
    decreases entries.len(),
{
    let k = entries[i].0;
    let n = entries.update(i, (k, v));
    let d = entries.drop_last();
    assert forall|a: int, b: int| 0 <= a < n.len() && 0 <= b < n.len() && a != b implies (
    #[trigger] n[a]).0 != (#[trigger] n[b]).0 by {
        assert(n[a].0 == entries[a].0 && n[b].0 == entries[b].0);
    }
    if i == entries.len() - 1 {
        assert(n.drop_last() =~= d);
        assert(map_of(n) =~= map_of(entries).insert(k, v));
    } else {
        assert(distinct_keys(d)) by {
            assert forall|a: int, b: int| 0 <= a < d.len() && 0 <= b < d.len() && a != b implies (
            #[trigger] d[a]).0 != (#[trigger] d[b]).0 by {
                assert(d[a] == entries[a] && d[b] == entries[b]);
            }
        }
        lemma_map_of_update(d, i, v);
        assert(d[i] == entries[i]);
        assert(n.drop_last() =~= d.update(i, (k, v)));
        assert(n.last() == entries.last());
        assert(entries[i].0 != entries[entries.len() - 1].0);
        assert(map_of(n) =~= map_of(entries).insert(k, v));
    }
}

impl TagMap {
    /// The entries in the order in which their keys first came.
    pub closed spec fn entries(&self) -> Seq<(Seq<u8>, Seq<u8>)> {
        Seq::new(self.entries@.len(), |i: int| (self.entries@[i].0@, self.entries@[i].1@))
    }

    /// No key occurs twice among the entries.
    pub open spec fn wf(&self) -> bool {
        distinct_keys(self.entries())
    }

    /// The map is that of its entries.
    pub proof fn lemma_view(&self)
        ensures
            self@ == map_of(self.entries()),
    {
    }

    /// An empty map.
    pub fn new() -> (m: Self)
        ensures
            m.wf(),
            m@ == Map::<Seq<u8>, Seq<u8>>::empty(),
            m.entries() == Seq::<(Seq<u8>, Seq<u8>)>::empty(),
    {
        let m = TagMap { entries: Vec::new() };
        assert(m.entries() =~= Seq::empty());
        m
    }

    /// Number of entries.
    pub fn len(&self) -> (n: usize)
        ensures
            n == self.entries().len(),
    {
        self.entries.len()
    }

    /// Whether there is no entry.
    pub fn is_empty(&self) -> (b: bool)
        ensures
            b == (self.entries().len() == 0),
    {
        self.entries.len() == 0
    }

    /// The key of entry `i`.
    pub fn key_at(&self, i: usize) -> (k: &Vec<u8>)
        requires
            i < self.entries().len(),
        ensures
            k@ == self.entries()[i as int].0,
    {
        &self.entries[i].0
    }

    /// The value of entry `i`.
    pub fn value_at(&self, i: usize) -> (v: &Vec<u8>)
        requires
            i < self.entries().len(),
        ensures
            v@ == self.entries()[i as int].1,
    {
        &self.entries[i].1
    }

    /// Index of the entry with the key `key`, if there is one.
    pub fn position(&self, key: &[u8]) -> (r: Option<usize>)
        ensures
            match r {
                Some(i) => i < self.entries().len() && self.entries()[i as int].0 == key@,
                None => forall|i: int|
                    0 <= i < self.entries().len() ==> (#[trigger] self.entries()[i]).0 != key@,
            },
    {
        let mut i: usize = 0;
        while i < self.entries.len()
            invariant
                i <= self.entries.len(),
                forall|j: int| 0 <= j < i ==> (#[trigger] self.entries()[j]).0 != key@,
            decreases self.entries.len() - i,
        {
            if bytes_eq(self.entries[i].0.as_slice(), key) {
                return Some(i);
            }
            i += 1;
        }
        None
    }

    /// The value under `key`, if there is one.
    pub fn get(&self, key: &[u8]) -> (r: Option<&Vec<u8>>)
        requires
            self.wf(),
        ensures
            match r {
                Some(v) => self@.dom().contains(key@) && self@[key@] == v@,
                None => !self@.dom().contains(key@),
            },
    {
        proof {
            lemma_map_of_keys(self.entries(), key@);
        }
        match self.position(key) {
            Some(i) => {
                proof {
                    lemma_map_of_value(self.entries(), i as int);
                }
                Some(&self.entries[i].1)
            },
            None => None,
        }
    }

    /// Puts `value` under `key`, in place of the value that was there, if any.
    pub fn insert(&mut self, key: Vec<u8>, value: Vec<u8>)
        requires
            old(self).wf(),
        ensures
            final(self).wf(),
            final(self)@ == old(self)@.insert(key@, value@),
            final(self).entries() == match old(self).index_of(key@) {
                Some(i) => old(self).entries().update(i, (key@, value@)),
                None => old(self).entries().push((key@, value@)),
            },
    {
        let ghost before = self.entries();
        match self.position(key.as_slice()) {
            Some(i) => {
                proof {
                    lemma_map_of_update(before, i as int, value@);
                    assert(old(self).index_of(key@) == Some(i as int));
                }
                self.entries[i] = (key, value);
                assert(self.entries() =~= before.update(i as int, (key@, value@)));
            },
            None => {
                self.entries.push((key, value));
                assert(self.entries() =~= before.push((key@, value@)));
                assert(self.entries().drop_last() =~= before);
            },
        }
    }

    /// Index of the entry with the key `k`, if there is one.
    pub open spec fn index_of(&self, k: Seq<u8>) -> Option<int> {
        if exists|i: int| 0 <= i < self.entries().len() && (#[trigger] self.entries()[i]).0 == k {
            Some(
                choose|i: int|
                    0 <= i < self.entries().len() && (#[trigger] self.entries()[i]).0 == k,
            )
        } else {
            None
        }
    }
}

/// The number that the digits `tag[i..j]` spell behind the digits that gave `acc`.
pub open spec fn digits_value(tag: Seq<u8>, i: int, j: int, acc: nat) -> nat
    decreases j - i,
{
    if j <= i {
        acc
    } else {
        (digits_value(tag, i, j - 1, acc) * 10 + (tag[j - 1] - 48)) as nat
    }
}

/// Reads the digits from `i` on: the number they spell behind `acc` and the
/// index of the byte that ends them, or `None` where they run to the end.
pub open spec fn read_number(tag: Seq<u8>, i: int, acc: nat) -> Option<(nat, int)>
    decreases tag.len() - i,
{
    if i >= tag.len() || i < 0 {
        None
    } else if is_digit(tag[i]) {
        read_number(tag, i + 1, (acc * 10 + (tag[i] - 48)) as nat)
    } else {
        Some((acc, i))
    }
}

/// What reading one record gives.
pub enum TagStep {
    /// A key, a value and the index behind the record.
    Entry(Seq<u8>, Seq<u8>, int),
    /// The payload ends inside the record: the payload is done.
    Pause,
    /// The record is malformed: all reading of tags is done.
    Stop,
}

/// Reads the record `<namelen>:<name>=<valuelen>:<value>,` that starts at `i`.
pub open spec fn read_record(tag: Seq<u8>, i: int) -> TagStep {
    match read_number(tag, i, 0) {
        None => TagStep::Pause,
        Some((namelen, j)) => if tag[j] != 58 {
            TagStep::Stop
        } else {
            let a = j + 1;
            if a + namelen >= tag.len() {
                TagStep::Pause
            } else if tag[a + namelen] != 61 {
                TagStep::Stop
            } else {
                match read_number(tag, a + namelen + 1, 0) {
                    None => TagStep::Pause,
                    Some((valuelen, k)) => if tag[k] != 58 {
                        TagStep::Stop
                    } else {
                        let b = k + 1;
                        if b + valuelen >= tag.len() {
                            TagStep::Stop
                        } else if tag[b + valuelen] != 44 {
                            TagStep::Stop
                        } else {
                            TagStep::Entry(
                                tag.subrange(a, a + namelen),
                                tag.subrange(b, b + valuelen),
                                b + valuelen + 1,
                            )
                        }
                    },
                }
            }
        },
    }
}

/// Reads the records of a payload from `i` on into `tags`. With the tags
/// comes whether the reading of further chunks goes on.
pub open spec fn parse_tags(tag: Seq<u8>, i: int, tags: Map<Seq<u8>, Seq<u8>>) -> (
    Map<Seq<u8>, Seq<u8>>,
    bool,
)
    decreases tag.len() - i,
{
    if i >= tag.len() || i < 0 {
        (tags, true)
    } else {
        match read_record(tag, i) {
            TagStep::Entry(k, v, next) => if next > i {
                parse_tags(tag, next, tags.insert(k, v))
            } else {
                (tags, false)
            },
            TagStep::Pause => (tags, true),
            TagStep::Stop => (tags, false),
        }
    }
}

/// The bytes of one record.
pub open spec fn record_bytes(k: Seq<u8>, v: Seq<u8>) -> Seq<u8> {
    decimal(k.len()) + seq![58u8] + k + seq![61u8] + decimal(v.len()) + seq![58u8] + v + seq![
        44u8,
    ]
}

/// The payload of a `tags` chunk: the records of the entries in their order.
pub open spec fn tags_bytes(entries: Seq<(Seq<u8>, Seq<u8>)>) -> Seq<u8>
    decreases entries.len(),
{
    if entries.len() == 0 {
        Seq::empty()
    } else {
        tags_bytes(entries.drop_last()) + record_bytes(entries.last().0, entries.last().1)
    }
}

proof fn lemma_digits_value_front(tag: Seq<u8>, i: int, j: int, acc: nat)
    requires
        0 <= i < j <= tag.len(),
        forall|x: int| i <= x < j ==> is_digit(#[trigger] tag[x]),
    ensures
        digits_value(tag, i, j, acc) == digits_value(
            tag,
            i + 1,
            j,
            (acc * 10 + (tag[i] - 48)) as nat,
        ),
    decreases j - i,
{
    if j > i + 1 {
        lemma_digits_value_front(tag, i, j - 1, acc);
    } else {
        assert(digits_value(tag, i, i, acc) == acc);
        assert(digits_value(tag, i + 1, i + 1, (acc * 10 + (tag[i] - 48)) as nat) == (acc * 10 + (
        tag[i] - 48)) as nat);
    }
}

/// Reading a run of digits gives the number they spell and the index of the
/// byte that ends them, or nothing where the run ends the payload.
pub proof fn lemma_read_number(tag: Seq<u8>, i: int, j: int, acc: nat)
    requires
        0 <= i <= j <= tag.len(),
        forall|x: int| i <= x < j ==> is_digit(#[trigger] tag[x]),
        j < tag.len() ==> !is_digit(tag[j]),
    ensures
        read_number(tag, i, acc) == if j < tag.len() {
            Some((digits_value(tag, i, j, acc), j))
        } else {
            None
        },
    decreases j - i,
{
    if i < j {
        lemma_digits_value_front(tag, i, j, acc);
        lemma_read_number(tag, i + 1, j, (acc * 10 + (tag[i] - 48)) as nat);
    }
}

/// The digits of a number in decimal notation spell that number.
pub proof fn lemma_digits_value_decimal(tag: Seq<u8>, i: int, n: nat)
    requires
        0 <= i,
        i + decimal(n).len() <= tag.len(),
        tag.subrange(i, i + decimal(n).len()) == decimal(n),
    ensures
        digits_value(tag, i, i + decimal(n).len(), 0) == n,
    decreases n,
{
    let d = decimal(n);
    let k = d.len() as int;
    assert(tag[i + k - 1] == tag.subrange(i, i + k)[k - 1]);
    if n < 10 {
        assert(digits_value(tag, i, i, 0) == 0);
    } else {
        let e = decimal(n / 10);
        assert(d.drop_last() =~= e);
        assert(tag.subrange(i, i + e.len()) =~= tag.subrange(i, i + k).drop_last());
        lemma_digits_value_decimal(tag, i, n / 10);
    }
}

/// Reads a run of digits that starts at `i`: the number, capped where it
/// does not fit, and the index of the byte that ends the run.
fn scan_number(tag: &[u8], i: usize) -> (r: Option<(usize, usize)>)
    requires
        i <= tag.len(),
    ensures
        match read_number(tag@, i as int, 0) {
            None => r is None,
            Some((n, j)) => r matches Some((v, at)) && at == j && i <= j < tag.len() && (v == n || (
            v == usize::MAX && n > usize::MAX)),
        },
{
    let mut acc: usize = 0;
    let mut j = i;
    while j < tag.len() && tag[j] >= 48 && tag[j] <= 57
        invariant
            i <= j <= tag.len(),
            forall|x: int| i <= x < j ==> is_digit(#[trigger] tag@[x]),
            acc == digits_value(tag@, i as int, j as int, 0) || (acc == usize::MAX && digits_value(
                tag@,
                i as int,
                j as int,
                0,
            ) > usize::MAX),
        decreases tag.len() - j,
    {
        let d = (tag[j] - 48) as usize;
        acc = if acc > (usize::MAX - d) / 10 {
            usize::MAX
        } else {
            acc * 10 + d
        };
        j += 1;
    }
    proof {
        lemma_read_number(tag@, i as int, j as int, 0);
    }
    if j >= tag.len() {
        None
    } else {
        Some((acc, j))
    }
}

/// The outcome of `parse_record`: an entry with the index behind it, or how
/// the reading ends.
enum Record {
    Entry(Vec<u8>, Vec<u8>, usize),
    Pause,
    Stop,
}

/// Copies `tag[from..to]`.
fn copy_range(tag: &[u8], from: usize, to: usize) -> (v: Vec<u8>)
    requires
        from <= to <= tag.len(),
    ensures
        v@ == tag@.subrange(from as int, to as int),
{
    let mut v: Vec<u8> = Vec::new();
    let mut i = from;
    while i < to
        invariant
            from <= i <= to <= tag.len(),
            v@ == tag@.subrange(from as int, i as int),
        decreases to - i,
    {
        v.push(tag[i]);
        i += 1;
        assert(v@ =~= tag@.subrange(from as int, i as int));
    }
    v
}

/// Reads the record that starts at `i`.
fn parse_record(tag: &[u8], i: usize) -> (r: Record)
    requires
        i <= tag.len(),
    ensures
        match read_record(tag@, i as int) {
            TagStep::Entry(k, v, next) => r matches Record::Entry(key, value, at) && key@ == k
                && value@ == v && at == next && i < at <= tag.len(),
            TagStep::Pause => r is Pause,
            TagStep::Stop => r is Stop,
        },
{
    let len = tag.len();
    let (namelen, j) = match scan_number(tag, i) {
        None => {
            return Record::Pause;
        },
        Some(p) => p,
    };
    if tag[j] != 58 {
        return Record::Stop;
    }
    let a = j + 1;
    if namelen >= len - a {
        return Record::Pause;
    }
    if tag[a + namelen] != 61 {
        return Record::Stop;
    }
    let (valuelen, k) = match scan_number(tag, a + namelen + 1) {
        None => {
            return Record::Pause;
        },
        Some(p) => p,
    };
    if tag[k] != 58 {
        return Record::Stop;
    }
    let b = k + 1;
    if valuelen >= len - b {
        return Record::Stop;
    }
    if tag[b + valuelen] != 44 {
        return Record::Stop;
    }
    let key = copy_range(tag, a, a + namelen);
    let value = copy_range(tag, b, b + valuelen);
    Record::Entry(key, value, b + valuelen + 1)
}

impl TagMap {
    /// Reads the records of the payload of a `tags` chunk into the map, as
    /// far as they are well formed. Returns whether the reading of further
    /// chunks goes on.
    pub fn parse(&mut self, tag: &[u8]) -> (go_on: bool)
        requires
            old(self).wf(),
        ensures
            final(self).wf(),
            (final(self)@, go_on) == parse_tags(tag@, 0, old(self)@),
    {
        let mut i: usize = 0;
        while i < tag.len()
            invariant
                i <= tag.len(),
                self.wf(),
                parse_tags(tag@, 0, old(self)@) == parse_tags(tag@, i as int, self@),
            decreases tag.len() - i,
        {
            match parse_record(tag, i) {
                Record::Entry(key, value, next) => {
                    self.insert(key, value);
                    i = next;
                },
                Record::Pause => {
                    return true;
                },
                Record::Stop => {
                    return false;
                },
            }
        }
        true
    }

    /// The payload of a `tags` chunk for the entries of the map, in their order.
    pub fn serialize(&self) -> (out: Vec<u8>)
        ensures
            out@ == tags_bytes(self.entries()),
    {
        let mut out: Vec<u8> = Vec::new();
        let mut i: usize = 0;
        while i < self.entries.len()
            invariant
                i <= self.entries.len(),
                out@ == tags_bytes(self.entries().take(i as int)),
            decreases self.entries.len() - i,
        {
            let ghost before = out@;
            let k = &self.entries[i].0;
            let v = &self.entries[i].1;
            push_decimal(&mut out, k.len());
            out.push(58);
            push_all(&mut out, k.as_slice());
            out.push(61);
            push_decimal(&mut out, v.len());
            out.push(58);
            push_all(&mut out, v.as_slice());
            out.push(44);
            i += 1;
            proof {
                assert(self.entries().take(i as int).drop_last() =~= self.entries().take(i - 1));
                assert(out@ =~= before + record_bytes(k@, v@));
            }
        }
        assert(self.entries().take(self.entries.len() as int) =~= self.entries());
        out
    }
}

/// Appends `bytes` to `out`.
pub fn push_all(out: &mut Vec<u8>, bytes: &[u8])
    ensures
        final(out)@ == old(out)@ + bytes@,
{
    let mut i: usize = 0;
    while i < bytes.len()
        invariant
            i <= bytes.len(),
            out@ == old(out)@ + bytes@.take(i as int),
        decreases bytes.len() - i,
    {
        out.push(bytes[i]);
        i += 1;
        assert(out@ =~= old(out)@ + bytes@.take(i as int));
    }
    assert(bytes@.take(bytes@.len() as int) =~= bytes@);
}

} // verus!
