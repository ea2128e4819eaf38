//! Byte sources and sinks in memory, with little-endian integers.
use crate::types::TlgError;
use vstd::prelude::*;
use vstd::slice::slice_subrange;

verus! {

/// The value of four bytes, least significant first.
pub open spec fn le_u32(b0: u8, b1: u8, b2: u8, b3: u8) -> u32 {
    (b0 as int + 256 * (b1 as int) + 65536 * (b2 as int) + 16777216 * (b3 as int)) as u32
}

/// The little-endian value of the first four bytes of `s`.
pub open spec fn u32_at(s: Seq<u8>, i: int) -> u32 {
    le_u32(s[i], s[i + 1], s[i + 2], s[i + 3])
}

/// The four bytes of a value, least significant first.
pub open spec fn u32_bytes(v: u32) -> Seq<u8> {
    seq![
        (v as int % 256) as u8,
        (v as int / 256 % 256) as u8,
        (v as int / 65536 % 256) as u8,
        (v as int / 16777216) as u8,
    ]
}

/// The low 32 bits of a length: the length itself where it is below 2^32.
#[verifier::opaque]
pub open spec fn low32(n: int) -> u32 {
    (n % 0x1_0000_0000) as u32
}

/// A length below 2^32 is its own low 32 bits.
pub proof fn lemma_low32(n: int)
    requires
        0 <= n <= u32::MAX,
    ensures
        low32(n) == n,
{
    reveal(low32);
}

/// The low 32 bits of a length.
pub fn low32_of(n: u128) -> (v: u32)
    ensures
        v == low32(n as int),
{
    reveal(low32);
    (n % 0x1_0000_0000) as u32
}

/// A value is read back from its four bytes.
pub proof fn lemma_u32_bytes(v: u32)
    ensures
        u32_bytes(v).len() == 4,
        u32_at(u32_bytes(v), 0) == v,
{
}

/// Assembles a value from four bytes, least significant first.
pub fn u32_from_le(b0: u8, b1: u8, b2: u8, b3: u8) -> (v: u32)
    ensures
        v == le_u32(b0, b1, b2, b3),
{
    let v = (b0 as u32) | ((b1 as u32) << 8) | ((b2 as u32) << 16) | ((b3 as u32) << 24);
    assert(v == b0 as u32 + 256 * (b1 as u32) + 65536 * (b2 as u32) + 16777216 * (b3 as u32))
        by (bit_vector)
        requires
            v == (b0 as u32) | ((b1 as u32) << 8) | ((b2 as u32) << 16) | ((b3 as u32) << 24),
    ;
    v
}

/// Splits a value into four bytes, least significant first.
pub fn u32_to_le(v: u32) -> (b: [u8; 4])
    ensures
        b@ == u32_bytes(v),
{
    let b0 = (v & 0xff) as u8;
    let b1 = ((v >> 8) & 0xff) as u8;
    let b2 = ((v >> 16) & 0xff) as u8;
    let b3 = ((v >> 24) & 0xff) as u8;
    assert(b0 == v % 256 && b1 == v / 256 % 256 && b2 == v / 65536 % 256 && b3 == v / 16777216)
        by (bit_vector)
        requires
            b0 == (v & 0xff) as u8,
            b1 == ((v >> 8) & 0xff) as u8,
            b2 == ((v >> 16) & 0xff) as u8,
            b3 == ((v >> 24) & 0xff) as u8,
    ;
    let b = [b0, b1, b2, b3];
    assert(b@ =~= u32_bytes(v));
    b
}

/// Reading little-endian integers from a byte source.
pub trait ReadExt {
    /// The bytes that have not been read yet.
    spec fn unread(&self) -> Seq<u8>;

    /// Reads four bytes as a little-endian value; fails, and reads nothing,
    /// where fewer are left.
    fn read_u32(&mut self) -> (r: Result<u32, TlgError>)
        ensures
            match r {
                Ok(v) => old(self).unread().len() >= 4 && v == u32_at(old(self).unread(), 0)
                    && final(self).unread() == old(self).unread().skip(4),
                Err(e) => old(self).unread().len() < 4 && e == TlgError::Io && final(self).unread()
                    == old(self).unread(),
            },
    ;

    /// Reads one byte; fails where none is left.
    fn read_u8(&mut self) -> (r: Result<u8, TlgError>)
        ensures
            match r {
                Ok(v) => old(self).unread().len() >= 1 && v == old(self).unread()[0]
                    && final(self).unread() == old(self).unread().skip(1),
                Err(e) => old(self).unread().len() < 1 && e == TlgError::Io && final(self).unread()
                    == old(self).unread(),
            },
    ;
}

/// Writing little-endian integers to a byte sink.
pub trait WriteExt {
    /// The bytes written so far.
    spec fn written(&self) -> Seq<u8>;

    /// Appends the four bytes of `value`, least significant first.
    fn write_u32(&mut self, value: u32)
        ensures
            final(self).written() == old(self).written() + u32_bytes(value),
    ;

    /// Appends one byte.
    fn write_u8(&mut self, value: u8)
        ensures
            final(self).written() == old(self).written().push(value),
    ;
}

/// A byte source over a slice, with a read position.
pub struct ByteReader<'a> {
    data: &'a [u8],
    pos: usize,
}

impl<'a> ByteReader<'a> {
    /// All bytes of the source.
    pub closed spec fn source(&self) -> Seq<u8> {
        self.data@
    }

    /// The bytes from the read position on.
    pub closed spec fn remaining(&self) -> Seq<u8> {
        if self.pos <= self.data@.len() {
            self.data@.skip(self.pos as int)
        } else {
            Seq::empty()
        }
    }

    /// A source over `data`, positioned at its start.
    pub fn new(data: &'a [u8]) -> (r: Self)
        ensures
            r.source() == data@,
            r.remaining() == data@,
    {
        assert(data@.skip(0) =~= data@);
        ByteReader { data, pos: 0 }
    }

    /// Moves the read position back to the start.
    pub fn rewind(&mut self)
        ensures
            final(self).source() == old(self).source(),
            final(self).remaining() == old(self).source(),
    {
        self.pos = 0;
        assert(self.data@.skip(0) =~= self.data@);
    }

    /// Brings a read position behind the end back to the end.
    fn settle(&mut self)
        ensures
            final(self).source() == old(self).source(),
            final(self).remaining() == old(self).remaining(),
            final(self).pos <= final(self).data@.len(),
    {
        if self.pos > self.data.len() {
            self.pos = self.data.len();
            assert(self.data@.skip(self.pos as int) =~= Seq::<u8>::empty());
        }
    }

    /// Number of bytes from the read position on.
    pub fn left(&self) -> (n: usize)
        ensures
            n == self.remaining().len(),
    {
        if self.pos <= self.data.len() {
            self.data.len() - self.pos
        } else {
            0
        }
    }

    /// Moves the read position `n` bytes on, or to the end where fewer are left.
    pub fn skip(&mut self, n: u64)
        ensures
            final(self).source() == old(self).source(),
            final(self).remaining() == if n <= old(self).remaining().len() {
                old(self).remaining().skip(n as int)
            } else {
                Seq::empty()
            },
    {
        self.settle();
        let left = self.data.len() - self.pos;
        if n <= left as u64 {
            self.pos = self.pos + n as usize;
            assert(self.data@.skip(self.pos as int) =~= old(self).remaining().skip(n as int));
        } else {
            self.pos = self.data.len();
            assert(self.data@.skip(self.pos as int) =~= Seq::<u8>::empty());
        }
    }

    /// Moves the read position to offset `at` of the source, or to the end
    /// where the source is shorter.
    pub fn seek(&mut self, at: u64)
        ensures
            final(self).source() == old(self).source(),
            final(self).remaining() == if at <= old(self).source().len() {
                old(self).source().skip(at as int)
            } else {
                Seq::empty()
            },
    {
        if at <= self.data.len() as u64 {
            self.pos = at as usize;
        } else {
            self.pos = self.data.len();
            assert(self.data@.skip(self.pos as int) =~= Seq::<u8>::empty());
        }
    }

    /// Reads `n` bytes; fails, and reads nothing, where fewer are left.
    pub fn read_exact(&mut self, n: usize) -> (r: Result<&'a [u8], TlgError>)
        ensures
            final(self).source() == old(self).source(),
            match r {
                Ok(b) => n <= old(self).remaining().len() && b@ == old(self).remaining().take(
                    n as int,
                ) && final(self).remaining() == old(self).remaining().skip(n as int),
                Err(e) => n > old(self).remaining().len() && e == TlgError::Io
                    && final(self).remaining() == old(self).remaining(),
            },
    {
        self.settle();
        if n > self.data.len() - self.pos {
            return Err(TlgError::Io);
        }
        let b = slice_subrange(self.data, self.pos, self.pos + n);
        assert(b@ =~= self.remaining().take(n as int));
        self.pos = self.pos + n;
        assert(self.data@.skip(self.pos as int) =~= old(self).remaining().skip(n as int));
        Ok(b)
    }
}

impl<'a> ReadExt for ByteReader<'a> {
    open spec fn unread(&self) -> Seq<u8> {
        self.remaining()
    }

    fn read_u32(&mut self) -> (r: Result<u32, TlgError>)
        ensures
            final(self).source() == old(self).source(),
    {
        match self.read_exact(4) {
            Ok(b) => Ok(u32_from_le(b[0], b[1], b[2], b[3])),
            Err(e) => Err(e),
        }
    }

    fn read_u8(&mut self) -> (r: Result<u8, TlgError>)
        ensures
            final(self).source() == old(self).source(),
    {
        match self.read_exact(1) {
            Ok(b) => Ok(b[0]),
            Err(e) => Err(e),
        }
    }
}

/// A byte sink in memory that grows at its end and can be patched.
pub struct ByteWriter {
    buf: Vec<u8>,
}

impl View for ByteWriter {
    type V = Seq<u8>;

    closed spec fn view(&self) -> Seq<u8> {
        self.buf@
    }
}

impl ByteWriter {
    /// An empty sink.
    pub fn new() -> (w: Self)
        ensures
            w@ == Seq::<u8>::empty(),
    {
        ByteWriter { buf: Vec::new() }
    }

    /// Number of bytes written so far.
    pub fn stream_position(&self) -> (n: usize)
        ensures
            n == self@.len(),
    {
        self.buf.len()
    }

    /// Appends `bytes`.
    pub fn write_all(&mut self, bytes: &[u8])
        ensures
            final(self)@ == old(self)@ + bytes@,
    {
        let mut i: usize = 0;
        while i < bytes.len()
            invariant
                i <= bytes.len(),
                self.buf@ == old(self).buf@ + bytes@.take(i as int),
            decreases bytes.len() - i,
        {
            self.buf.push(bytes[i]);
            i += 1;
            assert(self.buf@ =~= old(self).buf@ + bytes@.take(i as int));
        }
        assert(bytes@.take(bytes@.len() as int) =~= bytes@);
    }

    /// Overwrites the four bytes at offset `at` with `value`, least
    /// significant first. Nothing changes where they are not all written yet.
    pub fn patch_u32(&mut self, at: usize, value: u32)
        ensures
            final(self)@ == if at + 4 <= old(self)@.len() {
                old(self)@.take(at as int) + u32_bytes(value) + old(self)@.skip(at + 4)
            } else {
                old(self)@
            },
    {
        if self.buf.len() < 4 || at > self.buf.len() - 4 {
            return ;
        }
        let b = u32_to_le(value);
        self.buf[at] = b[0];
        self.buf[at + 1] = b[1];
        self.buf[at + 2] = b[2];
        self.buf[at + 3] = b[3];
        assert(self.buf@ =~= old(self)@.take(at as int) + u32_bytes(value) + old(self)@.skip(
            at + 4,
        ));
    }

    /// The bytes written.
    pub fn into_bytes(self) -> (b: Vec<u8>)
        ensures
            b@ == self@,
    {
        self.buf
    }
}

impl WriteExt for ByteWriter {
    open spec fn written(&self) -> Seq<u8> {
        self@
    }

    fn write_u32(&mut self, value: u32) {
        let b = u32_to_le(value);
        self.buf.push(b[0]);
        self.buf.push(b[1]);
        self.buf.push(b[2]);
        self.buf.push(b[3]);
        assert(self.buf@ =~= old(self).buf@ + u32_bytes(value));
    }

    fn write_u8(&mut self, value: u8) {
        self.buf.push(value);
    }
}

} // verus!
