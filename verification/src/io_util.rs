//! An in-memory, seekable byte stream and the reading and writing helpers
//! built on it.

use vstd::prelude::*;
use crate::error::Error;

verus! {

/// The four bytes of `x`, least significant first.
pub open spec fn le_bytes(x: u32) -> Seq<u8> {
    seq![
        (x & 0xff) as u8,
        ((x >> 8) & 0xff) as u8,
        ((x >> 16) & 0xff) as u8,
        ((x >> 24) & 0xff) as u8,
    ]
}

/// The number whose little-endian bytes lie at `pos` in `data`.
pub open spec fn u32_at(data: Seq<u8>, pos: nat) -> u32
    recommends
        pos + 4 <= data.len(),
{
    let at = pos as int;
    (data[at] as u32) | (data[at + 1] as u32) << 8 | (data[at + 2] as u32) << 16 | (data[at
        + 3] as u32) << 24
}

/// Reading back the bytes of a number gives the number.
pub proof fn lemma_le_bytes_round_trip(x: u32)
    ensures
        le_bytes(x).len() == 4,
        u32_at(le_bytes(x), 0) == x,
{
    assert(x & 0xff < 256 && (x >> 8) & 0xff < 256 && (x >> 16) & 0xff < 256 && (x >> 24) & 0xff
        < 256) by (bit_vector);
    assert(x == ((x & 0xff) | ((x >> 8) & 0xff) << 8 | ((x >> 16) & 0xff) << 16 | ((x >> 24)
        & 0xff) << 24)) by (bit_vector);
}

/// Where the bytes of `x` lie at `pos` in `data`, `x` is read there.
pub proof fn lemma_u32_at_le_bytes(data: Seq<u8>, pos: nat, x: u32)
    requires
        pos + 4 <= data.len(),
        data.subrange(pos as int, pos as int + 4) == le_bytes(x),
    ensures
        u32_at(data, pos) == x,
{
    lemma_le_bytes_round_trip(x);
    let at = pos as int;
    let part = data.subrange(at, at + 4);
    assert(part[0] == data[at]);
    assert(part[1] == data[at + 1]);
    assert(part[2] == data[at + 2]);
    assert(part[3] == data[at + 3]);
}

/// `data` after `bytes` have been written at `pos`: bytes in the way are
/// replaced, a gap before `pos` is filled with zeros, and writing nothing
/// changes nothing.
#[verifier::opaque]
pub open spec fn write_at(data: Seq<u8>, pos: nat, bytes: Seq<u8>) -> Seq<u8> {
    if bytes.len() == 0 {
        data
    } else {
        Seq::new(
            if data.len() > pos + bytes.len() {
                data.len()
            } else {
                pos + bytes.len()
            },
            |i: int|
                if pos <= i < pos + bytes.len() {
                    bytes[i - pos]
                } else if i < data.len() {
                    data[i]
                } else {
                    0u8
                },
        )
    }
}

/// A stream as contracts see it: its bytes and its position.
pub struct StreamView {
    pub data: Seq<u8>,
    pub pos: nat,
}

impl StreamView {
    /// How many bytes lie at or after the position.
    pub open spec fn available(self) -> nat {
        if self.pos <= self.data.len() {
            (self.data.len() - self.pos) as nat
        } else {
            0
        }
    }

    /// The bytes at and after the position.
    pub open spec fn remaining(self) -> Seq<u8> {
        if self.pos <= self.data.len() {
            self.data.subrange(self.pos as int, self.data.len() as int)
        } else {
            Seq::empty()
        }
    }

    /// The same bytes, positioned at `pos`.
    pub open spec fn seek(self, pos: nat) -> StreamView {
        StreamView { data: self.data, pos }
    }

    /// The same bytes, positioned `n` further on.
    pub open spec fn advance(self, n: nat) -> StreamView {
        StreamView { data: self.data, pos: self.pos + n }
    }

    /// The same bytes, positioned at the end unless already beyond it.
    pub open spec fn exhaust(self) -> StreamView {
        StreamView {
            data: self.data,
            pos: if self.pos < self.data.len() {
                self.data.len()
            } else {
                self.pos
            },
        }
    }

    /// The stream after `bytes` have been written at the position.
    pub open spec fn write(self, bytes: Seq<u8>) -> StreamView {
        StreamView { data: write_at(self.data, self.pos, bytes), pos: self.pos + bytes.len() }
    }
}

/// Bytes written within `data` change its length not at all and its
/// content only where they lie.
pub proof fn lemma_write_at_inside(data: Seq<u8>, pos: nat, bytes: Seq<u8>)
    requires
        pos + bytes.len() <= data.len(),
    ensures
        write_at(data, pos, bytes).len() == data.len(),
        forall|i: int|
            0 <= i < data.len() ==> #[trigger] write_at(data, pos, bytes)[i] == if pos <= i < pos
                + bytes.len() {
                bytes[i - pos]
            } else {
                data[i]
            },
{
    reveal(write_at);
}

/// Bytes written at the end of `data` follow it.
pub proof fn lemma_write_at_end(data: Seq<u8>, bytes: Seq<u8>)
    ensures
        write_at(data, data.len(), bytes) == data + bytes,
{
    reveal(write_at);
    assert(write_at(data, data.len(), bytes) =~= data + bytes);
}

/// Writing nothing leaves a stream as it is.
pub proof fn lemma_write_nothing(s: StreamView)
    ensures
        s.write(Seq::empty()) == s,
{
    reveal(write_at);
}

/// Writing `a` and then `b` is writing `a` followed by `b`.
pub proof fn lemma_write_write(s: StreamView, a: Seq<u8>, b: Seq<u8>)
    ensures
        s.write(a).write(b) == s.write(a + b),
{
    reveal(write_at);
    assert(s.write(a).write(b).data =~= s.write(a + b).data);
}

/// A growable byte buffer with a position, read and written in place.
pub struct ByteStream {
    data: Vec<u8>,
    pos: u64,
}

impl View for ByteStream {
    type V = StreamView;

    closed spec fn view(&self) -> StreamView {
        StreamView { data: self.data@, pos: self.pos as nat }
    }
}

impl ByteStream {
    /// A stream over `data`, positioned at its start.
    pub fn new(data: Vec<u8>) -> (s: ByteStream)
        ensures
            s@ == (StreamView { data: data@, pos: 0 }),
    {
        ByteStream { data, pos: 0 }
    }

    /// Gives up the stream for its bytes.
    pub fn into_inner(self) -> (data: Vec<u8>)
        ensures
            data@ == self@.data,
    {
        self.data
    }

    /// The bytes of the stream.
    pub fn get_ref(&self) -> (data: &Vec<u8>)
        ensures
            data@ == self@.data,
    {
        &self.data
    }

    /// The position, counted from the start.
    pub fn stream_position(&self) -> (pos: u64)
        ensures
            pos == self@.pos,
    {
        self.pos
    }

    /// How many bytes lie at or after the position.
    pub fn available(&self) -> (count: usize)
        ensures
            count == self@.available(),
    {
        let end = self.data.len();
        if self.pos <= end as u64 {
            end - self.pos as usize
        } else {
            0
        }
    }

    /// Whether `len` bytes can be written at the position.
    pub fn has_room(&self, len: usize) -> (room: bool)
        ensures
            room <==> (len == 0 || self@.pos + len <= usize::MAX),
    {
        len == 0 || (self.pos <= usize::MAX as u64 && usize::MAX - self.pos as usize >= len)
    }

    /// Moves to the end, unless the position is beyond it already.
    pub fn exhaust(&mut self)
        ensures
            final(self)@ == old(self)@.exhaust(),
    {
        let end = self.data.len() as u64;
        if self.pos < end {
            self.pos = end;
        }
    }

    /// Moves to `pos`, which may lie beyond the end.
    pub fn seek(&mut self, pos: u64)
        ensures
            final(self)@ == old(self)@.seek(pos as nat),
    {
        self.pos = pos;
    }

    /// Moves `count` bytes forward, also beyond the end. Fails, leaving the
    /// stream as it was, when the position would leave the 64-bit range.
    pub fn skip(&mut self, count: u64) -> (r: Result<(), Error>)
        ensures
            old(self)@.pos + count <= u64::MAX ==> r is Ok,
            old(self)@.pos + count > u64::MAX ==> r == Err::<(), Error>(Error::InvalidData),
            r is Ok ==> final(self)@ == old(self)@.advance(count as nat),
            r is Err ==> final(self)@ == old(self)@,
    {
        match self.pos.checked_add(count) {
            Some(pos) => {
                self.pos = pos;
                Ok(())
            },
            None => Err(Error::InvalidData),
        }
    }

    /// Copies as many bytes as `buf` takes and the stream still has, and
    /// moves past them. Returns how many.
    pub fn read(&mut self, buf: &mut [u8]) -> (n: usize)
        ensures
            n == old(buf)@.len() || n == old(self)@.available(),
            n <= old(buf)@.len(),
            n <= old(self)@.available(),
            final(buf)@ == old(self)@.remaining().take(n as int) + old(buf)@.skip(n as int),
            final(self)@ == old(self)@.advance(n as nat),
    {
        let len = self.data.len();
        let mut n: usize = 0;
        while n < buf.len() && self.pos < len as u64
            invariant
                len == self.data@.len(),
                self.data@ == old(self).data@,
                buf@.len() == old(buf)@.len(),
                n <= buf@.len(),
                self.pos == old(self).pos + n,
                n <= old(self)@.available(),
                self.pos < len ==> n < old(self)@.available(),
                forall|i: int| 0 <= i < n ==> buf@[i] == old(self)@.remaining()[i],
                forall|i: int| n <= i < buf@.len() ==> buf@[i] == old(buf)@[i],
            decreases buf@.len() - n,
        {
            buf[n] = self.data[self.pos as usize];
            n = n + 1;
            self.pos = self.pos + 1;
        }
        assert(buf@ =~= old(self)@.remaining().take(n as int) + old(buf)@.skip(n as int));
        n
    }

    /// Fills `buf` from the stream and moves past the bytes read. Where the
    /// stream has too few, nothing is copied and the stream is left at its
    /// end.
    pub fn read_exact(&mut self, buf: &mut [u8]) -> (r: Result<(), Error>)
        ensures
            r is Ok <==> old(self)@.available() >= old(buf)@.len(),
            r is Ok ==> final(buf)@ == old(self)@.remaining().take(old(buf)@.len() as int),
            r is Ok ==> final(self)@ == old(self)@.advance(old(buf)@.len()),
            r is Err ==> r == Err::<(), Error>(Error::UnexpectedEof),
            r is Err ==> final(buf)@ == old(buf)@ && final(self)@ == old(self)@.exhaust(),
    {
        if self.available() < buf.len() {
            self.exhaust();
            return Err(Error::UnexpectedEof);
        }
        let n = self.read(buf);
        assert(buf@ =~= old(self)@.remaining().take(old(buf)@.len() as int));
        Ok(())
    }

    /// Reads `len` bytes into a buffer of their own and moves past them.
    /// Where the stream has too few, it is left at its end.
    pub fn read_vec(&mut self, len: usize) -> (r: Result<Vec<u8>, Error>)
        ensures
            r is Ok <==> old(self)@.available() >= len,
            r is Ok ==> r->Ok_0@ == old(self)@.remaining().take(len as int),
            r is Ok ==> final(self)@ == old(self)@.advance(len as nat),
            r is Err ==> r == Err::<Vec<u8>, Error>(Error::UnexpectedEof),
            r is Err ==> final(self)@ == old(self)@.exhaust(),
    {
        if self.available() < len {
            self.exhaust();
            return Err(Error::UnexpectedEof);
        }
        let mut buf = vec![0u8; len];
        match self.read_exact(buf.as_mut_slice()) {
            Ok(()) => Ok(buf),
            Err(e) => Err(e),
        }
    }

    /// Writes `bytes` at the position and moves past them. Fails, leaving
    /// the stream as it was, when the buffer cannot reach that far.
    pub fn write_all(&mut self, bytes: &[u8]) -> (r: Result<(), Error>)
        ensures
            r is Ok <==> (bytes@.len() == 0 || old(self)@.pos + bytes@.len() <= usize::MAX),
            r is Ok ==> final(self)@ == old(self)@.write(bytes@),
            r is Err ==> r == Err::<(), Error>(Error::StorageFull) && final(self)@ == old(self)@,
    {
        let n = bytes.len();
        if n == 0 {
            proof {
                reveal(write_at);
            }
            return Ok(());
        }
        if self.pos > usize::MAX as u64 || usize::MAX - (self.pos as usize) < n {
            return Err(Error::StorageFull);
        }
        let start = self.pos as usize;
        while self.data.len() < start
            invariant
                self.pos == old(self).pos,
                start == self.pos,
                old(self).data@.len() <= self.data@.len(),
                self.data@.len() <= start || self.data@ == old(self).data@,
                forall|i: int|
                    0 <= i < old(self).data@.len() ==> self.data@[i] == old(self).data@[i],
                forall|i: int| old(self).data@.len() <= i < self.data@.len() ==> self.data@[i] == 0,
            decreases start - self.data@.len(),
        {
            self.data.push(0);
        }
        let ghost padded = self.data@;
        let mut i: usize = 0;
        while i < n
            invariant
                n == bytes@.len(),
                start + n <= usize::MAX,
                i <= n,
                start <= padded.len(),
                self.pos == old(self).pos,
                start == self.pos,
                self.data@.len() == if padded.len() > start + i {
                    padded.len() as int
                } else {
                    start + i
                },
                forall|j: int| start <= j < start + i ==> self.data@[j] == bytes@[j - start],
                forall|j: int|
                    0 <= j < self.data@.len() && !(start <= j < start + i) ==> self.data@[j]
                        == padded[j],
            decreases n - i,
        {
            if start + i < self.data.len() {
                self.data[start + i] = bytes[i];
            } else {
                self.data.push(bytes[i]);
            }
            i = i + 1;
        }
        self.pos = self.pos + n as u64;
        proof {
            reveal(write_at);
            let want = write_at(old(self).data@, old(self).pos as nat, bytes@);
            assert(padded.len() == if old(self).data@.len() > start {
                old(self).data@.len()
            } else {
                start as nat
            });
            assert(self.data@.len() == want.len());
            assert forall|j: int| 0 <= j < want.len() implies self.data@[j] == want[j] by {
                if start <= j < start + n {
                } else {
                    assert(self.data@[j] == padded[j]);
                }
            }
            assert(self.data@ =~= want);
        }
        Ok(())
    }
}

/// Reading until the buffer is full or the source has no more.
pub trait ReadFull: View<V = StreamView> {
    /// Fills `buf` as far as the source reaches, moves past the bytes read
    /// and returns how many they are.
    fn read_full(&mut self, buf: &mut [u8]) -> (r: Result<usize, Error>)
        ensures
            r is Ok,
            r->Ok_0 == old(buf)@.len() || r->Ok_0 == old(self)@.available(),
            r->Ok_0 <= old(buf)@.len(),
            r->Ok_0 <= old(self)@.available(),
            final(buf)@ == old(self)@.remaining().take(r->Ok_0 as int) + old(buf)@.skip(
                r->Ok_0 as int,
            ),
            final(self)@ == old(self)@.advance(r->Ok_0 as nat),
    ;
}

impl ReadFull for ByteStream {
    fn read_full(&mut self, buf: &mut [u8]) -> (r: Result<usize, Error>) {
        let total = buf.len();
        let mut pos: usize = 0;
        loop
            invariant
                pos <= total,
                total == buf@.len(),
                buf@.len() == old(buf)@.len(),
                pos <= old(self)@.available(),
                buf@ == old(self)@.remaining().take(pos as int) + old(buf)@.skip(pos as int),
                self@ == old(self)@.advance(pos as nat),
            decreases buf@.len() - pos,
        {
            let ghost before = buf@;
            let (_, rest) = buf.split_at_mut(pos);
            assert(rest@.len() == before.len() - pos);
            let n = self.read(rest);
            if n == 0 {
                assert(buf@ =~= before);
                return Ok(pos);
            }
            pos = pos + n;
            assert(buf@ =~= old(self)@.remaining().take(pos as int) + old(buf)@.skip(pos as int));
        }
    }
}

/// Reading numbers in little-endian byte order.
pub trait ReadNum: View<V = StreamView> {
    /// Reads four bytes as one number and moves past them. Where the
    /// source has too few, it is left at its end.
    fn read_u32_le(&mut self) -> (r: Result<u32, Error>)
        ensures
            r is Ok <==> old(self)@.available() >= 4,
            r is Ok ==> r->Ok_0 == u32_at(old(self)@.data, old(self)@.pos),
            r is Ok ==> final(self)@ == old(self)@.advance(4),
            r is Err ==> r == Err::<u32, Error>(Error::UnexpectedEof),
            r is Err ==> final(self)@ == old(self)@.exhaust(),
    ;
}

impl ReadNum for ByteStream {
    fn read_u32_le(&mut self) -> (r: Result<u32, Error>) {
        let mut buf = [0u8;4];
        self.read_exact(&mut buf)?;
        let x = (buf[0] as u32) | (buf[1] as u32) << 8 | (buf[2] as u32) << 16 | (buf[3] as u32)
            << 24;
        Ok(x)
    }
}

/// Writing numbers in little-endian byte order.
pub trait WriteNum: View<V = StreamView> {
    /// Writes `value` as four bytes and moves past them. Fails, leaving
    /// the sink as it was, when it cannot reach that far.
    fn write_u32_le(&mut self, value: u32) -> (r: Result<(), Error>)
        ensures
            r is Ok <==> old(self)@.pos + 4 <= usize::MAX,
            r is Ok ==> final(self)@ == old(self)@.write(le_bytes(value)),
            r is Err ==> r == Err::<(), Error>(Error::StorageFull) && final(self)@ == old(self)@,
    ;
}

impl WriteNum for ByteStream {
    fn write_u32_le(&mut self, value: u32) -> (r: Result<(), Error>) {
        let bytes = [
            (value & 0xff) as u8,
            ((value >> 8) & 0xff) as u8,
            ((value >> 16) & 0xff) as u8,
            ((value >> 24) & 0xff) as u8,
        ];
        assert(bytes@ =~= le_bytes(value));
        self.write_all(&bytes)
    }
}

} // verus!
