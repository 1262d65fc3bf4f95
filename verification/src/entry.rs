//! One entry of an archive: a named payload, where it lies and the seed
//! that keys its cipher.

use vstd::prelude::*;
use crate::codec::{codec, copied_len, run_codec};
use crate::error::Error;
use crate::io_util::ByteStream;

verus! {

/// An entry as contracts see it.
pub struct EntryView {
    pub name: Seq<char>,
    pub size: u32,
    pub offset: u32,
    pub magic: u32,
}

/// A named payload of an archive.
#[derive(Clone, Debug, Eq)]
pub struct RGSSArchiveEntry {
    /// The path of the payload, with `/` between its parts.
    pub name: String,
    /// The length of the payload in bytes.
    pub size: u32,
    /// Where the payload starts, counted from the start of the archive.
    pub offset: u32,
    /// The seed that keys the cipher of the payload.
    pub magic: u32,
}

impl View for RGSSArchiveEntry {
    type V = EntryView;

    open spec fn view(&self) -> EntryView {
        EntryView { name: self.name@, size: self.size, offset: self.offset, magic: self.magic }
    }
}

impl PartialEq for RGSSArchiveEntry {
    fn eq(&self, other: &Self) -> (equal: bool) {
        self.name == other.name && self.size == other.size && self.offset == other.offset
            && self.magic == other.magic
    }
}

impl vstd::std_specs::cmp::PartialEqSpecImpl for RGSSArchiveEntry {
    open spec fn obeys_eq_spec() -> bool {
        true
    }

    open spec fn eq_spec(&self, other: &Self) -> bool {
        self@ == other@
    }
}

impl Default for RGSSArchiveEntry {
    /// The entry without a name, a size, an offset or a seed.
    fn default() -> (entry: Self)
        ensures
            entry@ == (EntryView { name: Seq::empty(), size: 0, offset: 0, magic: 0 }),
    {
        RGSSArchiveEntry { name: String::new(), size: 0, offset: 0, magic: 0 }
    }
}

/// How a copy of `n` bytes to a destination positioned at `out_pos` ends:
/// the destination must reach far enough.
pub open spec fn copy_outcome(n: nat, out_pos: nat) -> Result<(), Error> {
    if n > 0 && out_pos + n > usize::MAX {
        Err(Error::StorageFull)
    } else {
        Ok(())
    }
}

/// How the copy of a whole payload of `size` bytes ends where the source
/// holds `available` bytes, of which `n` are to be moved to a destination
/// positioned at `out_pos`: the destination must reach far enough, and a
/// source that holds less than the payload is an error.
pub open spec fn whole_outcome(n: nat, size: u32, available: nat, out_pos: nat) -> Result<
    (),
    Error,
> {
    if n > 0 && out_pos + n > usize::MAX {
        Err(Error::StorageFull)
    } else if available < size {
        Err(Error::InvalidData)
    } else {
        Ok(())
    }
}

impl RGSSArchiveEntry {
    /// Decodes the payload: copies it from the archive `r`, where it starts
    /// at `self.offset`, to `w`, through the working buffer `buf`. Of a
    /// payload that the archive holds only in part, the part is copied,
    /// without error. Where `w` cannot take what is to be copied, nothing
    /// is copied.
    pub fn read(&self, buf: &mut [u8], r: &mut ByteStream, w: &mut ByteStream) -> (res: Result<
        (),
        Error,
    >)
        requires
            old(buf)@.len() % 4 == 0,
        ensures
            final(buf)@.len() == old(buf)@.len(),
            ({
                let src = old(r)@.seek(self.offset as nat);
                let n = copied_len(old(buf)@.len(), self.size, src.available());
                let moved = codec(src.remaining().take(n as int), self.magic);
                &&& res == copy_outcome(n, old(w)@.pos)
                &&& res is Ok ==> final(r)@ == src.advance(n) && final(w)@ == old(w)@.write(moved)
                &&& res is Err ==> final(r)@ == src && final(w)@ == old(w)@
            }),
    {
        r.seek(self.offset as u64);
        run_codec(buf, r, w, self.size, self.magic)?;
        Ok(())
    }

    /// Encodes the payload: copies it from `r`, at its position, into the
    /// archive `w`, where it starts at `self.offset`, through the working
    /// buffer `buf`. Of a source shorter than the payload, what it holds is
    /// copied, without error. Where `w` cannot take what is to be copied,
    /// nothing is copied.
    pub fn write(&self, buf: &mut [u8], w: &mut ByteStream, r: &mut ByteStream) -> (res: Result<
        (),
        Error,
    >)
        requires
            old(buf)@.len() % 4 == 0,
        ensures
            final(buf)@.len() == old(buf)@.len(),
            ({
                let dst = old(w)@.seek(self.offset as nat);
                let n = copied_len(old(buf)@.len(), self.size, old(r)@.available());
                let moved = codec(old(r)@.remaining().take(n as int), self.magic);
                &&& res == copy_outcome(n, self.offset as nat)
                &&& res is Ok ==> final(r)@ == old(r)@.advance(n) && final(w)@ == dst.write(moved)
                &&& res is Err ==> final(r)@ == old(r)@ && final(w)@ == dst
            }),
    {
        w.seek(self.offset as u64);
        run_codec(buf, r, w, self.size, self.magic)?;
        Ok(())
    }

    /// Decodes the payload as `read` does, and takes a payload that the
    /// archive holds only in part for an error, after the part is copied.
    pub fn read_whole(&self, buf: &mut [u8], r: &mut ByteStream, w: &mut ByteStream) -> (res:
        Result<(), Error>)
        requires
            old(buf)@.len() % 4 == 0,
        ensures
            final(buf)@.len() == old(buf)@.len(),
            ({
                let src = old(r)@.seek(self.offset as nat);
                let n = copied_len(old(buf)@.len(), self.size, src.available());
                let moved = codec(src.remaining().take(n as int), self.magic);
                &&& res == whole_outcome(n, self.size, src.available(), old(w)@.pos)
                &&& res != Err::<(), Error>(Error::StorageFull) ==> final(r)@ == src.advance(n)
                    && final(w)@ == old(w)@.write(moved)
                &&& res == Err::<(), Error>(Error::StorageFull) ==> final(r)@ == src && final(w)@
                    == old(w)@
            }),
    {
        self.read(buf, r, w)?;
        if !self.whole_in(r, self.offset as u64) {
            return Err(Error::InvalidData);
        }
        Ok(())
    }

    /// Encodes the payload as `write` does, and takes a source shorter than
    /// the payload for an error, after what it holds is copied.
    pub fn write_whole(&self, buf: &mut [u8], w: &mut ByteStream, r: &mut ByteStream) -> (res:
        Result<(), Error>)
        requires
            old(buf)@.len() % 4 == 0,
        ensures
            final(buf)@.len() == old(buf)@.len(),
            ({
                let dst = old(w)@.seek(self.offset as nat);
                let n = copied_len(old(buf)@.len(), self.size, old(r)@.available());
                let moved = codec(old(r)@.remaining().take(n as int), self.magic);
                &&& res == whole_outcome(n, self.size, old(r)@.available(), self.offset as nat)
                &&& res != Err::<(), Error>(Error::StorageFull) ==> final(r)@ == old(r)@.advance(n)
                    && final(w)@ == dst.write(moved)
                &&& res == Err::<(), Error>(Error::StorageFull) ==> final(r)@ == old(r)@
                    && final(w)@ == dst
            }),
    {
        let start = r.stream_position();
        self.write(buf, w, r)?;
        if !self.whole_in(r, start) {
            return Err(Error::InvalidData);
        }
        Ok(())
    }

    /// Whether `r` holds, from `start` on, as many bytes as the payload is
    /// long.
    fn whole_in(&self, r: &ByteStream, start: u64) -> (whole: bool)
        ensures
            whole == (r@.seek(start as nat).available() >= self.size),
    {
        let end = r.get_ref().len() as u64;
        self.size == 0 || (start <= end && end - start >= self.size as u64)
    }
}

} // verus!
