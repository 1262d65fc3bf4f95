//! An archive: its format version, its base seed and its entries, read
//! from and written to a byte stream.

use vstd::prelude::*;
use crate::entry::{EntryView, RGSSArchiveEntry};
use crate::error::Error;
use crate::io_util::{
    lemma_write_nothing, lemma_write_write, le_bytes, u32_at, ByteStream, ReadNum, StreamView,
    WriteNum,
};
use crate::magic::{
    advance_magic, fixed_mask_of, lemma_magic_after_add, lemma_magic_after_one, mask_fixed,
    mask_rolling, magic_after, table_mask, TABLE_SEED,
};
use crate::name::{load_name, same_text, store_name, stored_len};
use crate::rgss3a;
use crate::rgssad;
use crate::table::{name_len, stop, HEADER_LEN};

verus! {

/// An archive as contracts see it.
pub struct ArchiveView {
    pub version: u8,
    pub entries: Seq<EntryView>,
    pub magic: u32,
}

/// The table of contents of an archive file.
#[derive(Clone, Debug, Eq)]
pub struct RGSSArchive {
    /// The format version: 1, 2 or 3.
    pub version: u8,
    /// The entries, in the order of the table.
    pub entries: Vec<RGSSArchiveEntry>,
    /// The base seed of a version 3 archive; without meaning in the others.
    pub magic: u32,
}

impl View for RGSSArchive {
    type V = ArchiveView;

    open spec fn view(&self) -> ArchiveView {
        ArchiveView {
            version: self.version,
            entries: entry_views(self.entries@),
            magic: self.magic,
        }
    }
}

impl PartialEq for RGSSArchive {
    fn eq(&self, other: &Self) -> (equal: bool) {
        if self.version != other.version || self.magic != other.magic || self.entries.len()
            != other.entries.len() {
            assert(self@.entries.len() == self.entries@.len());
            assert(other@.entries.len() == other.entries@.len());
            return false;
        }
        let count = self.entries.len();
        let mut i: usize = 0;
        while i < count
            invariant
                i <= count,
                count == self.entries@.len(),
                count == other.entries@.len(),
                forall|j: int| 0 <= j < i ==> self.entries@[j]@ == other.entries@[j]@,
            decreases count - i,
        {
            let same = self.entries[i] == other.entries[i];
            if !same {
                assert(self@.entries[i as int] == self.entries@[i as int]@);
                assert(other@.entries[i as int] == other.entries@[i as int]@);
                return false;
            }
            i = i + 1;
        }
        assert(self@.entries =~= other@.entries);
        true
    }
}

impl vstd::std_specs::cmp::PartialEqSpecImpl for RGSSArchive {
    open spec fn obeys_eq_spec() -> bool {
        true
    }

    open spec fn eq_spec(&self, other: &Self) -> bool {
        self@ == other@
    }
}

impl Default for RGSSArchive {
    /// The archive without a version, a base seed or an entry.
    fn default() -> (archive: Self)
        ensures
            archive@ == (ArchiveView { version: 0, entries: Seq::empty(), magic: 0 }),
    {
        let archive = RGSSArchive { version: 0, entries: Vec::new(), magic: 0 };
        assert(archive@.entries =~= Seq::empty());
        archive
    }
}

/// The views of `entries`, in their order.
pub open spec fn entry_views(entries: Seq<RGSSArchiveEntry>) -> Seq<EntryView> {
    Seq::new(entries.len(), |i: int| entries[i]@)
}

/// The views of entries with one more are their views with one more.
proof fn lemma_entry_views_push(entries: Seq<RGSSArchiveEntry>, entry: RGSSArchiveEntry)
    ensures
        entry_views(entries.push(entry)) == entry_views(entries).push(entry@),
{
    assert(entry_views(entries.push(entry)) =~= entry_views(entries).push(entry@));
}

/// Whether `version` is a format version that exists.
pub open spec fn supported(version: u8) -> bool {
    1 <= version <= 3
}

/// Whether `bytes` start with `RGSSAD`.
pub open spec fn has_signature(bytes: Seq<u8>) -> bool {
    &&& bytes.len() >= 6
    &&& bytes[0] == 0x52
    &&& bytes[1] == 0x47
    &&& bytes[2] == 0x53
    &&& bytes[3] == 0x53
    &&& bytes[4] == 0x41
    &&& bytes[5] == 0x44
}

/// The header of an archive of `version`: `RGSSAD`, a zero byte and the
/// version.
pub open spec fn header_bytes(version: u8) -> Seq<u8> {
    seq![0x52u8, 0x47u8, 0x53u8, 0x53u8, 0x41u8, 0x44u8, 0u8, version]
}

/// The version that the header at the front of `bytes` announces, or why
/// there is none.
pub open spec fn parse_header(bytes: Seq<u8>) -> Result<u8, Error> {
    if bytes.len() < 8 {
        Err(Error::UnexpectedEof)
    } else if !has_signature(bytes) {
        Err(Error::InvalidHeader)
    } else if !supported(bytes[7]) {
        Err(Error::UnsupportedVersion)
    } else {
        Ok(bytes[7])
    }
}

/// The version that the extension of an archive's file name stands for:
/// 3 for `rgss3a`, 2 for `rgss2a` and 1 for any other or none.
pub open spec fn extension_version(extension: Option<Seq<char>>) -> u8 {
    if extension == Some("rgss3a"@) {
        3
    } else if extension == Some("rgss2a"@) {
        2
    } else {
        1
    }
}

/// How writing a table of `len` bytes at `pos` ends: the offsets must fit
/// in 32 bits, and the stream must reach far enough.
pub open spec fn write_outcome(fits: bool, len: nat, pos: nat) -> Result<(), Error> {
    if !fits {
        Err(Error::InvalidData)
    } else if len > 0 && pos + len > usize::MAX {
        Err(Error::StorageFull)
    } else {
        Ok(())
    }
}

/// How walking a table ends.
pub open spec fn scan_outcome(complete: bool) -> Result<(), Error> {
    if complete {
        Ok(())
    } else {
        Err(Error::InvalidData)
    }
}

/// The bytes that `write_entries` writes for `archive`.
pub open spec fn table_bytes(archive: ArchiveView) -> Seq<u8> {
    if archive.version == 3 {
        rgss3a::table(rgss3a::placed(archive.entries), archive.magic)
    } else {
        rgssad::table(archive.entries, archive.entries.len())
    }
}

/// Whether the offsets of `archive` fit in 32 bits.
pub open spec fn table_fits(archive: ArchiveView) -> bool {
    if archive.version == 3 {
        rgss3a::fits(archive.entries)
    } else {
        rgssad::fits(archive.entries)
    }
}

/// `archive` with the offsets and seeds that `write_entries` gives its
/// entries.
pub open spec fn placed(archive: ArchiveView) -> ArchiveView {
    ArchiveView {
        version: archive.version,
        entries: if archive.version == 3 {
            rgss3a::placed(archive.entries)
        } else {
            rgssad::placed(archive.entries)
        },
        magic: archive.magic,
    }
}

/// What `read_entries` makes of an archive and a stream, both as they were
/// before: the archive after, the position after, and the result.
pub open spec fn loaded(archive: ArchiveView, stream: StreamView) -> (
    ArchiveView,
    nat,
    Result<(), Error>,
) {
    if !supported(archive.version) {
        (archive, stream.pos, Err(Error::UnsupportedVersion))
    } else if archive.version != 3 {
        let found = rgssad::scan(stream.data, stream.pos, TABLE_SEED);
        (
            ArchiveView {
                version: archive.version,
                entries: archive.entries + found.entries,
                magic: archive.magic,
            },
            found.pos,
            scan_outcome(found.complete),
        )
    } else if stream.available() < 4 {
        (archive, stream.exhaust().pos, Err(Error::UnexpectedEof))
    } else {
        let magic = u32_at(stream.data, stream.pos);
        let found = rgss3a::scan(stream.data, stream.pos + 4, table_mask(magic));
        (
            ArchiveView {
                version: archive.version,
                entries: archive.entries + found.entries,
                magic,
            },
            found.pos,
            scan_outcome(found.complete),
        )
    }
}

/// What reading one record gives.
enum Step {
    /// An entry.
    Found(RGSSArchiveEntry),
    /// The end of the table.
    End,
    /// A record that cannot be right.
    Broken,
}

/// Whether `step` and the state it left a stream in are what a walk over
/// `data` does first, where `whole` is the walk and `rest` the walk from
/// the state left.
spec fn steps_as(
    step: Step,
    whole: crate::table::Scan,
    rest: crate::table::Scan,
    from: nat,
    to: nat,
) -> bool {
    match step {
        Step::End => whole == stop(to, true),
        Step::Broken => whole == stop(to, false),
        Step::Found(entry) => {
            &&& whole.entries == seq![entry@] + rest.entries
            &&& whole.pos == rest.pos
            &&& whole.complete == rest.complete
            &&& from < to
        },
    }
}

/// Reads the record of a version 1 or 2 table at the position of `r`.
fn read_record_rgssad(r: &mut ByteStream, magic: &mut u32) -> (step: Step)
    ensures
        final(r)@.data == old(r)@.data,
        step is Found ==> old(r)@.pos < old(r)@.data.len(),
        steps_as(
            step,
            rgssad::scan(old(r)@.data, old(r)@.pos, *old(magic)),
            rgssad::scan(old(r)@.data, final(r)@.pos, *final(magic)),
            old(r)@.pos,
            final(r)@.pos,
        ),
{
    let ghost data = r@.data;
    let ghost start = r@.pos;
    let ghost key = *magic;
    proof {
        reveal(rgssad::scan);
    }
    let len = match r.read_u32_le() {
        Ok(x) => x ^ advance_magic(magic),
        Err(_) => {
            return Step::End;
        },
    };
    let mut name = match r.read_vec(len as usize) {
        Ok(name) => name,
        Err(_) => {
            return Step::End;
        },
    };
    assert(name@ =~= data.subrange(start as int + 4, start + 4 + len));
    mask_rolling(name.as_mut_slice(), magic);
    proof {
        lemma_magic_after_one(key);
        lemma_magic_after_add(key, 1, len as nat);
    }
    let name = match load_name(name) {
        Some(name) => name,
        None => {
            return Step::End;
        },
    };
    let size = match r.read_u32_le() {
        Ok(x) => x ^ advance_magic(magic),
        Err(_) => {
            return Step::End;
        },
    };
    let offset = r.stream_position();
    if offset > u32::MAX as u64 {
        return Step::Broken;
    }
    match r.skip(size as u64) {
        Ok(()) => {},
        Err(_) => {
            return Step::Broken;
        },
    }
    Step::Found(RGSSArchiveEntry { name, size, offset: offset as u32, magic: *magic })
}

/// Reads the record of a version 3 table at the position of `r`.
fn read_record_rgss3a(r: &mut ByteStream, xor: u32) -> (step: Step)
    ensures
        final(r)@.data == old(r)@.data,
        step is Found ==> old(r)@.pos < old(r)@.data.len(),
        steps_as(
            step,
            rgss3a::scan(old(r)@.data, old(r)@.pos, xor),
            rgss3a::scan(old(r)@.data, final(r)@.pos, xor),
            old(r)@.pos,
            final(r)@.pos,
        ),
{
    let ghost data = r@.data;
    let ghost start = r@.pos;
    proof {
        reveal(rgss3a::scan);
    }
    let offset = match r.read_u32_le() {
        Ok(x) => x ^ xor,
        Err(_) => {
            return Step::End;
        },
    };
    if offset == 0 {
        return Step::End;
    }
    let size = match r.read_u32_le() {
        Ok(x) => x ^ xor,
        Err(_) => {
            return Step::Broken;
        },
    };
    let magic = match r.read_u32_le() {
        Ok(x) => x ^ xor,
        Err(_) => {
            return Step::Broken;
        },
    };
    let len = match r.read_u32_le() {
        Ok(x) => x ^ xor,
        Err(_) => {
            return Step::Broken;
        },
    };
    let mut name = match r.read_vec(len as usize) {
        Ok(name) => name,
        Err(_) => {
            return Step::Broken;
        },
    };
    assert(name@ =~= data.subrange(start as int + 16, start + 16 + len));
    mask_fixed(name.as_mut_slice(), xor);
    match load_name(name) {
        Some(name) => Step::Found(RGSSArchiveEntry { name, size, offset, magic }),
        None => Step::End,
    }
}

/// The length of the stored name of `entry`, where it fits in 32 bits.
fn name_len_of(entry: &RGSSArchiveEntry) -> (len: Option<u32>)
    ensures
        len is Some <==> name_len(entry@) <= u32::MAX,
        len is Some ==> len->Some_0 == name_len(entry@),
{
    let len = stored_len(entry.name.as_str());
    if len > u32::MAX as usize {
        None
    } else {
        Some(len as u32)
    }
}

/// Writes the record of `entry` in a version 1 or 2 table at the position
/// of `w`, which has room for it.
fn write_record_rgssad(w: &mut ByteStream, entry: &RGSSArchiveEntry, magic: &mut u32) -> (res:
    Result<(), Error>)
    requires
        name_len(entry@) <= u32::MAX,
        old(w)@.pos + name_len(entry@) + 8 <= usize::MAX,
    ensures
        res is Ok,
        final(w)@ == old(w)@.write(rgssad::record(entry@, *old(magic))),
        *final(magic) == magic_after(*old(magic), name_len(entry@) + 2),
{
    let ghost key = *magic;
    let mut name = store_name(entry.name.as_str());
    let len = name.len() as u32;
    w.write_u32_le(len ^ advance_magic(magic))?;
    mask_rolling(name.as_mut_slice(), magic);
    w.write_all(name.as_slice())?;
    proof {
        lemma_magic_after_add(key, 1, len as nat);
    }
    w.write_u32_le(entry.size ^ advance_magic(magic))?;
    proof {
        let field = le_bytes(len ^ key);
        lemma_magic_after_one(key);
        lemma_magic_after_one(magic_after(key, (len + 1) as nat));
        lemma_write_write(old(w)@, field, name@);
        lemma_write_write(
            old(w)@,
            field + name@,
            le_bytes(entry.size ^ magic_after(key, (len + 1) as nat)),
        );
        lemma_magic_after_add(key, (len + 1) as nat, 1);
    }
    Ok(())
}

/// Writes the record of `entry` in a version 3 table at the position of
/// `w`, which has room for it.
fn write_record_rgss3a(w: &mut ByteStream, entry: &RGSSArchiveEntry, xor: u32) -> (res: Result<
    (),
    Error,
>)
    requires
        name_len(entry@) <= u32::MAX,
        old(w)@.pos + name_len(entry@) + 16 <= usize::MAX,
    ensures
        res is Ok,
        final(w)@ == old(w)@.write(rgss3a::record(entry@, xor)),
{
    let mut name = store_name(entry.name.as_str());
    let len = name.len() as u32;
    w.write_u32_le(entry.offset ^ xor)?;
    w.write_u32_le(entry.size ^ xor)?;
    w.write_u32_le(entry.magic ^ xor)?;
    w.write_u32_le(len ^ xor)?;
    mask_fixed(name.as_mut_slice(), xor);
    w.write_all(name.as_slice())?;
    proof {
        let f0 = le_bytes(entry.offset ^ xor);
        let f1 = le_bytes(entry.size ^ xor);
        let f2 = le_bytes(entry.magic ^ xor);
        let f3 = le_bytes(len ^ xor);
        lemma_write_write(old(w)@, f0, f1);
        lemma_write_write(old(w)@, f0 + f1, f2);
        lemma_write_write(old(w)@, f0 + f1 + f2, f3);
        lemma_write_write(old(w)@, f0 + f1 + f2 + f3, name@);
    }
    Ok(())
}

/// Writes `len` zeros at the position of `w`, which has room for them.
fn write_zeros(w: &mut ByteStream, len: u32) -> (res: Result<(), Error>)
    requires
        len == 0 || old(w)@.pos + len <= usize::MAX,
    ensures
        res is Ok,
        final(w)@ == old(w)@.write(Seq::new(len as nat, |i: int| 0u8)),
{
    let zeros = vec![0u8; len as usize];
    assert(zeros@ =~= Seq::new(len as nat, |i: int| 0u8));
    w.write_all(zeros.as_slice())
}

impl RGSSArchive {
    /// The version to pack an archive in whose file name ends in
    /// `extension`.
    pub fn version_for_extension(extension: Option<&str>) -> (version: u8)
        ensures
            version == extension_version(
                match extension {
                    Some(text) => Some(text@),
                    None => None,
                },
            ),
    {
        match extension {
            Some(text) => {
                if same_text(text, "rgss3a") {
                    3
                } else if same_text(text, "rgss2a") {
                    2
                } else {
                    1
                }
            },
            None => 1,
        }
    }

    /// Reads the header at the position of `r` and takes the version from
    /// it. The version is taken even where it is then refused.
    pub fn read_header(&mut self, r: &mut ByteStream) -> (res: Result<(), Error>)
        ensures
            ({
                let bytes = old(r)@.remaining();
                &&& res is Ok <==> parse_header(bytes) is Ok
                &&& res is Err ==> parse_header(bytes) == Err::<u8, Error>(res->Err_0)
                &&& final(r)@ == if bytes.len() < 8 {
                    old(r)@.exhaust()
                } else {
                    old(r)@.advance(8)
                }
                &&& final(self)@ == if bytes.len() >= 8 && has_signature(bytes) {
                    ArchiveView {
                        version: bytes[7],
                        entries: old(self)@.entries,
                        magic: old(self)@.magic,
                    }
                } else {
                    old(self)@
                }
            }),
    {
        let mut header = [0u8;8];
        r.read_exact(&mut header)?;
        if header[0] != 0x52 || header[1] != 0x47 || header[2] != 0x53 || header[3] != 0x53
            || header[4] != 0x41 || header[5] != 0x44 {
            return Err(Error::InvalidHeader);
        }
        self.version = header[7];
        if !(1 <= self.version && self.version <= 3) {
            return Err(Error::UnsupportedVersion);
        }
        Ok(())
    }

    /// Reads the table at the position of `r`, in the layout of
    /// `self.version`, and appends its entries. A version that does not
    /// exist is refused before anything is read. In version 3 the base seed
    /// is read first, and the table cannot begin without it. Where the
    /// table is broken, the entries in front of the break are kept.
    pub fn read_entries(&mut self, r: &mut ByteStream) -> (res: Result<(), Error>)
        ensures
            final(self)@ == loaded(old(self)@, old(r)@).0,
            final(r)@ == old(r)@.seek(loaded(old(self)@, old(r)@).1),
            res == loaded(old(self)@, old(r)@).2,
    {
        match self.version {
            1 | 2 => self.read_entries_rgssad(r),
            3 => self.read_entries_rgss3a(r),
            _ => Err(Error::UnsupportedVersion),
        }
    }

    /// Reads a version 1 or 2 table: record after record, each followed by
    /// its payload, which is skipped.
    fn read_entries_rgssad(&mut self, r: &mut ByteStream) -> (res: Result<(), Error>)
        ensures
            ({
                let found = rgssad::scan(old(r)@.data, old(r)@.pos, TABLE_SEED);
                &&& res == scan_outcome(found.complete)
                &&& final(r)@ == old(r)@.seek(found.pos)
                &&& final(self)@ == ArchiveView {
                    version: old(self)@.version,
                    entries: old(self)@.entries + found.entries,
                    magic: old(self)@.magic,
                }
            }),
    {
        let mut magic: u32 = TABLE_SEED;
        let ghost data = r@.data;
        let ghost whole = rgssad::scan(data, r@.pos, TABLE_SEED);
        let ghost mut found: Seq<EntryView> = Seq::empty();
        assert(old(self)@.entries + found =~= old(self)@.entries);
        loop
            invariant_except_break
                whole.entries == found + rgssad::scan(data, r@.pos, magic).entries,
                whole.pos == rgssad::scan(data, r@.pos, magic).pos,
                whole.complete == rgssad::scan(data, r@.pos, magic).complete,
            invariant
                r@.data == data,
                data == old(r)@.data,
                whole == rgssad::scan(data, old(r)@.pos, TABLE_SEED),
                self@ == (ArchiveView {
                    version: old(self)@.version,
                    entries: old(self)@.entries + found,
                    magic: old(self)@.magic,
                }),
            ensures
                r@ == old(r)@.seek(whole.pos),
                whole.complete,
                whole.entries == found,
                self@ == (ArchiveView {
                    version: old(self)@.version,
                    entries: old(self)@.entries + found,
                    magic: old(self)@.magic,
                }),
            decreases
                    (if r@.pos <= data.len() {
                        data.len() - r@.pos + 1
                    } else {
                        0
                    }),
        {
            let ghost here = rgssad::scan(data, r@.pos, magic);
            match read_record_rgssad(r, &mut magic) {
                Step::Found(entry) => {
                    proof {
                        let rest = rgssad::scan(data, r@.pos, magic);
                        assert(found + (seq![entry@] + rest.entries) =~= found.push(entry@)
                            + rest.entries);
                        found = found.push(entry@);
                    }
                    proof {
                        lemma_entry_views_push(self.entries@, entry);
                    }
                    self.entries.push(entry);
                    assert(self@.entries =~= old(self)@.entries + found);
                },
                Step::End => {
                    assert(found + here.entries =~= found);
                    break ;
                },
                Step::Broken => {
                    assert(found + here.entries =~= found);
                    return Err(Error::InvalidData);
                },
            }
        }
        Ok(())
    }

    /// Reads a version 3 table: the base seed, then record after record as
    /// far as the end mark.
    fn read_entries_rgss3a(&mut self, r: &mut ByteStream) -> (res: Result<(), Error>)
        ensures
            old(r)@.available() < 4 ==> res == Err::<(), Error>(Error::UnexpectedEof),
            old(r)@.available() < 4 ==> final(r)@ == old(r)@.exhaust(),
            old(r)@.available() < 4 ==> final(self)@ == old(self)@,
            old(r)@.available() >= 4 ==> ({
                let magic = u32_at(old(r)@.data, old(r)@.pos);
                let found = rgss3a::scan(old(r)@.data, old(r)@.pos + 4, table_mask(magic));
                &&& res == scan_outcome(found.complete)
                &&& final(r)@ == old(r)@.seek(found.pos)
                &&& final(self)@ == ArchiveView {
                    version: old(self)@.version,
                    entries: old(self)@.entries + found.entries,
                    magic,
                }
            }),
    {
        let magic = r.read_u32_le()?;
        self.magic = magic;
        let xor = fixed_mask_of(magic);
        let ghost data = r@.data;
        let ghost whole = rgss3a::scan(data, r@.pos, xor);
        let ghost mut found: Seq<EntryView> = Seq::empty();
        assert(old(self)@.entries + found =~= old(self)@.entries);
        loop
            invariant_except_break
                whole.entries == found + rgss3a::scan(data, r@.pos, xor).entries,
                whole.pos == rgss3a::scan(data, r@.pos, xor).pos,
                whole.complete == rgss3a::scan(data, r@.pos, xor).complete,
            invariant
                r@.data == data,
                data == old(r)@.data,
                old(r)@.available() >= 4,
                magic == u32_at(data, old(r)@.pos),
                xor == table_mask(magic),
                whole == rgss3a::scan(data, old(r)@.pos + 4, xor),
                self@ == (ArchiveView {
                    version: old(self)@.version,
                    entries: old(self)@.entries + found,
                    magic,
                }),
            ensures
                r@ == old(r)@.seek(whole.pos),
                whole.complete,
                whole.entries == found,
                self@ == (ArchiveView {
                    version: old(self)@.version,
                    entries: old(self)@.entries + found,
                    magic,
                }),
            decreases
                    (if r@.pos <= data.len() {
                        data.len() - r@.pos + 1
                    } else {
                        0
                    }),
        {
            let ghost here = rgss3a::scan(data, r@.pos, xor);
            match read_record_rgss3a(r, xor) {
                Step::Found(entry) => {
                    proof {
                        let rest = rgss3a::scan(data, r@.pos, xor);
                        assert(found + (seq![entry@] + rest.entries) =~= found.push(entry@)
                            + rest.entries);
                        found = found.push(entry@);
                    }
                    proof {
                        lemma_entry_views_push(self.entries@, entry);
                    }
                    self.entries.push(entry);
                    assert(self@.entries =~= old(self)@.entries + found);
                },
                Step::End => {
                    assert(found + here.entries =~= found);
                    break ;
                },
                Step::Broken => {
                    assert(found + here.entries =~= found);
                    return Err(Error::InvalidData);
                },
            }
        }
        Ok(())
    }

    /// Writes the header at the position of `w`. A version that does not
    /// exist is refused, and nothing is written where the stream cannot
    /// take the header.
    pub fn write_header(&self, w: &mut ByteStream) -> (res: Result<(), Error>)
        ensures
            res == (if !supported(self.version) {
                Err::<(), Error>(Error::UnsupportedVersion)
            } else if old(w)@.pos + 8 > usize::MAX {
                Err::<(), Error>(Error::StorageFull)
            } else {
                Ok::<(), Error>(())
            }),
            res is Ok ==> final(w)@ == old(w)@.write(header_bytes(self.version)),
            res is Err ==> final(w)@ == old(w)@,
    {
        if !(1 <= self.version && self.version <= 3) {
            return Err(Error::UnsupportedVersion);
        }
        let header = [0x52u8, 0x47u8, 0x53u8, 0x53u8, 0x41u8, 0x44u8, 0u8, self.version];
        assert(header@ =~= header_bytes(self.version));
        match w.write_all(&header) {
            Ok(()) => Ok(()),
            Err(e) => Err(e),
        }
    }

    /// Gives every entry its offset, and in versions 1 and 2 its seed, and
    /// writes the table at the position of `w`. The offsets count from the
    /// start of an archive whose header is 8 bytes long. Where the table
    /// cannot be written, nothing is written and no entry changes.
    pub fn write_entries(&mut self, w: &mut ByteStream) -> (res: Result<(), Error>)
        ensures
            res == (if !supported(old(self)@.version) {
                Err::<(), Error>(Error::UnsupportedVersion)
            } else {
                write_outcome(
                    table_fits(old(self)@),
                    table_bytes(old(self)@).len(),
                    old(w)@.pos,
                )
            }),
            res is Ok ==> final(w)@ == old(w)@.write(table_bytes(old(self)@)),
            res is Ok ==> final(self)@ == placed(old(self)@),
            res is Err ==> final(w)@ == old(w)@ && final(self)@ == old(self)@,
    {
        match self.version {
            1 | 2 => self.write_entries_rgssad(w),
            3 => self.write_entries_rgss3a(w),
            _ => Err(Error::UnsupportedVersion),
        }
    }

    /// Gives entry `i` its offset and its seed.
    fn place(&mut self, i: usize, offset: u32, magic: u32)
        requires
            i < old(self).entries@.len(),
        ensures
            final(self).entries@.len() == old(self).entries@.len(),
            final(self)@ == (ArchiveView {
                version: old(self)@.version,
                entries: old(self)@.entries.update(
                    i as int,
                    EntryView {
                        name: old(self)@.entries[i as int].name,
                        size: old(self)@.entries[i as int].size,
                        offset,
                        magic,
                    },
                ),
                magic: old(self)@.magic,
            }),
    {
        self.entries[i].offset = offset;
        self.entries[i].magic = magic;
        assert(self@.entries =~= old(self)@.entries.update(
            i as int,
            EntryView {
                name: old(self)@.entries[i as int].name,
                size: old(self)@.entries[i as int].size,
                offset,
                magic,
            },
        ));
    }

    /// Where a version 1 or 2 archive of these entries ends, where that
    /// fits in 32 bits.
    fn end_rgssad(&self) -> (end: Option<u32>)
        ensures
            end is Some <==> rgssad::fits(self@.entries),
            end is Some ==> end->Some_0 == rgssad::record_start(
                self@.entries,
                self@.entries.len(),
            ),
    {
        let ghost entries = self@.entries;
        let count = self.entries.len();
        let mut end: u32 = HEADER_LEN;
        let mut i: usize = 0;
        while i < count
            invariant
                i <= count,
                count == entries.len(),
                entries == self@.entries,
                end == rgssad::record_start(entries, i as nat),
            decreases count - i,
        {
            proof {
                rgssad::lemma_record_start_grows(entries, (i + 1) as nat, count as nat);
                assert(entries[i as int] == self.entries@[i as int]@);
            }
            let len = name_len_of(&self.entries[i])?;
            end = end.checked_add(len)?;
            end = end.checked_add(8)?;
            end = end.checked_add(self.entries[i].size)?;
            i = i + 1;
        }
        Some(end)
    }

    /// Writes a version 1 or 2 table: record after record, each followed
    /// by zeros in the place of its payload.
    fn write_entries_rgssad(&mut self, w: &mut ByteStream) -> (res: Result<(), Error>)
        ensures
            ({
                let entries = old(self)@.entries;
                let bytes = rgssad::table(entries, entries.len());
                &&& res == write_outcome(rgssad::fits(entries), bytes.len(), old(w)@.pos)
                &&& res is Ok ==> final(w)@ == old(w)@.write(bytes)
                &&& res is Ok ==> final(self)@ == ArchiveView {
                    version: old(self)@.version,
                    entries: rgssad::placed(entries),
                    magic: old(self)@.magic,
                }
                &&& res is Err ==> final(w)@ == old(w)@ && final(self)@ == old(self)@
            }),
    {
        let ghost entries = self@.entries;
        let count = self.entries.len();
        let end = match self.end_rgssad() {
            Some(end) => end,
            None => {
                return Err(Error::InvalidData);
            },
        };
        proof {
            rgssad::lemma_table_len(entries, count as nat);
        }
        if !w.has_room((end - HEADER_LEN) as usize) {
            return Err(Error::StorageFull);
        }
        let mut magic: u32 = TABLE_SEED;
        let mut offset: u32 = HEADER_LEN;
        let mut i: usize = 0;
        proof {
            assert(self@.entries =~= rgssad::placed_upto(entries, 0));
            lemma_write_nothing(w@);
            lemma_magic_after_one(TABLE_SEED);
        }
        while i < count
            invariant
                i <= count,
                count == entries.len(),
                count == self.entries@.len(),
                entries == old(self)@.entries,
                self@ == (ArchiveView {
                    version: old(self)@.version,
                    entries: rgssad::placed_upto(entries, i as nat),
                    magic: old(self)@.magic,
                }),
                end == rgssad::record_start(entries, count as nat),
                end > HEADER_LEN ==> old(w)@.pos + end - HEADER_LEN <= usize::MAX,
                offset == rgssad::record_start(entries, i as nat),
                magic == rgssad::magic_at(entries, i as nat),
                w@ == old(w)@.write(rgssad::table(entries, i as nat)),
            decreases count - i,
        {
            let ghost before = rgssad::table(entries, i as nat);
            let ghost key = magic;
            let ghost e = entries[i as int];
            proof {
                rgssad::lemma_record_start_grows(entries, (i + 1) as nat, count as nat);
                rgssad::lemma_table_len(entries, i as nat);
                assert(self@.entries[i as int] == self.entries@[i as int]@);
            }
            write_record_rgssad(w, &self.entries[i], &mut magic)?;
            let size = self.entries[i].size;
            offset = offset + (stored_len(self.entries[i].name.as_str()) as u32 + 8);
            self.place(i, offset, magic);
            write_zeros(w, size)?;
            offset = offset + size;
            proof {
                let record = rgssad::record(e, key);
                lemma_write_write(old(w)@, before, record);
                lemma_write_write(old(w)@, before + record, Seq::new(size as nat, |i: int| 0u8));
                lemma_magic_after_add(
                    TABLE_SEED,
                    rgssad::steps(entries, i as nat),
                    name_len(e) + 2,
                );
                assert(self@.entries =~= rgssad::placed_upto(entries, (i + 1) as nat));
            }
            i = i + 1;
        }
        Ok(())
    }

    /// Where the payloads of a version 3 archive of these entries start,
    /// where the whole archive fits in 32 bits.
    fn base_rgss3a(&self) -> (base: Option<u32>)
        ensures
            base is Some <==> rgss3a::fits(self@.entries),
            base is Some ==> base->Some_0 == rgss3a::payload_start(self@.entries, 0),
    {
        let ghost entries = self@.entries;
        let count = self.entries.len();
        let mut base: u32 = 16;
        let mut i: usize = 0;
        while i < count
            invariant
                i <= count,
                count == entries.len(),
                entries == self@.entries,
                base == rgss3a::record_start(entries, i as nat) + 4,
            decreases count - i,
        {
            proof {
                rgss3a::lemma_record_start_grows(entries, (i + 1) as nat, count as nat);
                rgss3a::lemma_payload_len_grows(entries, 0, count as nat);
                assert(entries[i as int] == self.entries@[i as int]@);
            }
            let len = name_len_of(&self.entries[i])?;
            base = base.checked_add(len)?;
            base = base.checked_add(16)?;
            i = i + 1;
        }
        let mut end: u32 = base;
        let mut i: usize = 0;
        while i < count
            invariant
                i <= count,
                count == entries.len(),
                entries == self@.entries,
                base == rgss3a::payload_start(entries, 0),
                end == rgss3a::payload_start(entries, i as nat),
            decreases count - i,
        {
            proof {
                rgss3a::lemma_payload_len_grows(entries, (i + 1) as nat, count as nat);
                assert(entries[i as int] == self.entries@[i as int]@);
            }
            end = end.checked_add(self.entries[i].size)?;
            i = i + 1;
        }
        Some(base)
    }

    /// Writes a version 3 table: the base seed, the records and the end
    /// mark. The payloads are to follow the table in the order of the
    /// entries.
    fn write_entries_rgss3a(&mut self, w: &mut ByteStream) -> (res: Result<(), Error>)
        ensures
            ({
                let entries = old(self)@.entries;
                let bytes = rgss3a::table(rgss3a::placed(entries), old(self)@.magic);
                &&& res == write_outcome(rgss3a::fits(entries), bytes.len(), old(w)@.pos)
                &&& res is Ok ==> final(w)@ == old(w)@.write(bytes)
                &&& res is Ok ==> final(self)@ == ArchiveView {
                    version: old(self)@.version,
                    entries: rgss3a::placed(entries),
                    magic: old(self)@.magic,
                }
                &&& res is Err ==> final(w)@ == old(w)@ && final(self)@ == old(self)@
            }),
    {
        let ghost entries = self@.entries;
        let ghost set = rgss3a::placed(entries);
        let count = self.entries.len();
        let base = match self.base_rgss3a() {
            Some(base) => base,
            None => {
                return Err(Error::InvalidData);
            },
        };
        let magic = self.magic;
        let xor = fixed_mask_of(magic);
        proof {
            rgss3a::lemma_layout_of_names_and_sizes(set, entries, count as nat);
            rgss3a::lemma_records_len(set, count as nat, xor);
        }
        if !w.has_room((base - HEADER_LEN) as usize) {
            return Err(Error::StorageFull);
        }
        let mut offset: u32 = base;
        let mut i: usize = 0;
        assert(self@.entries =~= rgss3a::placed_upto(entries, 0));
        while i < count
            invariant
                i <= count,
                count == entries.len(),
                count == self.entries@.len(),
                entries == old(self)@.entries,
                magic == old(self)@.magic,
                self@ == (ArchiveView {
                    version: old(self)@.version,
                    entries: rgss3a::placed_upto(entries, i as nat),
                    magic: old(self)@.magic,
                }),
                rgss3a::payload_start(entries, count as nat) <= u32::MAX,
                offset == rgss3a::payload_start(entries, i as nat),
                w@ == old(w)@,
            decreases count - i,
        {
            proof {
                rgss3a::lemma_payload_len_grows(entries, (i + 1) as nat, count as nat);
                assert(self@.entries[i as int] == self.entries@[i as int]@);
            }
            let seed = self.entries[i].magic;
            let size = self.entries[i].size;
            self.place(i, offset, seed);
            offset = offset + size;
            assert(self@.entries =~= rgss3a::placed_upto(entries, (i + 1) as nat));
            i = i + 1;
        }
        w.write_u32_le(magic)?;
        let mut i: usize = 0;
        while i < count
            invariant
                i <= count,
                count == entries.len(),
                count == self.entries@.len(),
                entries == old(self)@.entries,
                xor == table_mask(magic),
                set == rgss3a::placed(entries),
                self@ == (ArchiveView {
                    version: old(self)@.version,
                    entries: set,
                    magic: old(self)@.magic,
                }),
                old(w)@.pos + base - HEADER_LEN <= usize::MAX,
                base == rgss3a::record_start(set, count as nat) + 4,
                w@ == old(w)@.write(le_bytes(magic) + rgss3a::records(set, i as nat, xor)),
            decreases count - i,
        {
            let ghost before = le_bytes(magic) + rgss3a::records(set, i as nat, xor);
            let ghost e = set[i as int];
            proof {
                rgss3a::lemma_record_start_grows(set, (i + 1) as nat, count as nat);
                rgss3a::lemma_records_len(set, i as nat, xor);
                assert(self@.entries[i as int] == self.entries@[i as int]@);
                assert(name_len(e) + 16 <= u32::MAX);
            }
            write_record_rgss3a(w, &self.entries[i], xor)?;
            proof {
                lemma_write_write(old(w)@, before, rgss3a::record(e, xor));
                assert(before + rgss3a::record(e, xor) =~= le_bytes(magic) + rgss3a::records(
                    set,
                    (i + 1) as nat,
                    xor,
                ));
            }
            i = i + 1;
        }
        w.write_u32_le(xor)?;
        proof {
            lemma_write_write(
                old(w)@,
                le_bytes(magic) + rgss3a::records(set, count as nat, xor),
                le_bytes(xor),
            );
        }
        Ok(())
    }
}

} // verus!
