//! Whole archives in memory: packing entries and payloads into the bytes
//! of an archive file, unpacking such bytes, and the proof that what is
//! packed is unpacked to the names and the bytes it was made of.

use vstd::prelude::*;
use crate::archive::{
    header_bytes, loaded, parse_header, placed, supported, table_bytes, table_fits, ArchiveView,
    RGSSArchive,
};
use crate::codec::{codec, lemma_codec_involution};
use crate::entry::EntryView;
use crate::error::Error;
use crate::io_util::{
    le_bytes, lemma_u32_at_le_bytes, lemma_write_at_end, lemma_write_at_inside, u32_at, write_at,
    ByteStream, StreamView,
};
use crate::magic::{lemma_magic_after_one, table_mask, TABLE_SEED};
use crate::rgss3a;
use crate::rgssad;
use crate::table::{name_len, HEADER_LEN};

verus! {

/// The stream after `archive` has been packed into an empty one as far as
/// payload `k`: the header and the table written, then the first `k`
/// payloads, each encoded at the offset of its entry with the seed of its
/// entry.
pub open spec fn packed_upto(archive: ArchiveView, payloads: Seq<Seq<u8>>, k: nat) -> StreamView
    decreases k,
{
    if k == 0 {
        (StreamView { data: Seq::empty(), pos: 0 }).write(header_bytes(archive.version)).write(
            table_bytes(archive),
        )
    } else {
        let e = placed(archive).entries[k - 1];
        packed_upto(archive, payloads, (k - 1) as nat).seek(e.offset as nat).write(
            codec(payloads[k - 1], e.magic),
        )
    }
}

/// The bytes of the archive file that packing `archive` with `payloads`
/// makes.
pub open spec fn packed(archive: ArchiveView, payloads: Seq<Seq<u8>>) -> Seq<u8> {
    packed_upto(archive, payloads, payloads.len()).data
}

/// Whether `payloads` are the payloads of `entries`, one for each and as
/// long as its entry says.
pub open spec fn payloads_of(entries: Seq<EntryView>, payloads: Seq<Seq<u8>>) -> bool {
    &&& payloads.len() == entries.len()
    &&& forall|k: int| 0 <= k < entries.len() ==> (#[trigger] payloads[k]).len() == entries[k].size
}

/// Whether no name of `entries` holds a `\`.
pub open spec fn plain_names(entries: Seq<EntryView>) -> bool {
    forall|k: int| 0 <= k < entries.len() ==> !(#[trigger] entries[k]).name.contains('\\')
}

/// The bytes of `payloads`, in their order.
pub open spec fn payload_views(payloads: Seq<Vec<u8>>) -> Seq<Seq<u8>> {
    Seq::new(payloads.len(), |k: int| payloads[k]@)
}

/// Whether the archive `file` holds the payload of `e` in full.
pub open spec fn holds_whole(file: Seq<u8>, e: EntryView) -> bool {
    (StreamView { data: file, pos: e.offset as nat }).available() >= e.size
}

/// What decoding the payload of `e` from the archive `file` gives, where
/// the archive holds all of it.
pub open spec fn decoded(file: Seq<u8>, e: EntryView) -> Seq<u8> {
    codec(
        (StreamView { data: file, pos: e.offset as nat }).remaining().take(e.size as int),
        e.magic,
    )
}

/// What reading the table of `file` gives, where its header was read.
pub open spec fn unpacked_table(file: Seq<u8>) -> ArchiveView {
    loaded(
        ArchiveView { version: parse_header(file)->Ok_0, entries: Seq::empty(), magic: 0 },
        StreamView { data: file, pos: HEADER_LEN as nat },
    ).0
}

/// How reading the table of `file` ends, where its header was read.
pub open spec fn unpacked_outcome(file: Seq<u8>) -> Result<(), Error> {
    loaded(
        ArchiveView { version: parse_header(file)->Ok_0, entries: Seq::empty(), magic: 0 },
        StreamView { data: file, pos: HEADER_LEN as nat },
    ).2
}

/// What unpacking `file` gives: the archive that its header and its table
/// describe, or the error of the first that cannot be read, or that a
/// payload lies beyond the end of `file`.
pub open spec fn unpacked(file: Seq<u8>) -> Result<ArchiveView, Error> {
    match parse_header(file) {
        Err(e) => Err(e),
        Ok(_) => match unpacked_outcome(file) {
            Err(e) => Err(e),
            Ok(_) => if forall|k: int|
                0 <= k < unpacked_table(file).entries.len() ==> holds_whole(
                    file,
                    #[trigger] unpacked_table(file).entries[k],
                ) {
                Ok(unpacked_table(file))
            } else {
                Err(Error::InvalidData)
            },
        },
    }
}

/// The header and the table of an archive whose offsets fit in 32 bits
/// end within that range.
proof fn lemma_table_in_range(archive: ArchiveView)
    requires
        supported(archive.version),
        table_fits(archive),
    ensures
        HEADER_LEN + table_bytes(archive).len() <= u32::MAX,
{
    let entries = archive.entries;
    let count = entries.len();
    if archive.version == 3 {
        let set = rgss3a::placed(entries);
        rgss3a::lemma_layout_of_names_and_sizes(set, entries, count);
        rgss3a::lemma_records_len(set, count, table_mask(archive.magic));
        rgss3a::lemma_payload_len_grows(entries, 0, count);
    } else {
        rgssad::lemma_table_len(entries, count);
    }
}

/// The payload of every entry of an archive whose offsets fit in 32 bits
/// ends within that range, as the entry is placed.
proof fn lemma_placed_in_range(archive: ArchiveView, k: int)
    requires
        supported(archive.version),
        table_fits(archive),
        0 <= k < archive.entries.len(),
    ensures
        placed(archive).entries[k].offset + archive.entries[k].size <= u32::MAX,
        placed(archive).entries[k].size == archive.entries[k].size,
{
    let entries = archive.entries;
    let count = entries.len();
    if archive.version == 3 {
        rgss3a::lemma_payload_len_grows(entries, (k + 1) as nat, count);
    } else {
        rgssad::lemma_record_start_grows(entries, (k + 1) as nat, count);
    }
}

impl RGSSArchive {
    /// Packs the archive: places the entries and writes the header, the
    /// table and the payloads, one for each entry in their order, into a
    /// new buffer. The payloads are to be as many as the entries and as
    /// long as the entries say. Where the archive cannot be packed, no
    /// entry changes.
    pub fn pack(&mut self, payloads: &Vec<Vec<u8>>) -> (file: Result<Vec<u8>, Error>)
        ensures
            file is Ok <==> supported(old(self)@.version) && table_fits(old(self)@) && payloads_of(
                old(self)@.entries,
                payload_views(payloads@),
            ),
            file is Ok ==> file->Ok_0@ == packed(old(self)@, payload_views(payloads@)),
            file is Ok ==> final(self)@ == placed(old(self)@),
            file is Err ==> final(self)@ == old(self)@,
            file is Err ==> file->Err_0 == (if supported(old(self)@.version) {
                Error::InvalidData
            } else {
                Error::UnsupportedVersion
            }),
    {
        let ghost before = self@;
        let ghost bytes = payload_views(payloads@);
        let count = self.entries.len();
        if !(1 <= self.version && self.version <= 3) {
            return Err(Error::UnsupportedVersion);
        }
        if payloads.len() != count {
            return Err(Error::InvalidData);
        }
        let mut k: usize = 0;
        while k < count
            invariant
                k <= count,
                count == self.entries@.len(),
                count == payloads@.len(),
                self@ == before,
                before == old(self)@,
                supported(before.version),
                bytes == payload_views(payloads@),
                forall|j: int| 0 <= j < k ==> (#[trigger] bytes[j]).len() == before.entries[j].size,
            decreases count - k,
        {
            assert(before.entries[k as int] == self.entries@[k as int]@);
            assert(bytes[k as int] == payloads@[k as int]@);
            if payloads[k].len() != self.entries[k].size as usize {
                return Err(Error::InvalidData);
            }
            k = k + 1;
        }
        let mut w = ByteStream::new(Vec::new());
        self.write_header(&mut w)?;
        proof {
            if table_fits(before) {
                lemma_table_in_range(before);
            }
        }
        self.write_entries(&mut w)?;
        assert(self@.entries.len() == self.entries@.len());
        let mut buf = vec![0u8; 8192];
        let mut k: usize = 0;
        while k < count
            invariant
                k <= count,
                count == self.entries@.len(),
                count == payloads@.len(),
                count == before.entries.len(),
                supported(before.version),
                table_fits(before),
                payloads_of(before.entries, bytes),
                bytes == payload_views(payloads@),
                self@ == placed(before),
                buf@.len() == 8192,
                w@ == packed_upto(before, bytes, k as nat),
            decreases count - k,
        {
            proof {
                lemma_placed_in_range(before, k as int);
                assert(self@.entries[k as int] == self.entries@[k as int]@);
                assert(bytes[k as int] == payloads@[k as int]@);
            }
            let mut source = ByteStream::new(payloads[k].clone());
            assert(source@.data =~= bytes[k as int]);
            assert(source@.remaining().take(bytes[k as int].len() as int) =~= bytes[k as int]);
            self.entries[k].write_whole(buf.as_mut_slice(), &mut w, &mut source)?;
            k = k + 1;
        }
        Ok(w.into_inner())
    }

    /// Unpacks the archive `file`: reads its header and its table and
    /// decodes the payload of every entry, in the order of the entries.
    pub fn unpack(file: Vec<u8>) -> (r: Result<(RGSSArchive, Vec<Vec<u8>>), Error>)
        ensures
            r is Ok <==> unpacked(file@) is Ok,
            r is Err ==> unpacked(file@) == Err::<ArchiveView, Error>(r->Err_0),
            r is Ok ==> r->Ok_0.0@ == unpacked(file@)->Ok_0,
            r is Ok ==> r->Ok_0.1@.len() == r->Ok_0.0@.entries.len(),
            r is Ok ==> forall|k: int|
                0 <= k < r->Ok_0.1@.len() ==> (#[trigger] r->Ok_0.1@[k])@ == decoded(
                    file@,
                    r->Ok_0.0@.entries[k],
                ),
    {
        let mut archive = RGSSArchive::default();
        let mut stream = ByteStream::new(file);
        assert(stream@.remaining() =~= file@);
        archive.read_header(&mut stream)?;
        archive.read_entries(&mut stream)?;
        let ghost table = unpacked_table(file@);
        assert(archive@.entries =~= table.entries);
        assert(archive@.entries.len() == archive.entries@.len());
        let count = archive.entries.len();
        let mut buf = vec![0u8; 8192];
        let mut payloads: Vec<Vec<u8>> = Vec::new();
        let mut k: usize = 0;
        while k < count
            invariant
                k <= count,
                count == archive.entries@.len(),
                archive@ == table,
                table == unpacked_table(file@),
                parse_header(file@) is Ok,
                unpacked_outcome(file@) is Ok,
                stream@.data == file@,
                buf@.len() == 8192,
                payloads@.len() == k,
                forall|j: int| 0 <= j < k ==> holds_whole(file@, #[trigger] table.entries[j]),
                forall|j: int|
                    0 <= j < k ==> (#[trigger] payloads@[j])@ == decoded(file@, table.entries[j]),
            decreases count - k,
        {
            let ghost e = table.entries[k as int];
            assert(e == archive.entries@[k as int]@);
            let mut payload = ByteStream::new(Vec::new());
            archive.entries[k].read_whole(buf.as_mut_slice(), &mut stream, &mut payload)?;
            proof {
                lemma_write_at_end(Seq::empty(), decoded(file@, e));
                assert(Seq::<u8>::empty() + decoded(file@, e) =~= decoded(file@, e));
            }
            payloads.push(payload.into_inner());
            k = k + 1;
        }
        Ok((archive, payloads))
    }
}

/// Whether `data` holds the encoded payload `k` at the place of its entry.
pub open spec fn holds_payload(
    data: Seq<u8>,
    entries: Seq<EntryView>,
    payloads: Seq<Seq<u8>>,
    k: int,
) -> bool {
    &&& entries[k].offset + entries[k].size <= data.len()
    &&& data.subrange(entries[k].offset as int, entries[k].offset + entries[k].size) == codec(
        payloads[k],
        entries[k].magic,
    )
}

/// A header and a table of `k` records hold every one of these records
/// where it belongs.
proof fn lemma_rgssad_table_holds(entries: Seq<EntryView>, version: u8, k: nat, i: int)
    requires
        0 <= i < k,
    ensures
        rgssad::holds_record(header_bytes(version) + rgssad::table(entries, k), entries, i),
    decreases k,
{
    let head = header_bytes(version);
    let before = rgssad::table(entries, (k - 1) as nat);
    let record = rgssad::record(entries[k - 1], rgssad::magic_at(entries, (k - 1) as nat));
    let zeros = Seq::new(entries[k - 1].size as nat, |i: int| 0u8);
    let start = rgssad::record_start(entries, i as nat) as int;
    let len = name_len(entries[i]) as int + 8;
    rgssad::lemma_table_len(entries, (k - 1) as nat);
    assert(rgssad::table(entries, k) == before + record + zeros);
    if i == k - 1 {
        assert((head + (before + record + zeros)).subrange(start, start + len) =~= record);
    } else {
        rgssad::lemma_record_start_grows(entries, (i + 1) as nat, (k - 1) as nat);
        lemma_rgssad_table_holds(entries, version, (k - 1) as nat, i);
        assert((head + (before + record + zeros)).subrange(start, start + len) =~= (head
            + before).subrange(start, start + len));
    }
}

/// What packing a version 1 or 2 archive has made after `k` payloads.
proof fn lemma_rgssad_packed(archive: ArchiveView, payloads: Seq<Seq<u8>>, k: nat)
    requires
        archive.version == 1 || archive.version == 2,
        rgssad::fits(archive.entries),
        payloads_of(archive.entries, payloads),
        k <= archive.entries.len(),
    ensures
        ({
            let data = packed_upto(archive, payloads, k).data;
            let entries = archive.entries;
            &&& data.len() == rgssad::record_start(entries, entries.len())
            &&& data.subrange(0, 8) == header_bytes(archive.version)
            &&& forall|i: int|
                0 <= i < entries.len() ==> rgssad::holds_record(data, entries, i)
            &&& forall|j: int|
                0 <= j < k ==> holds_payload(data, rgssad::placed(entries), payloads, j)
        }),
    decreases k,
{
    let entries = archive.entries;
    let count = entries.len();
    let set = rgssad::placed(entries);
    let head = header_bytes(archive.version);
    let data = packed_upto(archive, payloads, k).data;
    if k == 0 {
        let table = rgssad::table(entries, count);
        lemma_write_at_end(Seq::empty(), head);
        assert(Seq::<u8>::empty() + head =~= head);
        lemma_write_at_end(head, table);
        assert(data == head + table);
        rgssad::lemma_table_len(entries, count);
        assert(data.subrange(0, 8) =~= head);
        assert forall|i: int| 0 <= i < count implies rgssad::holds_record(data, entries, i) by {
            lemma_rgssad_table_holds(entries, archive.version, count, i);
        }
    } else {
        let before = packed_upto(archive, payloads, (k - 1) as nat).data;
        let e = set[k - 1];
        let bytes = codec(payloads[k - 1], e.magic);
        lemma_rgssad_packed(archive, payloads, (k - 1) as nat);
        rgssad::lemma_record_start_grows(entries, k, count);
        assert(data == write_at(before, e.offset as nat, bytes));
        assert(e.offset + bytes.len() == rgssad::record_start(entries, k));
        lemma_write_at_inside(before, e.offset as nat, bytes);
        assert(data.subrange(0, 8) =~= before.subrange(0, 8));
        assert forall|i: int| 0 <= i < count implies rgssad::holds_record(data, entries, i) by {
            let start = rgssad::record_start(entries, i as nat) as int;
            let len = name_len(entries[i]) as int + 8;
            assert(rgssad::holds_record(before, entries, i));
            if i < k - 1 {
                rgssad::lemma_record_start_grows(entries, (i + 1) as nat, (k - 1) as nat);
            } else if i >= k {
                rgssad::lemma_record_start_grows(entries, k, i as nat);
            }
            rgssad::lemma_record_start_grows(entries, (i + 1) as nat, count);
            assert(start + len <= e.offset || e.offset + bytes.len() <= start);
            assert(data.subrange(start, start + len) =~= before.subrange(start, start + len));
        }
        assert forall|j: int| 0 <= j < k implies holds_payload(data, set, payloads, j) by {
            let at = set[j].offset as int;
            let size = set[j].size as int;
            rgssad::lemma_record_start_grows(entries, (j + 1) as nat, count);
            if j < k - 1 {
                assert(holds_payload(before, set, payloads, j));
                rgssad::lemma_record_start_grows(entries, (j + 1) as nat, (k - 1) as nat);
                assert(data.subrange(at, at + size) =~= before.subrange(at, at + size));
            } else {
                assert(data.subrange(at, at + size) =~= bytes);
            }
        }
    }
}

/// A header, a base seed and `k` records hold every one of these records
/// where it belongs.
proof fn lemma_rgss3a_records_hold(
    entries: Seq<EntryView>,
    front: Seq<u8>,
    xor: u32,
    k: nat,
    i: int,
)
    requires
        0 <= i < k,
        front.len() == HEADER_LEN + 4,
    ensures
        rgss3a::holds_record(front + rgss3a::records(entries, k, xor), entries, i, xor),
    decreases k,
{
    let before = rgss3a::records(entries, (k - 1) as nat, xor);
    let record = rgss3a::record(entries[k - 1], xor);
    let start = rgss3a::record_start(entries, i as nat) as int;
    let end = rgss3a::record_start(entries, (i + 1) as nat) as int;
    rgss3a::lemma_records_len(entries, (k - 1) as nat, xor);
    rgss3a::lemma_records_len(entries, k, xor);
    assert(rgss3a::records(entries, k, xor) == before + record);
    if i == k - 1 {
        assert((front + (before + record)).subrange(start, end) =~= record);
    } else {
        rgss3a::lemma_record_start_grows(entries, (i + 1) as nat, (k - 1) as nat);
        lemma_rgss3a_records_hold(entries, front, xor, (k - 1) as nat, i);
        assert((front + (before + record)).subrange(start, end) =~= (front + before).subrange(
            start,
            end,
        ));
    }
}

/// What packing a version 3 archive has made after `k` payloads.
proof fn lemma_rgss3a_packed(archive: ArchiveView, payloads: Seq<Seq<u8>>, k: nat)
    requires
        archive.version == 3,
        rgss3a::fits(archive.entries),
        payloads_of(archive.entries, payloads),
        k <= archive.entries.len(),
    ensures
        ({
            let data = packed_upto(archive, payloads, k).data;
            let entries = archive.entries;
            let set = rgss3a::placed(entries);
            let xor = table_mask(archive.magic);
            &&& data.len() == rgss3a::payload_start(entries, k)
            &&& data.subrange(0, 8) == header_bytes(archive.version)
            &&& u32_at(data, 8) == archive.magic
            &&& rgss3a::holds_end_mark(data, set, xor)
            &&& forall|i: int|
                0 <= i < entries.len() ==> rgss3a::holds_record(data, set, i, xor)
            &&& forall|j: int| 0 <= j < k ==> holds_payload(data, set, payloads, j)
        }),
    decreases k,
{
    let entries = archive.entries;
    let count = entries.len();
    let set = rgss3a::placed(entries);
    let xor = table_mask(archive.magic);
    let head = header_bytes(archive.version);
    let data = packed_upto(archive, payloads, k).data;
    let table_end = rgss3a::record_start(set, count) as int;
    rgss3a::lemma_layout_of_names_and_sizes(set, entries, count);
    if k == 0 {
        let seed = le_bytes(archive.magic);
        let records = rgss3a::records(set, count, xor);
        let mark = le_bytes(xor);
        let table = rgss3a::table(set, archive.magic);
        lemma_write_at_end(Seq::empty(), head);
        assert(Seq::<u8>::empty() + head =~= head);
        lemma_write_at_end(head, table);
        assert(data == head + table);
        assert(data =~= (head + seed) + records + mark);
        rgss3a::lemma_records_len(set, count, xor);
        assert(data.subrange(0, 8) =~= head);
        assert(data.subrange(8, 12) =~= seed);
        lemma_u32_at_le_bytes(data, 8, archive.magic);
        assert(data.subrange(table_end, table_end + 4) =~= mark);
        assert forall|i: int| 0 <= i < count implies rgss3a::holds_record(data, set, i, xor) by {
            let start = rgss3a::record_start(set, i as nat) as int;
            let end = rgss3a::record_start(set, (i + 1) as nat) as int;
            lemma_rgss3a_records_hold(set, head + seed, xor, count, i);
            rgss3a::lemma_record_start_grows(set, (i + 1) as nat, count);
            assert(data.subrange(start, end) =~= ((head + seed) + records).subrange(start, end));
        }
    } else {
        let before = packed_upto(archive, payloads, (k - 1) as nat).data;
        let e = set[k - 1];
        let bytes = codec(payloads[k - 1], e.magic);
        lemma_rgss3a_packed(archive, payloads, (k - 1) as nat);
        rgss3a::lemma_payload_len_grows(entries, k, count);
        assert(data == write_at(before, e.offset as nat, bytes));
        assert(e.offset == before.len());
        lemma_write_at_end(before, bytes);
        assert(data == before + bytes);
        assert(data.subrange(0, 8) =~= before.subrange(0, 8));
        assert(data.subrange(table_end, table_end + 4) =~= before.subrange(
            table_end,
            table_end + 4,
        ));
        assert forall|i: int| 0 <= i < count implies rgss3a::holds_record(data, set, i, xor) by {
            let start = rgss3a::record_start(set, i as nat) as int;
            let end = rgss3a::record_start(set, (i + 1) as nat) as int;
            assert(rgss3a::holds_record(before, set, i, xor));
            rgss3a::lemma_record_start_grows(set, (i + 1) as nat, count);
            assert(data.subrange(start, end) =~= before.subrange(start, end));
        }
        assert forall|j: int| 0 <= j < k implies holds_payload(data, set, payloads, j) by {
            let at = set[j].offset as int;
            let size = set[j].size as int;
            rgss3a::lemma_payload_len_grows(entries, (j + 1) as nat, count);
            if j < k - 1 {
                assert(holds_payload(before, set, payloads, j));
                rgss3a::lemma_payload_len_grows(entries, (j + 1) as nat, (k - 1) as nat);
                assert(data.subrange(at, at + size) =~= before.subrange(at, at + size));
            } else {
                assert(data.subrange(at, at + size) =~= bytes);
            }
        }
    }
}

/// Reading the table of a packed version 1 or 2 archive gives the entries
/// as they were placed.
proof fn lemma_rgssad_reads(archive: ArchiveView, payloads: Seq<Seq<u8>>)
    requires
        archive.version == 1 || archive.version == 2,
        rgssad::fits(archive.entries),
        payloads_of(archive.entries, payloads),
        plain_names(archive.entries),
    ensures
        ({
            let file = packed(archive, payloads);
            let found = rgssad::scan(file, HEADER_LEN as nat, TABLE_SEED);
            &&& found.entries == rgssad::placed(archive.entries)
            &&& found.complete
            &&& file.len() >= 8
            &&& file.subrange(0, 8) == header_bytes(archive.version)
            &&& forall|k: int|
                0 <= k < archive.entries.len() ==> holds_payload(
                    file,
                    rgssad::placed(archive.entries),
                    payloads,
                    k,
                )
        }),
{
    let file = packed(archive, payloads);
    let count = archive.entries.len();
    lemma_rgssad_packed(archive, payloads, count);
    rgssad::lemma_record_start_grows(archive.entries, 0, count);
    rgssad::lemma_scan_finds_records(file, archive.entries, 0);
    lemma_magic_after_one(TABLE_SEED);
    assert(rgssad::placed(archive.entries).skip(0) =~= rgssad::placed(archive.entries));
}

/// Reading the table of a packed version 3 archive gives the base seed and
/// the entries as they were placed.
proof fn lemma_rgss3a_reads(archive: ArchiveView, payloads: Seq<Seq<u8>>)
    requires
        archive.version == 3,
        rgss3a::fits(archive.entries),
        payloads_of(archive.entries, payloads),
        plain_names(archive.entries),
    ensures
        ({
            let file = packed(archive, payloads);
            let found = rgss3a::scan(file, HEADER_LEN as nat + 4, table_mask(archive.magic));
            &&& file.len() >= 12
            &&& u32_at(file, 8) == archive.magic
            &&& found.entries == rgss3a::placed(archive.entries)
            &&& found.complete
            &&& file.subrange(0, 8) == header_bytes(archive.version)
            &&& forall|k: int|
                0 <= k < archive.entries.len() ==> holds_payload(
                    file,
                    rgss3a::placed(archive.entries),
                    payloads,
                    k,
                )
        }),
{
    let file = packed(archive, payloads);
    let count = archive.entries.len();
    let entries = rgss3a::placed(archive.entries);
    let xor = table_mask(archive.magic);
    lemma_rgss3a_packed(archive, payloads, count);
    rgss3a::lemma_layout_of_names_and_sizes(entries, archive.entries, count);
    assert forall|i: int| 0 <= i < count implies (#[trigger] entries[i]).offset != 0 && name_len(
        entries[i],
    ) <= u32::MAX && !entries[i].name.contains('\\') by {
        rgss3a::lemma_payload_len_grows(archive.entries, i as nat, count);
        rgss3a::lemma_record_start_grows(archive.entries, (i + 1) as nat, count);
        assert(!archive.entries[i].name.contains('\\'));
    }
    rgss3a::lemma_scan_finds_records(file, entries, 0, xor);
    assert(entries.skip(0) =~= entries);
}

/// The round trip. Let an archive be packed into an empty stream: the
/// header written, then the table, then every payload encoded at the place
/// of its entry. Then reading the header of what was written gives the
/// version, reading the table gives the entries with their names, their
/// sizes and the offsets and seeds they were given, without error, and
/// decoding what lies at the place of an entry gives its payload, byte for
/// byte. This holds of all three versions, of any number of entries and of
/// any payloads whose offsets fit in 32 bits, where no name holds a `\`.
pub proof fn lemma_round_trip(archive: ArchiveView, payloads: Seq<Seq<u8>>, blank: ArchiveView)
    requires
        supported(archive.version),
        table_fits(archive),
        payloads_of(archive.entries, payloads),
        plain_names(archive.entries),
        blank.version == archive.version,
        blank.entries.len() == 0,
    ensures
        ({
            let file = packed(archive, payloads);
            let read = loaded(blank, StreamView { data: file, pos: HEADER_LEN as nat });
            let entries = placed(archive).entries;
            &&& parse_header(file) == Ok::<u8, Error>(archive.version)
            &&& read.0.entries == entries
            &&& archive.version == 3 ==> read.0.magic == archive.magic
            &&& read.2 == Ok::<(), Error>(())
            &&& forall|k: int|
                0 <= k < entries.len() ==> (#[trigger] entries[k]).name == archive.entries[k].name
                    && entries[k].size == archive.entries[k].size
            &&& forall|k: int|
                0 <= k < entries.len() ==> (#[trigger] entries[k]).offset + entries[k].size
                    <= file.len()
            &&& forall|k: int|
                0 <= k < entries.len() ==> #[trigger] decoded(file, entries[k]) == payloads[k]
        }),
{
    let file = packed(archive, payloads);
    let entries = placed(archive).entries;
    let head = header_bytes(archive.version);
    if archive.version == 3 {
        lemma_rgss3a_reads(archive, payloads);
    } else {
        lemma_rgssad_reads(archive, payloads);
    }
    assert(blank.entries + entries =~= entries);
    assert forall|i: int| 0 <= i < 8 implies file[i] == head[i] by {
        assert(file.subrange(0, 8)[i] == file[i]);
    }
    assert forall|k: int| 0 <= k < entries.len() implies (#[trigger] entries[k]).offset
        + entries[k].size <= file.len() by {
        assert(holds_payload(file, entries, payloads, k));
    }
    assert forall|k: int| 0 <= k < entries.len() implies #[trigger] decoded(file, entries[k])
        == payloads[k] by {
        let e = entries[k];
        assert(holds_payload(file, entries, payloads, k));
        assert((StreamView { data: file, pos: e.offset as nat }).remaining().take(e.size as int)
            =~= file.subrange(e.offset as int, e.offset + e.size));
        lemma_codec_involution(payloads[k], e.magic);
    }
}

/// What `pack` made, `unpack` takes apart again: the version, the entries
/// as they were placed, with the base seed in version 3, and behind every
/// entry the payload it was packed with. This holds where no name holds a
/// `\`.
pub proof fn lemma_unpack_packed(archive: ArchiveView, payloads: Seq<Seq<u8>>)
    requires
        supported(archive.version),
        table_fits(archive),
        payloads_of(archive.entries, payloads),
        plain_names(archive.entries),
    ensures
        unpacked(packed(archive, payloads)) == Ok::<ArchiveView, Error>(
            ArchiveView {
                version: archive.version,
                entries: placed(archive).entries,
                magic: if archive.version == 3 {
                    archive.magic
                } else {
                    0
                },
            },
        ),
        forall|k: int|
            0 <= k < archive.entries.len() ==> #[trigger] decoded(
                packed(archive, payloads),
                placed(archive).entries[k],
            ) == payloads[k],
{
    let file = packed(archive, payloads);
    let blank = ArchiveView { version: archive.version, entries: Seq::empty(), magic: 0 };
    let entries = placed(archive).entries;
    lemma_round_trip(archive, payloads, blank);
    assert forall|k: int| 0 <= k < entries.len() implies holds_whole(
        file,
        #[trigger] entries[k],
    ) by {}
}

} // verus!
