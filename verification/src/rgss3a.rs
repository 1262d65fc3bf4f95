//! The table of a version 3 archive: the base seed, then records masked by
//! the one word derived from it, then that word alone as the end mark.
//!
//! A record is the offset of the payload, its size, its seed, the length of
//! the stored name and the stored name. The payloads follow the table.

use vstd::prelude::*;
use crate::entry::EntryView;
use crate::io_util::{le_bytes, lemma_u32_at_le_bytes, u32_at};
use crate::magic::{fixed_mask, lemma_fixed_mask_involution, lemma_xor_involution, table_mask};
use crate::name::{lemma_name_round_trip, loaded_name, stored_name};
use crate::table::{name_len, stop, Scan, HEADER_LEN};

verus! {

/// The record of `e` under the mask `xor`.
pub open spec fn record(e: EntryView, xor: u32) -> Seq<u8> {
    le_bytes(e.offset ^ xor) + le_bytes(e.size ^ xor) + le_bytes(e.magic ^ xor) + le_bytes(
        (name_len(e) as u32) ^ xor,
    ) + fixed_mask(stored_name(e.name), xor)
}

/// The first `k` records under the mask `xor`.
pub open spec fn records(entries: Seq<EntryView>, k: nat, xor: u32) -> Seq<u8>
    decreases k,
{
    if k == 0 {
        Seq::empty()
    } else {
        records(entries, (k - 1) as nat, xor) + record(entries[k - 1], xor)
    }
}

/// The whole table of an archive whose base seed is `magic`.
pub open spec fn table(entries: Seq<EntryView>, magic: u32) -> Seq<u8> {
    le_bytes(magic) + records(entries, entries.len(), table_mask(magic)) + le_bytes(
        table_mask(magic),
    )
}

/// Where record `k` starts: behind the header, the base seed and the first
/// `k` records.
pub open spec fn record_start(entries: Seq<EntryView>, k: nat) -> nat
    decreases k,
{
    if k == 0 {
        HEADER_LEN as nat + 4
    } else {
        record_start(entries, (k - 1) as nat) + 16 + name_len(entries[k - 1])
    }
}

/// How long the first `k` payloads are together.
pub open spec fn payload_len(entries: Seq<EntryView>, k: nat) -> nat
    decreases k,
{
    if k == 0 {
        0
    } else {
        payload_len(entries, (k - 1) as nat) + entries[k - 1].size as nat
    }
}

/// Where payload `k` starts: behind the table and the first `k` payloads.
pub open spec fn payload_start(entries: Seq<EntryView>, k: nat) -> nat {
    record_start(entries, entries.len()) + 4 + payload_len(entries, k)
}

/// Whether every offset of the archive fits in 32 bits.
pub open spec fn fits(entries: Seq<EntryView>) -> bool {
    payload_start(entries, entries.len()) <= u32::MAX
}

/// Entry `k` with the offset that its place among the payloads gives it.
pub open spec fn place(entries: Seq<EntryView>, k: int) -> EntryView {
    EntryView {
        name: entries[k].name,
        size: entries[k].size,
        offset: payload_start(entries, k as nat) as u32,
        magic: entries[k].magic,
    }
}

/// The entries with the first `k` placed.
pub open spec fn placed_upto(entries: Seq<EntryView>, k: nat) -> Seq<EntryView> {
    Seq::new(
        entries.len(),
        |i: int|
            if i < k {
                place(entries, i)
            } else {
                entries[i]
            },
    )
}

/// The entries, every one placed.
pub open spec fn placed(entries: Seq<EntryView>) -> Seq<EntryView> {
    placed_upto(entries, entries.len())
}

/// Walks the records of `data` from `pos` on, under the mask `xor`.
///
/// A record is read as an offset, a size, a seed, the length of a name and
/// the name, each number XORed with the mask and the name with its bytes.
/// The walk ends in order at an offset of zero, which is the end mark,
/// where the data end before an offset is read in full, and where a
/// name is no text. It ends out of order where the data end within a
/// record whose offset was read.
#[verifier::opaque]
pub open spec fn scan(data: Seq<u8>, pos: nat, xor: u32) -> Scan
    decreases
            (if pos <= data.len() {
                data.len() - pos + 1
            } else {
                0
            }),
{
    if pos + 4 > data.len() {
        stop(
            if pos < data.len() {
                data.len()
            } else {
                pos
            },
            true,
        )
    } else if u32_at(data, pos) ^ xor == 0 {
        stop(pos + 4, true)
    } else if pos + 16 > data.len() {
        stop(data.len(), false)
    } else {
        let len = u32_at(data, pos + 12) ^ xor;
        let name_end = pos + 16 + len as nat;
        if name_end > data.len() {
            stop(data.len(), false)
        } else {
            match loaded_name(fixed_mask(data.subrange(pos as int + 16, name_end as int), xor)) {
                None => stop(name_end, true),
                Some(name) => {
                    let found = EntryView {
                        name,
                        size: u32_at(data, pos + 4) ^ xor,
                        offset: u32_at(data, pos) ^ xor,
                        magic: u32_at(data, pos + 8) ^ xor,
                    };
                    let rest = scan(data, name_end, xor);
                    Scan {
                        entries: seq![found] + rest.entries,
                        pos: rest.pos,
                        complete: rest.complete,
                    }
                },
            }
        }
    }
}

/// Records start further on the more of them precede.
pub proof fn lemma_record_start_grows(entries: Seq<EntryView>, j: nat, k: nat)
    requires
        j <= k,
    ensures
        record_start(entries, j) <= record_start(entries, k),
    decreases k,
{
    if j < k {
        lemma_record_start_grows(entries, j, (k - 1) as nat);
    }
}

/// Payloads start further on the more of them precede.
pub proof fn lemma_payload_len_grows(entries: Seq<EntryView>, j: nat, k: nat)
    requires
        j <= k,
    ensures
        payload_len(entries, j) <= payload_len(entries, k),
    decreases k,
{
    if j < k {
        lemma_payload_len_grows(entries, j, (k - 1) as nat);
    }
}

/// The base seed and the first `k` records fill the room between the
/// header and record `k`.
pub proof fn lemma_records_len(entries: Seq<EntryView>, k: nat, xor: u32)
    ensures
        HEADER_LEN + 4 + records(entries, k, xor).len() == record_start(entries, k),
    decreases k,
{
    if k > 0 {
        lemma_records_len(entries, (k - 1) as nat, xor);
    }
}

/// Where records and payloads start depends on the names and sizes of the
/// entries, not on their offsets and seeds.
pub proof fn lemma_layout_of_names_and_sizes(a: Seq<EntryView>, b: Seq<EntryView>, k: nat)
    requires
        k <= a.len(),
        k <= b.len(),
        forall|i: int| 0 <= i < k ==> a[i].name == b[i].name && a[i].size == b[i].size,
    ensures
        record_start(a, k) == record_start(b, k),
        payload_len(a, k) == payload_len(b, k),
    decreases k,
{
    if k > 0 {
        lemma_layout_of_names_and_sizes(a, b, (k - 1) as nat);
    }
}

/// Every field of a record is read back by XOR with the mask it was
/// written with, and a name without `\` is read back as it was.
pub proof fn lemma_record_unmasks(e: EntryView, xor: u32)
    requires
        name_len(e) <= u32::MAX,
    ensures
        record(e, xor).len() == 16 + name_len(e),
        u32_at(record(e, xor), 0) ^ xor == e.offset,
        u32_at(record(e, xor), 4) ^ xor == e.size,
        u32_at(record(e, xor), 8) ^ xor == e.magic,
        u32_at(record(e, xor), 12) ^ xor == name_len(e),
        fixed_mask(record(e, xor).subrange(16, 16 + name_len(e) as int), xor) == stored_name(
            e.name,
        ),
        !e.name.contains('\\') ==> loaded_name(
            fixed_mask(record(e, xor).subrange(16, 16 + name_len(e) as int), xor),
        ) == Some(e.name),
{
    let len = name_len(e) as int;
    let f0 = le_bytes(e.offset ^ xor);
    let f1 = le_bytes(e.size ^ xor);
    let f2 = le_bytes(e.magic ^ xor);
    let f3 = le_bytes((name_len(e) as u32) ^ xor);
    let masked = fixed_mask(stored_name(e.name), xor);
    let whole = record(e, xor);
    assert(whole == f0 + f1 + f2 + f3 + masked);
    assert(whole.subrange(0, 4) =~= f0);
    assert(whole.subrange(4, 8) =~= f1);
    assert(whole.subrange(8, 12) =~= f2);
    assert(whole.subrange(12, 16) =~= f3);
    assert(whole.subrange(16, 16 + len) =~= masked);
    lemma_u32_at_le_bytes(whole, 0, e.offset ^ xor);
    lemma_u32_at_le_bytes(whole, 4, e.size ^ xor);
    lemma_u32_at_le_bytes(whole, 8, e.magic ^ xor);
    lemma_u32_at_le_bytes(whole, 12, (name_len(e) as u32) ^ xor);
    lemma_xor_involution(e.offset, xor);
    lemma_xor_involution(e.size, xor);
    lemma_xor_involution(e.magic, xor);
    lemma_xor_involution(name_len(e) as u32, xor);
    lemma_fixed_mask_involution(stored_name(e.name), xor);
    if !e.name.contains('\\') {
        lemma_name_round_trip(e.name);
    }
}

/// The end mark is read as an offset of zero.
pub proof fn lemma_end_mark_unmasks(xor: u32)
    ensures
        u32_at(le_bytes(xor), 0) ^ xor == 0,
{
    crate::io_util::lemma_le_bytes_round_trip(xor);
    assert(xor ^ xor == 0) by (bit_vector);
}

/// Whether `data` holds record `i` of `entries` where it belongs.
pub open spec fn holds_record(data: Seq<u8>, entries: Seq<EntryView>, i: int, xor: u32) -> bool {
    data.subrange(
        record_start(entries, i as nat) as int,
        record_start(entries, (i + 1) as nat) as int,
    ) == record(entries[i], xor)
}

/// Whether `data` holds the end mark behind the records of `entries`.
pub open spec fn holds_end_mark(data: Seq<u8>, entries: Seq<EntryView>, xor: u32) -> bool {
    &&& record_start(entries, entries.len()) + 4 <= data.len()
    &&& data.subrange(
        record_start(entries, entries.len()) as int,
        record_start(entries, entries.len()) as int + 4,
    ) == le_bytes(xor)
}

/// A walk over data that hold every record from `j` on where it belongs,
/// and the end mark behind the last, finds the entries from `j` on and
/// ends in order behind the end mark, whatever follows it. No offset is
/// zero: it would be read as the end mark. No name holds a `\`: it would
/// be read as `/`.
pub proof fn lemma_scan_finds_records(data: Seq<u8>, entries: Seq<EntryView>, j: nat, xor: u32)
    requires
        j <= entries.len(),
        holds_end_mark(data, entries, xor),
        forall|i: int| j <= i < entries.len() ==> holds_record(data, entries, i, xor),
        forall|i: int|
            j <= i < entries.len() ==> (#[trigger] entries[i]).offset != 0 && name_len(entries[i])
                <= u32::MAX && !entries[i].name.contains('\\'),
    ensures
        scan(data, record_start(entries, j), xor) == (Scan {
            entries: entries.skip(j as int),
            pos: record_start(entries, entries.len()) + 4,
            complete: true,
        }),
    decreases entries.len() - j,
{
    reveal(scan);
    let count = entries.len();
    let pos = record_start(entries, j);
    let at = pos as int;
    if j == count {
        lemma_u32_at_le_bytes(data, pos, xor);
        assert(xor ^ xor == 0) by (bit_vector);
        assert(entries.skip(j as int) =~= Seq::<EntryView>::empty());
    } else {
        let e = entries[j as int];
        let len = name_len(e) as int;
        let whole = record(e, xor);
        lemma_record_start_grows(entries, j + 1, count);
        lemma_record_unmasks(e, xor);
        assert(holds_record(data, entries, j as int, xor));
        assert(data.subrange(at, at + 16 + len) == whole);
        assert forall|i: int| 0 <= i < 16 + len implies data[at + i] == whole[i] by {
            assert(data.subrange(at, at + 16 + len)[i] == data[at + i]);
        }
        assert(u32_at(data, pos) == u32_at(whole, 0));
        assert(u32_at(data, pos + 4) == u32_at(whole, 4));
        assert(u32_at(data, pos + 8) == u32_at(whole, 8));
        assert(u32_at(data, pos + 12) == u32_at(whole, 12));
        assert(data.subrange(at + 16, at + 16 + len) =~= whole.subrange(16, 16 + len));
        lemma_scan_finds_records(data, entries, j + 1, xor);
        assert(seq![e] + entries.skip(j as int + 1) =~= entries.skip(j as int));
    }
}

} // verus!
