//! The table of a version 1 or 2 archive: records masked by one running
//! generator, each followed at once by the payload it describes.
//!
//! A record is the length of the stored name, the stored name and the size
//! of the payload. The generator steps once for each number and once for
//! each byte of the name; the state it is left in keys the payload.

use vstd::prelude::*;
use crate::entry::EntryView;
use crate::io_util::{le_bytes, lemma_u32_at_le_bytes, u32_at};
use crate::magic::{
    lemma_magic_after_add, lemma_magic_after_one, lemma_rolling_mask_involution,
    lemma_xor_involution, magic_after, next_magic, rolling_mask, TABLE_SEED,
};
use crate::name::{lemma_loaded_name_len, lemma_name_round_trip, loaded_name, stored_name};
use crate::table::{name_len, stop, Scan, HEADER_LEN};

verus! {

/// The record of `e`, written with the generator at `magic`.
pub open spec fn record(e: EntryView, magic: u32) -> Seq<u8> {
    le_bytes((name_len(e) as u32) ^ magic) + rolling_mask(stored_name(e.name), next_magic(magic))
        + le_bytes(e.size ^ magic_after(magic, name_len(e) + 1))
}

/// How many steps the generator takes over the first `k` records.
pub open spec fn steps(entries: Seq<EntryView>, k: nat) -> nat
    decreases k,
{
    if k == 0 {
        0
    } else {
        steps(entries, (k - 1) as nat) + name_len(entries[k - 1]) + 2
    }
}

/// Where record `k` starts: behind the header and the first `k` records
/// with their payloads.
pub open spec fn record_start(entries: Seq<EntryView>, k: nat) -> nat
    decreases k,
{
    if k == 0 {
        HEADER_LEN as nat
    } else {
        record_start(entries, (k - 1) as nat) + name_len(entries[k - 1]) + 8
            + entries[k - 1].size as nat
    }
}

/// The state of the generator in front of record `k`.
pub open spec fn magic_at(entries: Seq<EntryView>, k: nat) -> u32 {
    magic_after(TABLE_SEED, steps(entries, k))
}

/// The first `k` records, each followed by as many zeros as its payload is
/// long.
pub open spec fn table(entries: Seq<EntryView>, k: nat) -> Seq<u8>
    decreases k,
{
    if k == 0 {
        Seq::empty()
    } else {
        table(entries, (k - 1) as nat) + record(entries[k - 1], magic_at(entries, (k - 1) as nat))
            + Seq::new(entries[k - 1].size as nat, |i: int| 0u8)
    }
}

/// Whether every offset of the archive fits in 32 bits.
pub open spec fn fits(entries: Seq<EntryView>) -> bool {
    record_start(entries, entries.len()) <= u32::MAX
}

/// Entry `k` with the offset and the seed that its place in the table
/// gives it: the payload starts behind the record, keyed by the state that
/// the record leaves.
pub open spec fn place(entries: Seq<EntryView>, k: int) -> EntryView {
    EntryView {
        name: entries[k].name,
        size: entries[k].size,
        offset: (record_start(entries, k as nat) + name_len(entries[k]) + 8) as u32,
        magic: magic_at(entries, (k + 1) as nat),
    }
}

/// The entries with the first `k` placed.
pub open spec fn placed_upto(entries: Seq<EntryView>, k: nat) -> Seq<EntryView> {
    Seq::new(
        entries.len(),
        |i: int|
            if i < k {
                place(entries, i)
            } else {
                entries[i]
            },
    )
}

/// The entries, every one placed.
pub open spec fn placed(entries: Seq<EntryView>) -> Seq<EntryView> {
    placed_upto(entries, entries.len())
}

/// Walks the records of `data` from `pos` on, with the generator at `magic`.
///
/// A record is read as the length of a name, the name and a size, each
/// number XORed with one state of the generator and each byte of the name
/// with the low byte of one. The payload starts behind the size and is
/// skipped; the state behind the size is its seed. The walk ends in order
/// where the data end before one of the three is read in full, and where
/// a name is no text. It ends out of order where a payload starts beyond
/// the 32-bit range.
#[verifier::opaque]
pub open spec fn scan(data: Seq<u8>, pos: nat, magic: u32) -> Scan
    decreases
            (if pos <= data.len() {
                data.len() - pos + 1
            } else {
                0
            }),
{
    if pos + 4 > data.len() {
        stop(
            if pos < data.len() {
                data.len()
            } else {
                pos
            },
            true,
        )
    } else {
        let len = u32_at(data, pos) ^ magic;
        let name_end = pos + 4 + len as nat;
        if name_end > data.len() {
            stop(data.len(), true)
        } else {
            let key = magic_after(magic, (len + 1) as nat);
            let offset = name_end + 4;
            match loaded_name(
                rolling_mask(data.subrange(pos as int + 4, name_end as int), next_magic(magic)),
            ) {
                None => stop(name_end, true),
                Some(name) => if offset > data.len() {
                    stop(data.len(), true)
                } else if offset > u32::MAX {
                    stop(offset, false)
                } else {
                    let size = u32_at(data, name_end) ^ key;
                    let found = EntryView {
                        name,
                        size,
                        offset: offset as u32,
                        magic: next_magic(key),
                    };
                    let rest = scan(data, offset + size as nat, next_magic(key));
                    Scan {
                        entries: seq![found] + rest.entries,
                        pos: rest.pos,
                        complete: rest.complete,
                    }
                },
            }
        }
    }
}

/// Records start further on the more of them precede.
pub proof fn lemma_record_start_grows(entries: Seq<EntryView>, j: nat, k: nat)
    requires
        j <= k,
    ensures
        record_start(entries, j) <= record_start(entries, k),
    decreases k,
{
    if j < k {
        lemma_record_start_grows(entries, j, (k - 1) as nat);
    }
}

/// The first `k` records and payloads fill the room between the header
/// and record `k`.
pub proof fn lemma_table_len(entries: Seq<EntryView>, k: nat)
    ensures
        table(entries, k).len() + HEADER_LEN == record_start(entries, k),
    decreases k,
{
    if k > 0 {
        lemma_table_len(entries, (k - 1) as nat);
    }
}

/// Where the records start and how far the generator has run depend on
/// the names and sizes of the entries before, not on their offsets and
/// seeds.
pub proof fn lemma_layout_of_names_and_sizes(a: Seq<EntryView>, b: Seq<EntryView>, k: nat)
    requires
        k <= a.len(),
        k <= b.len(),
        forall|i: int| 0 <= i < k ==> a[i].name == b[i].name && a[i].size == b[i].size,
    ensures
        steps(a, k) == steps(b, k),
        record_start(a, k) == record_start(b, k),
        table(a, k) == table(b, k),
    decreases k,
{
    if k > 0 {
        lemma_layout_of_names_and_sizes(a, b, (k - 1) as nat);
    }
}

/// The steps over records with one more in front are the steps over that
/// one and over the others.
proof fn lemma_steps_prepend(e: EntryView, rest: Seq<EntryView>, k: nat)
    requires
        k <= rest.len(),
    ensures
        steps(seq![e] + rest, k + 1) == name_len(e) + 2 + steps(rest, k),
    decreases k,
{
    let all = seq![e] + rest;
    if k == 0 {
        assert(all[0] == e);
        assert(steps(all, 0) == 0);
    } else {
        lemma_steps_prepend(e, rest, (k - 1) as nat);
        assert(all[k as int] == rest[k - 1]);
    }
}

/// The seed of every entry that a walk finds is the state that the
/// generator reaches from the state in front of the first record over the
/// records up to this entry's own: two steps for each record and one more
/// for each byte of its name.
pub proof fn lemma_scan_seeds(data: Seq<u8>, pos: nat, magic: u32, k: int)
    requires
        0 <= k < scan(data, pos, magic).entries.len(),
    ensures
        scan(data, pos, magic).entries[k].magic == magic_after(
            magic,
            steps(scan(data, pos, magic).entries, (k + 1) as nat),
        ),
    decreases
            (if pos <= data.len() {
                data.len() - pos + 1
            } else {
                0
            }),
{
    reveal(scan);
    let len = u32_at(data, pos) ^ magic;
    let name_end = pos + 4 + len as nat;
    let key = magic_after(magic, (len + 1) as nat);
    let offset = name_end + 4;
    let stored = rolling_mask(data.subrange(pos as int + 4, name_end as int), next_magic(magic));
    let name = loaded_name(stored)->Some_0;
    let size = u32_at(data, name_end) ^ key;
    let found = EntryView { name, size, offset: offset as u32, magic: next_magic(key) };
    let rest = scan(data, offset + size as nat, next_magic(key));
    let all = scan(data, pos, magic).entries;
    assert(all == seq![found] + rest.entries);
    lemma_loaded_name_len(stored);
    assert(name_len(found) == len);
    lemma_steps_prepend(found, rest.entries, k as nat);
    lemma_magic_after_one(key);
    lemma_magic_after_add(magic, (len + 1) as nat, 1);
    if k > 0 {
        lemma_scan_seeds(data, offset + size as nat, next_magic(key), k - 1);
        lemma_magic_after_add(magic, (len + 2) as nat, steps(rest.entries, k as nat));
        assert(all[k] == rest.entries[k - 1]);
    } else {
        reveal_with_fuel(steps, 2);
        assert(all[0] == found);
    }
}

/// The seed that `place` gives entry `k` is the state that the generator
/// reaches from its first state over the records up to this entry's own.
pub proof fn lemma_placed_seeds(entries: Seq<EntryView>, k: int)
    requires
        0 <= k < entries.len(),
    ensures
        placed(entries)[k].magic == magic_after(
            TABLE_SEED,
            steps(placed(entries), (k + 1) as nat),
        ),
{
    lemma_layout_of_names_and_sizes(placed(entries), entries, (k + 1) as nat);
}

/// Whether `data` holds record `i` of `entries` where it belongs.
pub open spec fn holds_record(data: Seq<u8>, entries: Seq<EntryView>, i: int) -> bool {
    data.subrange(
        record_start(entries, i as nat) as int,
        record_start(entries, i as nat) as int + name_len(entries[i]) + 8,
    ) == record(entries[i], magic_at(entries, i as nat))
}

/// A walk over data that end with the last payload and hold every record
/// from `j` on where it belongs finds, from record `j` on, the entries as
/// `place` places them, and ends in order at the end of the data. No name
/// holds a `\`: it would be read as `/`.
pub proof fn lemma_scan_finds_records(data: Seq<u8>, entries: Seq<EntryView>, j: nat)
    requires
        j <= entries.len(),
        fits(entries),
        data.len() == record_start(entries, entries.len()),
        forall|i: int| j <= i < entries.len() ==> holds_record(data, entries, i),
        forall|i: int| j <= i < entries.len() ==> !(#[trigger] entries[i]).name.contains('\\'),
    ensures
        scan(data, record_start(entries, j), magic_at(entries, j)) == (Scan {
            entries: placed(entries).skip(j as int),
            pos: data.len(),
            complete: true,
        }),
    decreases entries.len() - j,
{
    reveal(scan);
    let count = entries.len();
    let pos = record_start(entries, j);
    let magic = magic_at(entries, j);
    if j == count {
        assert(placed(entries).skip(j as int) =~= Seq::<EntryView>::empty());
    } else {
        let e = entries[j as int];
        let len = name_len(e);
        let stored = stored_name(e.name);
        let key = magic_after(magic, len + 1);
        let field = le_bytes((len as u32) ^ magic);
        let masked = rolling_mask(stored, next_magic(magic));
        let tail = le_bytes(e.size ^ key);
        let name_end = pos + 4 + len;
        let at = pos as int;
        let n = len as int;
        lemma_record_start_grows(entries, j + 1, count);
        assert(holds_record(data, entries, j as int));
        let whole = data.subrange(at, at + n + 8);
        assert(whole == field + masked + tail);
        assert(data.subrange(at, at + 4) =~= whole.subrange(0, 4));
        assert(whole.subrange(0, 4) =~= field);
        assert(data.subrange(at + 4, name_end as int) =~= whole.subrange(4, 4 + n));
        assert(whole.subrange(4, 4 + n) =~= masked);
        assert(data.subrange(name_end as int, name_end as int + 4) =~= whole.subrange(
            4 + n,
            8 + n,
        ));
        assert(whole.subrange(4 + n, 8 + n) =~= tail);
        lemma_u32_at_le_bytes(data, pos, (len as u32) ^ magic);
        lemma_xor_involution(len as u32, magic);
        lemma_rolling_mask_involution(stored, next_magic(magic));
        lemma_name_round_trip(e.name);
        lemma_u32_at_le_bytes(data, name_end, e.size ^ key);
        lemma_xor_involution(e.size, key);
        lemma_magic_after_one(key);
        lemma_magic_after_add(magic, len + 1, 1);
        lemma_magic_after_add(TABLE_SEED, steps(entries, j), len + 2);
        lemma_scan_finds_records(data, entries, j + 1);
        assert(seq![place(entries, j as int)] + placed(entries).skip(j as int + 1) =~= placed(
            entries,
        ).skip(j as int));
    }
}

} // verus!
