//! The seed generator: a 32-bit linear congruential sequence whose states
//! mask every table field and every payload word of an archive.

use vstd::prelude::*;
use crate::io_util::le_bytes;

verus! {

/// The state from which the table of a version 1 or 2 archive is masked.
pub const TABLE_SEED: u32 = 0xDEADCAFE;

/// The state that follows `magic`: `magic * 7 + 3` modulo 2^32.
pub open spec fn next_magic(magic: u32) -> u32 {
    ((magic as int * 7 + 3) % 0x1_0000_0000) as u32
}

/// The state reached from `magic` after `n` steps.
pub open spec fn magic_after(magic: u32, n: nat) -> u32
    decreases n,
{
    if n == 0 {
        magic
    } else {
        next_magic(magic_after(magic, (n - 1) as nat))
    }
}

/// One step from a state is the state that follows it.
pub proof fn lemma_magic_after_one(magic: u32)
    ensures
        magic_after(magic, 0) == magic,
        magic_after(magic, 1) == next_magic(magic),
{
    reveal_with_fuel(magic_after, 2);
}

/// Taking `a` steps and then `b` steps is taking `a + b` steps.
pub proof fn lemma_magic_after_add(magic: u32, a: nat, b: nat)
    ensures
        magic_after(magic_after(magic, a), b) == magic_after(magic, a + b),
    decreases b,
{
    if b > 0 {
        lemma_magic_after_add(magic, a, (b - 1) as nat);
        assert((a + b - 1) as nat == a + (b - 1) as nat);
    }
}

/// Emits the current state and steps `magic` forward once.
pub fn advance_magic(magic: &mut u32) -> (emitted: u32)
    ensures
        emitted == *old(magic),
        *final(magic) == next_magic(*old(magic)),
{
    let emitted = *magic;
    *magic = emitted.wrapping_mul(7).wrapping_add(3);
    proof {
        let m = emitted as int;
        assert(((m * 7) % 0x1_0000_0000 + 3) % 0x1_0000_0000 == (m * 7 + 3) % 0x1_0000_0000) by {
            vstd::arithmetic::div_mod::lemma_add_mod_noop(m * 7, 3, 0x1_0000_0000);
        }
    }
    emitted
}

/// The one mask of every table field of a version 3 archive whose base
/// seed is `magic`: `magic * 9 + 3` modulo 2^32.
pub open spec fn table_mask(magic: u32) -> u32 {
    ((magic as int * 9 + 3) % 0x1_0000_0000) as u32
}

/// Computes `table_mask`.
pub fn fixed_mask_of(magic: u32) -> (xor: u32)
    ensures
        xor == table_mask(magic),
{
    let xor = magic.wrapping_mul(9).wrapping_add(3);
    proof {
        let m = magic as int;
        assert(((m * 9) % 0x1_0000_0000 + 3) % 0x1_0000_0000 == (m * 9 + 3) % 0x1_0000_0000) by {
            vstd::arithmetic::div_mod::lemma_add_mod_noop(m * 9, 3, 0x1_0000_0000);
        }
    }
    xor
}

/// The low byte of `x`.
pub open spec fn low_byte(x: u32) -> u8 {
    (x & 0xff) as u8
}

/// `bytes` masked by a running generator: byte `i` is XORed with the low
/// byte of the state `i` steps after `magic`.
pub open spec fn rolling_mask(bytes: Seq<u8>, magic: u32) -> Seq<u8> {
    Seq::new(bytes.len(), |i: int| bytes[i] ^ low_byte(magic_after(magic, i as nat)))
}

/// `bytes` masked by a fixed word: byte `i` is XORed with byte `i % 4` of
/// `xor`, least significant first.
pub open spec fn fixed_mask(bytes: Seq<u8>, xor: u32) -> Seq<u8> {
    Seq::new(bytes.len(), |i: int| bytes[i] ^ le_bytes(xor)[i % 4])
}

/// Masking twice from one state gives the bytes back.
pub proof fn lemma_rolling_mask_involution(bytes: Seq<u8>, magic: u32)
    ensures
        rolling_mask(rolling_mask(bytes, magic), magic) == bytes,
{
    assert forall|i: int| 0 <= i < bytes.len() implies rolling_mask(
        rolling_mask(bytes, magic),
        magic,
    )[i] == bytes[i] by {
        let b = bytes[i];
        let k = low_byte(magic_after(magic, i as nat));
        assert((b ^ k) ^ k == b) by (bit_vector);
    }
    assert(rolling_mask(rolling_mask(bytes, magic), magic) =~= bytes);
}

/// Masking twice with one word gives the bytes back.
pub proof fn lemma_fixed_mask_involution(bytes: Seq<u8>, xor: u32)
    ensures
        fixed_mask(fixed_mask(bytes, xor), xor) == bytes,
{
    assert forall|i: int| 0 <= i < bytes.len() implies fixed_mask(fixed_mask(bytes, xor), xor)[i]
        == bytes[i] by {
        let b = bytes[i];
        let k = le_bytes(xor)[i % 4];
        assert((b ^ k) ^ k == b) by (bit_vector);
    }
    assert(fixed_mask(fixed_mask(bytes, xor), xor) =~= bytes);
}

/// XORing a number twice with one mask gives the number back.
pub proof fn lemma_xor_involution(x: u32, mask: u32)
    ensures
        (x ^ mask) ^ mask == x,
{
    assert((x ^ mask) ^ mask == x) by (bit_vector);
}

/// Masks `bytes` in place with the low bytes of the states that `magic`
/// runs through, one step for each byte.
pub fn mask_rolling(bytes: &mut [u8], magic: &mut u32)
    ensures
        final(bytes)@ == rolling_mask(old(bytes)@, *old(magic)),
        *final(magic) == magic_after(*old(magic), old(bytes)@.len()),
{
    let len = bytes.len();
    let mut i: usize = 0;
    while i < len
        invariant
            len == bytes@.len(),
            len == old(bytes)@.len(),
            i <= len,
            *magic == magic_after(*old(magic), i as nat),
            forall|j: int| 0 <= j < i ==> bytes@[j] == rolling_mask(old(bytes)@, *old(magic))[j],
            forall|j: int| i <= j < len ==> bytes@[j] == old(bytes)@[j],
        decreases len - i,
    {
        let key = advance_magic(magic);
        let b = bytes[i];
        bytes[i] = b ^ (key & 0xff) as u8;
        i = i + 1;
    }
    assert(bytes@ =~= rolling_mask(old(bytes)@, *old(magic)));
}

/// Masks `bytes` in place with the four bytes of `xor`, over and over.
pub fn mask_fixed(bytes: &mut [u8], xor: u32)
    ensures
        final(bytes)@ == fixed_mask(old(bytes)@, xor),
{
    let key = [
        (xor & 0xff) as u8,
        ((xor >> 8) & 0xff) as u8,
        ((xor >> 16) & 0xff) as u8,
        ((xor >> 24) & 0xff) as u8,
    ];
    assert(key@ =~= le_bytes(xor));
    let len = bytes.len();
    let mut i: usize = 0;
    while i < len
        invariant
            len == bytes@.len(),
            len == old(bytes)@.len(),
            i <= len,
            key@ == le_bytes(xor),
            forall|j: int| 0 <= j < i ==> bytes@[j] == fixed_mask(old(bytes)@, xor)[j],
            forall|j: int| i <= j < len ==> bytes@[j] == old(bytes)@[j],
        decreases len - i,
    {
        let b = bytes[i];
        bytes[i] = b ^ key[i % 4];
        i = i + 1;
    }
    assert(bytes@ =~= fixed_mask(old(bytes)@, xor));
}

} // verus!
