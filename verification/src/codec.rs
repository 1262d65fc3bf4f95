//! The payload cipher: every 32-bit word of a payload is XORed with the
//! next state of the seed generator, and a last partial word with the bytes
//! of the state that follows.

use vstd::prelude::*;
use crate::error::Error;
use crate::io_util::{le_bytes, lemma_write_nothing, lemma_write_write, ByteStream, ReadFull};
use crate::magic::{advance_magic, lemma_magic_after_add, magic_after};

verus! {

/// The keystream byte that masks byte `i` of a payload keyed by `magic`.
pub open spec fn key_byte(magic: u32, i: nat) -> u8 {
    le_bytes(magic_after(magic, i / 4))[(i % 4) as int]
}

/// `data` with every byte XORed with its keystream byte: the encoded form
/// of a raw payload, and the raw form of an encoded one.
pub open spec fn codec(data: Seq<u8>, magic: u32) -> Seq<u8> {
    Seq::new(data.len(), |i: int| data[i] ^ key_byte(magic, i as nat))
}

/// How many bytes a copy moves: as many as are asked for and the source
/// has, and none through an empty working buffer.
pub open spec fn copied_len(buf_len: nat, size: u32, available: nat) -> nat {
    if buf_len == 0 {
        0
    } else if size <= available {
        size as nat
    } else {
        available
    }
}

/// Applying the cipher twice with one seed gives the bytes back.
pub proof fn lemma_codec_involution(data: Seq<u8>, magic: u32)
    ensures
        codec(codec(data, magic), magic) == data,
{
    assert forall|i: int| 0 <= i < data.len() implies codec(codec(data, magic), magic)[i]
        == data[i] by {
        let b = data[i];
        let k = key_byte(magic, i as nat);
        assert((b ^ k) ^ k == b) by (bit_vector);
    }
    assert(codec(codec(data, magic), magic) =~= data);
}

/// The cipher commutes with cutting a payload at a word boundary: the part
/// after the first `words` words is keyed by the state `words` steps on.
pub proof fn lemma_codec_split(data: Seq<u8>, magic: u32, words: nat)
    requires
        4 * words <= data.len(),
    ensures
        codec(data, magic) == codec(data.take(4 * words as int), magic) + codec(
            data.skip(4 * words as int),
            magic_after(magic, words),
        ),
{
    let head = codec(data.take(4 * words as int), magic);
    let tail = codec(data.skip(4 * words as int), magic_after(magic, words));
    assert forall|i: int| 0 <= i < data.len() implies codec(data, magic)[i] == (head + tail)[i] by {
        if i >= 4 * words {
            let j = (i - 4 * words) as nat;
            lemma_magic_after_add(magic, words, j / 4);
            assert((i as nat) / 4 == words + j / 4);
            assert((i as nat) % 4 == j % 4);
        }
    }
    assert(codec(data, magic) =~= head + tail);
}

proof fn lemma_word_xor(b0: u8, b1: u8, b2: u8, b3: u8, m: u32)
    by (bit_vector)
    ensures
        ({
            let x = ((b0 as u32) | (b1 as u32) << 8 | (b2 as u32) << 16 | (b3 as u32) << 24) ^ m;
            &&& (x & 0xff) as u8 == b0 ^ ((m & 0xff) as u8)
            &&& ((x >> 8) & 0xff) as u8 == b1 ^ (((m >> 8) & 0xff) as u8)
            &&& ((x >> 16) & 0xff) as u8 == b2 ^ (((m >> 16) & 0xff) as u8)
            &&& ((x >> 24) & 0xff) as u8 == b3 ^ (((m >> 24) & 0xff) as u8)
        }),
{
}

/// Runs the cipher over `data` in place, word by word, and returns the
/// generator state after the last complete word.
pub fn apply_keystream(data: &mut [u8], magic: u32) -> (next: u32)
    ensures
        final(data)@ == codec(old(data)@, magic),
        next == magic_after(magic, old(data)@.len() / 4),
{
    let len = data.len();
    let words = len / 4;
    let mut magic = magic;
    let ghost start = magic;
    let mut w: usize = 0;
    while w < words
        invariant
            len == data@.len(),
            len == old(data)@.len(),
            words == len / 4,
            w <= words,
            magic == magic_after(start, w as nat),
            forall|i: int| 0 <= i < 4 * w ==> data@[i] == codec(old(data)@, start)[i],
            forall|i: int| 4 * w <= i < len ==> data@[i] == old(data)@[i],
        decreases words - w,
    {
        let at = 4 * w;
        let b0 = data[at];
        let b1 = data[at + 1];
        let b2 = data[at + 2];
        let b3 = data[at + 3];
        let word = (b0 as u32) | (b1 as u32) << 8 | (b2 as u32) << 16 | (b3 as u32) << 24;
        let ghost key = magic;
        let x = word ^ advance_magic(&mut magic);
        data[at] = (x & 0xff) as u8;
        data[at + 1] = ((x >> 8) & 0xff) as u8;
        data[at + 2] = ((x >> 16) & 0xff) as u8;
        data[at + 3] = ((x >> 24) & 0xff) as u8;
        proof {
            lemma_word_xor(b0, b1, b2, b3, key);
            assert forall|i: int| at <= i < at + 4 implies data@[i] == codec(
                old(data)@,
                start,
            )[i] by {
                assert((i as nat) / 4 == w);
            }
        }
        w = w + 1;
    }
    let key = [
        (magic & 0xff) as u8,
        ((magic >> 8) & 0xff) as u8,
        ((magic >> 16) & 0xff) as u8,
        ((magic >> 24) & 0xff) as u8,
    ];
    assert(key@ =~= le_bytes(magic));
    let tail = 4 * words;
    let mut i: usize = 0;
    while tail + i < len
        invariant
            len == data@.len(),
            len == old(data)@.len(),
            words == len / 4,
            tail == 4 * words,
            i <= len - tail,
            key@ == le_bytes(magic),
            magic == magic_after(start, words as nat),
            forall|j: int| 0 <= j < tail + i ==> data@[j] == codec(old(data)@, start)[j],
            forall|j: int| tail + i <= j < len ==> data@[j] == old(data)@[j],
        decreases len - tail - i,
    {
        let b = data[tail + i];
        data[tail + i] = b ^ key[i];
        proof {
            assert(((tail + i) as nat) / 4 == words);
            assert(((tail + i) as nat) % 4 == i);
        }
        i = i + 1;
    }
    assert(data@ =~= codec(old(data)@, start));
    magic
}

/// Copies up to `size` bytes from `input` to `output` through the working
/// buffer `buf`, applying the cipher keyed by `magic`. A source that ends
/// early ends the copy without error. Where `output` cannot take what is
/// to be copied, nothing is copied.
pub fn run_codec(
    buf: &mut [u8],
    input: &mut ByteStream,
    output: &mut ByteStream,
    size: u32,
    magic: u32,
) -> (r: Result<(), Error>)
    requires
        old(buf)@.len() % 4 == 0,
    ensures
        final(buf)@.len() == old(buf)@.len(),
        ({
            let n = copied_len(old(buf)@.len(), size, old(input)@.available());
            let moved = codec(old(input)@.remaining().take(n as int), magic);
            &&& r is Ok <==> (n == 0 || old(output)@.pos + n <= usize::MAX)
            &&& r is Ok ==> final(input)@ == old(input)@.advance(n)
            &&& r is Ok ==> final(output)@ == old(output)@.write(moved)
            &&& r is Err ==> r == Err::<(), Error>(Error::StorageFull)
            &&& r is Err ==> final(input)@ == old(input)@ && final(output)@ == old(output)@
        }),
{
    let limit = buf.len();
    let available = input.available();
    let total = if limit == 0 {
        0
    } else if size as usize <= available {
        size as usize
    } else {
        available
    };
    if !output.has_room(total) {
        return Err(Error::StorageFull);
    }
    let ghost source = old(input)@.remaining();
    let ghost n = copied_len(old(buf)@.len(), size, old(input)@.available());
    let mut left = size;
    let mut state = magic;
    let ghost mut done: nat = 0;
    proof {
        lemma_write_nothing(output@);
        assert(codec(source.take(0), magic) =~= Seq::<u8>::empty());
    }
    loop
        invariant
            limit == buf@.len(),
            limit % 4 == 0,
            buf@.len() == old(buf)@.len(),
            source == old(input)@.remaining(),
            n == copied_len(limit as nat, size, old(input)@.available()),
            n == 0 || old(output)@.pos + n <= usize::MAX,
            done + left == size,
            done <= n,
            done <= old(input)@.available(),
            input@ == old(input)@.advance(done),
            done % 4 == 0 || left == 0 || input@.available() == 0,
            done % 4 == 0 ==> state == magic_after(magic, done / 4),
            output@ == old(output)@.write(codec(source.take(done as int), magic)),
        ensures
            done == n,
        decreases left,
    {
        let chunk = if limit < left as usize {
            limit
        } else {
            left as usize
        };
        let (head, _) = buf.split_at_mut(chunk);
        assert(head@.len() == chunk);
        let read = input.read_full(head)?;
        if read == 0 {
            break ;
        }
        let (data, _) = head.split_at_mut(read);
        let ghost raw = data@;
        let ghost key = state;
        state = apply_keystream(data, state);
        proof {
            let whole = source.take(done + read);
            assert(raw =~= source.subrange(done as int, done + read));
            assert(whole.take(4 * (done / 4) as int) =~= source.take(done as int));
            assert(whole.skip(4 * (done / 4) as int) =~= raw);
            lemma_codec_split(whole, magic, done / 4);
            lemma_magic_after_add(magic, done / 4, (read as nat) / 4);
        }
        left = left - read as u32;
        output.write_all(data)?;
        proof {
            lemma_write_write(
                old(output)@,
                codec(source.take(done as int), magic),
                codec(raw, key),
            );
            done = done + read as nat;
        }
    }
    Ok(())
}

} // verus!
