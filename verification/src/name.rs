//! Entry names as the table stores them: UTF-8 with `\` in place of `/`.

use vstd::prelude::*;
use vstd::utf8::*;

verus! {

/// The byte of `/`.
pub const SLASH: u8 = 0x2f;

/// The byte of `\`.
pub const BACKSLASH: u8 = 0x5c;

/// `b`, or `\` where `b` is `/`.
pub open spec fn to_backslash(b: u8) -> u8 {
    if b == SLASH {
        BACKSLASH
    } else {
        b
    }
}

/// `b`, or `/` where `b` is `\`.
pub open spec fn to_slash(b: u8) -> u8 {
    if b == BACKSLASH {
        SLASH
    } else {
        b
    }
}

/// `bytes` with every `/` turned into `\`.
pub open spec fn with_backslashes(bytes: Seq<u8>) -> Seq<u8> {
    Seq::new(bytes.len(), |i: int| to_backslash(bytes[i]))
}

/// `bytes` with every `\` turned into `/`.
pub open spec fn with_slashes(bytes: Seq<u8>) -> Seq<u8> {
    Seq::new(bytes.len(), |i: int| to_slash(bytes[i]))
}

/// The bytes that the table holds for `name`, before masking.
#[verifier::opaque]
pub open spec fn stored_name(name: Seq<char>) -> Seq<u8> {
    with_backslashes(encode_utf8(name))
}

/// What `stored` reads as, once unmasked: its text with every `\` turned
/// into `/`, or nothing where that is not UTF-8.
#[verifier::opaque]
pub open spec fn loaded_name(stored: Seq<u8>) -> Option<Seq<char>> {
    if valid_utf8(with_slashes(stored)) {
        Some(decode_utf8(with_slashes(stored)))
    } else {
        None
    }
}

/// The bytes of one character hold `\` only where the character is `\`.
proof fn lemma_backslash_in_scalar(c: char, i: int)
    requires
        c != '\\',
        0 <= i < encode_scalar(c as u32).len(),
    ensures
        encode_scalar(c as u32)[i] != BACKSLASH,
{
    let s = c as u32;
    char_is_scalar(c);
    if has_width_1_encoding(s) {
        assert(s <= 0x7f && s != 0x5c ==> (s & 0x7f) as u8 != 0x5c) by (bit_vector);
    } else {
        assert(0xC0u8 | ((s >> 6) & 0x1F) as u8 != 0x5c) by (bit_vector);
        assert(0xE0u8 | ((s >> 12) & 0x0F) as u8 != 0x5c) by (bit_vector);
        assert(0xF0u8 | ((s >> 18) & 0x7) as u8 != 0x5c) by (bit_vector);
        assert(0x80u8 | (s & 0x3F) as u8 != 0x5c) by (bit_vector);
        assert(0x80u8 | ((s >> 6) & 0x3F) as u8 != 0x5c) by (bit_vector);
        assert(0x80u8 | ((s >> 12) & 0x3F) as u8 != 0x5c) by (bit_vector);
    }
}

/// The UTF-8 form of a text without `\` holds no `\` byte.
pub proof fn lemma_backslash_free(name: Seq<char>, i: int)
    requires
        !name.contains('\\'),
        0 <= i < encode_utf8(name).len(),
    ensures
        encode_utf8(name)[i] != BACKSLASH,
    decreases name.len(),
{
    if name.len() > 0 {
        let first = encode_scalar(name[0] as u32);
        assert(name.contains(name[0]));
        if i < first.len() {
            lemma_backslash_in_scalar(name[0], i);
        } else {
            let rest = name.drop_first();
            assert forall|c: char| rest.contains(c) implies name.contains(c) by {
                let j = choose|j: int| 0 <= j < rest.len() && rest[j] == c;
                assert(name[j + 1] == c);
            }
            lemma_backslash_free(rest, i - first.len());
        }
    }
}

/// A name without `\` is stored with `\` in place of every `/`, as many
/// bytes long as its UTF-8 form, and read back as it was.
pub proof fn lemma_name_round_trip(name: Seq<char>)
    requires
        !name.contains('\\'),
    ensures
        loaded_name(stored_name(name)) == Some(name),
        !stored_name(name).contains(SLASH),
        stored_name(name).len() == encode_utf8(name).len(),
{
    reveal(stored_name);
    reveal(loaded_name);
    let bytes = encode_utf8(name);
    assert forall|i: int| 0 <= i < bytes.len() implies with_slashes(stored_name(name))[i]
        == bytes[i] by {
        lemma_backslash_free(name, i);
    }
    assert(with_slashes(stored_name(name)) =~= bytes);
    encode_utf8_valid_utf8(name);
    encode_utf8_decode_utf8(name);
    assert forall|i: int| 0 <= i < stored_name(name).len() implies stored_name(name)[i]
        != SLASH by {}
}

/// What is read from stored bytes is stored in as many bytes: reading
/// changes no length.
pub proof fn lemma_loaded_name_len(stored: Seq<u8>)
    requires
        loaded_name(stored) is Some,
    ensures
        stored_name(loaded_name(stored)->Some_0).len() == stored.len(),
{
    reveal(stored_name);
    reveal(loaded_name);
    decode_utf8_encode_utf8(with_slashes(stored));
}

/// Whether `a` and `b` are the same text.
pub fn same_text(a: &str, b: &str) -> (same: bool)
    ensures
        same == (a@ == b@),
{
    let x = a.as_bytes();
    let y = b.as_bytes();
    proof {
        encode_utf8_decode_utf8(a@);
        encode_utf8_decode_utf8(b@);
    }
    if x.len() != y.len() {
        return false;
    }
    let len = x.len();
    let mut i: usize = 0;
    while i < len
        invariant
            i <= len,
            len == x@.len(),
            len == y@.len(),
            x@ == encode_utf8(a@),
            y@ == encode_utf8(b@),
            forall|j: int| 0 <= j < i ==> x@[j] == y@[j],
        decreases len - i,
    {
        if x[i] != y[i] {
            return false;
        }
        i = i + 1;
    }
    assert(x@ =~= y@);
    true
}

/// Turns every `/` of `name` into `\`.
pub fn backslashes(name: &mut [u8])
    ensures
        final(name)@ == with_backslashes(old(name)@),
{
    let len = name.len();
    let mut i: usize = 0;
    while i < len
        invariant
            len == name@.len(),
            len == old(name)@.len(),
            i <= len,
            forall|j: int| 0 <= j < i ==> name@[j] == to_backslash(old(name)@[j]),
            forall|j: int| i <= j < len ==> name@[j] == old(name)@[j],
        decreases len - i,
    {
        if name[i] == SLASH {
            name[i] = BACKSLASH;
        }
        i = i + 1;
    }
    assert(name@ =~= with_backslashes(old(name)@));
}

/// Turns every `\` of `name` into `/`.
pub fn slashes(name: &mut [u8])
    ensures
        final(name)@ == with_slashes(old(name)@),
{
    let len = name.len();
    let mut i: usize = 0;
    while i < len
        invariant
            len == name@.len(),
            len == old(name)@.len(),
            i <= len,
            forall|j: int| 0 <= j < i ==> name@[j] == to_slash(old(name)@[j]),
            forall|j: int| i <= j < len ==> name@[j] == old(name)@[j],
        decreases len - i,
    {
        if name[i] == BACKSLASH {
            name[i] = SLASH;
        }
        i = i + 1;
    }
    assert(name@ =~= with_slashes(old(name)@));
}

/// `String::from_utf8` of std, with its error dropped: the bytes become a
/// string exactly when they are valid UTF-8, and the string then holds
/// these bytes.
#[verifier::external_body]
fn string_from_utf8(bytes: Vec<u8>) -> (text: Option<String>)
    ensures
        text is Some <==> valid_utf8(bytes@),
        text is Some ==> encode_utf8(text->Some_0@) == bytes@,
{
    match String::from_utf8(bytes) {
        Ok(text) => Some(text),
        Err(_) => None,
    }
}

/// Reads an unmasked stored name: turns every `\` into `/` and takes the
/// bytes as UTF-8 text.
pub fn load_name(stored: Vec<u8>) -> (name: Option<String>)
    ensures
        name is Some <==> loaded_name(stored@) is Some,
        name is Some ==> name->Some_0@ == loaded_name(stored@)->Some_0,
{
    let mut bytes = stored;
    slashes(bytes.as_mut_slice());
    let name = string_from_utf8(bytes);
    proof {
        reveal(loaded_name);
        if name is Some {
            encode_utf8_decode_utf8(name->Some_0@);
        }
    }
    name
}

/// The bytes to store for `name`, before masking.
pub fn store_name(name: &str) -> (stored: Vec<u8>)
    ensures
        stored@ == stored_name(name@),
{
    let mut bytes = vstd::slice::slice_to_vec(name.as_bytes());
    backslashes(bytes.as_mut_slice());
    proof {
        reveal(stored_name);
    }
    bytes
}

/// The length of the bytes to store for `name`.
pub fn stored_len(name: &str) -> (len: usize)
    ensures
        len == stored_name(name@).len(),
{
    proof {
        reveal(stored_name);
    }
    name.as_bytes().len()
}

} // verus!
