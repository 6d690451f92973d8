//! Facts about UTF-8 that the text cursors rest on.
//!
//! Lengths and offsets of text count bytes of its UTF-8 encoding, as `str::len` does. A text
//! may only be cut where one character's encoding ends and the next begins; the lemmas here
//! carry such a boundary from a whole text to the chunk it falls in.

use vstd::prelude::*;
use vstd::utf8::{
    decode_utf8, decode_utf8_encode_utf8, decode_utf8_first_scalar, encode_scalar, encode_utf8,
    encode_utf8_decode_utf8, encode_utf8_first_scalar, encode_utf8_valid_utf8, is_ascii_chars,
    is_ascii_chars_encode_utf8, is_char_boundary, is_char_boundary_iff_not_is_continuation_byte,
    is_char_boundary_start_end_of_seq, length_of_first_scalar, pop_first_scalar,
    take_first_scalar, valid_utf8, valid_utf8_concat, valid_utf8_split,
};
use crate::chunks::insert_chunks;

verus! {

/// Every chunk is valid UTF-8 by itself.
pub open spec fn all_utf8(chunks: Seq<Seq<u8>>) -> bool {
    forall|i: int| 0 <= i < chunks.len() ==> valid_utf8(#[trigger] chunks[i])
}

/// The characters that a sequence of chunks encodes.
pub open spec fn text(chunks: Seq<Seq<u8>>) -> Seq<char> {
    decode_utf8(chunks.flatten())
}

/// The characters of each chunk, chunk by chunk.
pub open spec fn decode_chunks(chunks: Seq<Seq<u8>>) -> Seq<Seq<char>> {
    chunks.map_values(|chunk: Seq<u8>| decode_utf8(chunk))
}

/// The number of bytes that encode `c`.
pub open spec fn char_width(c: char) -> nat {
    encode_scalar(c as u32).len()
}

/// The characters of `orig` with `ins` placed behind those that take up its first `idx` bytes.
///
/// Characters of `orig` go first until their encodings have filled `idx` bytes. When `orig`
/// holds fewer bytes than that, `ins` follows all of it.
pub open spec fn insert_chars(orig: Seq<char>, ins: Seq<char>, idx: nat) -> Seq<char>
    decreases orig.len(),
{
    if idx == 0 {
        ins + orig
    } else if orig.len() == 0 {
        ins
    } else {
        let left = if idx <= char_width(orig[0]) {
            0
        } else {
            (idx - char_width(orig[0])) as nat
        };
        seq![orig[0]] + insert_chars(orig.drop_first(), ins, left)
    }
}

/// The number of bytes that encode `c`, between one and four.
pub fn len_utf8(c: char) -> (n: usize)
    ensures
        n == char_width(c),
        1 <= n <= 4,
{
    let v = c as u32;
    if v < 0x80 {
        1
    } else if v < 0x800 {
        2
    } else if v < 0x1_0000 {
        3
    } else {
        4
    }
}

/// Encoding goes chunk by chunk: the encoding of two texts joined is their encodings joined.
pub proof fn lemma_encode_concat(a: Seq<char>, b: Seq<char>)
    ensures
        encode_utf8(a + b) == encode_utf8(a) + encode_utf8(b),
    decreases a.len(),
{
    if a.len() > 0 {
        lemma_encode_concat(a.drop_first(), b);
        assert((a + b).drop_first() =~= a.drop_first() + b);
    }
}

/// Decoding goes chunk by chunk where each chunk is valid UTF-8.
pub proof fn lemma_decode_concat(a: Seq<u8>, b: Seq<u8>)
    requires
        valid_utf8(a),
        valid_utf8(b),
    ensures
        valid_utf8(a + b),
        decode_utf8(a + b) == decode_utf8(a) + decode_utf8(b),
{
    valid_utf8_concat(a, b);
    decode_utf8_encode_utf8(a);
    decode_utf8_encode_utf8(b);
    lemma_encode_concat(decode_utf8(a), decode_utf8(b));
    encode_utf8_decode_utf8(decode_utf8(a) + decode_utf8(b));
}

/// Two texts with the same encoding are the same text.
pub proof fn lemma_encode_injective(a: Seq<char>, b: Seq<char>)
    requires
        encode_utf8(a) == encode_utf8(b),
    ensures
        a == b,
{
    encode_utf8_decode_utf8(a);
    encode_utf8_decode_utf8(b);
}

/// Chunks of valid UTF-8 join to valid UTF-8.
pub proof fn lemma_flatten_utf8(chunks: Seq<Seq<u8>>)
    requires
        all_utf8(chunks),
    ensures
        valid_utf8(chunks.flatten()),
    decreases chunks.len(),
{
    if chunks.len() > 0 {
        lemma_flatten_utf8(chunks.drop_first());
        valid_utf8_concat(chunks[0], chunks.drop_first().flatten());
    }
}

/// Decoding valid chunks one by one and joining the characters gives the characters of the
/// joined chunks.
pub proof fn lemma_decode_chunks(chunks: Seq<Seq<u8>>)
    requires
        all_utf8(chunks),
    ensures
        decode_chunks(chunks).flatten() == text(chunks),
    decreases chunks.len(),
{
    if chunks.len() > 0 {
        let rest = chunks.drop_first();
        lemma_decode_chunks(rest);
        lemma_flatten_utf8(rest);
        lemma_decode_concat(chunks[0], rest.flatten());
        assert(decode_chunks(chunks).drop_first() =~= decode_chunks(rest));
    }
}

/// A position in the first of two joined texts is a boundary of the whole exactly when it is
/// one of that part.
pub proof fn lemma_boundary_in_front(a: Seq<u8>, b: Seq<u8>, k: int)
    requires
        valid_utf8(a),
        valid_utf8(b),
        0 <= k <= a.len(),
    ensures
        is_char_boundary(a + b, k) <==> is_char_boundary(a, k),
{
    valid_utf8_concat(a, b);
    is_char_boundary_start_end_of_seq(a);
    if k < a.len() {
        is_char_boundary_iff_not_is_continuation_byte(a, k);
        is_char_boundary_iff_not_is_continuation_byte(a + b, k);
    } else if b.len() > 0 {
        is_char_boundary_iff_not_is_continuation_byte(a + b, k);
    }
}

/// A position in the second of two joined texts is a boundary of the whole exactly when it
/// is one of that part.
pub proof fn lemma_boundary_behind(a: Seq<u8>, b: Seq<u8>, k: int)
    requires
        valid_utf8(a),
        valid_utf8(b),
        0 <= k <= b.len(),
    ensures
        is_char_boundary(a + b, a.len() + k) <==> is_char_boundary(b, k),
{
    valid_utf8_concat(a, b);
    is_char_boundary_start_end_of_seq(b);
    is_char_boundary_start_end_of_seq(a + b);
    if k < b.len() {
        is_char_boundary_iff_not_is_continuation_byte(b, k);
        is_char_boundary_iff_not_is_continuation_byte(a + b, a.len() + k);
    }
}

/// Text of ASCII characters takes one byte for each character and may be cut anywhere: every
/// position up to its end is a boundary.
pub proof fn lemma_ascii_boundary(chars: Seq<char>, k: int)
    requires
        is_ascii_chars(chars),
        0 <= k <= chars.len(),
    ensures
        encode_utf8(chars).len() == chars.len(),
        is_char_boundary(encode_utf8(chars), k),
{
    let bytes = encode_utf8(chars);
    is_ascii_chars_encode_utf8(chars);
    encode_utf8_valid_utf8(chars);
    is_char_boundary_start_end_of_seq(bytes);
    if k < chars.len() {
        is_char_boundary_iff_not_is_continuation_byte(bytes, k);
    }
}

/// The boundaries of two joined texts are those of the first, and those of the second moved
/// behind it.
pub proof fn lemma_boundary_of_joined(a: Seq<u8>, b: Seq<u8>, k: int)
    requires
        valid_utf8(a),
        valid_utf8(b),
    ensures
        is_char_boundary(a + b, k) <==> if k <= a.len() {
            is_char_boundary(a, k)
        } else {
            is_char_boundary(b, k - a.len())
        },
{
    valid_utf8_concat(a, b);
    if 0 <= k <= a.len() {
        lemma_boundary_in_front(a, b, k);
    } else if a.len() < k <= a.len() + b.len() {
        lemma_boundary_behind(a, b, k - a.len());
    }
}

/// The boundaries of `orig` with `ins` inserted at its boundary `at`: up to `at` those of
/// `orig`, then those of `ins`, then the later ones of `orig`, moved by the length of `ins`.
pub proof fn lemma_boundary_of_inserted(orig: Seq<u8>, ins: Seq<u8>, at: int, k: int)
    requires
        valid_utf8(orig),
        valid_utf8(ins),
        is_char_boundary(orig, at),
    ensures
        is_char_boundary(orig.take(at) + ins + orig.skip(at), k) <==> if k <= at {
            is_char_boundary(orig, k)
        } else if k - at <= ins.len() {
            is_char_boundary(ins, k - at)
        } else {
            is_char_boundary(orig, k - ins.len())
        },
{
    lemma_cut_at_boundary(orig, at);
    let front = orig.take(at);
    let back = orig.skip(at);
    assert(front + back =~= orig);
    valid_utf8_concat(front, ins);
    lemma_boundary_of_joined(front + ins, back, k);
    lemma_boundary_of_joined(front, ins, k);
    lemma_boundary_of_joined(front, back, k);
    lemma_boundary_of_joined(front, back, k - ins.len());
}

/// A text cut at a boundary gives two valid texts, and decoding them gives the characters of
/// the whole.
proof fn lemma_cut_at_boundary(bytes: Seq<u8>, k: int)
    requires
        valid_utf8(bytes),
        is_char_boundary(bytes, k),
    ensures
        0 <= k <= bytes.len(),
        valid_utf8(bytes.take(k)),
        valid_utf8(bytes.skip(k)),
        decode_utf8(bytes) == decode_utf8(bytes.take(k)) + decode_utf8(bytes.skip(k)),
{
    valid_utf8_split(bytes, k);
    lemma_decode_concat(bytes.take(k), bytes.skip(k));
    assert(bytes.take(k) + bytes.skip(k) =~= bytes);
}

/// The first character of a text ends at a boundary, and what follows is the encoding of
/// the other characters.
pub proof fn lemma_first_char(chars: Seq<char>)
    requires
        chars.len() > 0,
    ensures
        char_width(chars[0]) <= encode_utf8(chars).len(),
        is_char_boundary(encode_utf8(chars), char_width(chars[0]) as int),
        encode_utf8(chars).skip(char_width(chars[0]) as int) == encode_utf8(chars.drop_first()),
{
    let bytes = encode_utf8(chars);
    let width = char_width(chars[0]) as int;
    encode_utf8_valid_utf8(chars.drop_first());
    encode_utf8_first_scalar(chars);
    assert(bytes.skip(width) =~= encode_utf8(chars.drop_first()));
    reveal_with_fuel(is_char_boundary, 2);
}

/// A boundary past the start of a text lies at or after the end of its first character, and
/// is a boundary of what follows that character.
proof fn lemma_boundary_step(bytes: Seq<u8>, k: int)
    requires
        valid_utf8(bytes),
        is_char_boundary(bytes, k),
        k > 0,
    ensures
        bytes.len() > 0,
        length_of_first_scalar(bytes) <= k <= bytes.len(),
        length_of_first_scalar(bytes) == char_width(decode_utf8(bytes)[0]),
        decode_utf8(bytes).len() > 0,
        decode_utf8(bytes).drop_first() == decode_utf8(pop_first_scalar(bytes)),
        valid_utf8(pop_first_scalar(bytes)),
        is_char_boundary(pop_first_scalar(bytes), k - length_of_first_scalar(bytes)),
        take_first_scalar(bytes) == encode_utf8(seq![decode_utf8(bytes)[0]]),
{
    reveal_with_fuel(is_char_boundary, 2);
    reveal_with_fuel(encode_utf8, 2);
    decode_utf8_first_scalar(bytes);
}

/// Inserting bytes at a boundary inserts their characters behind the characters before it.
pub proof fn lemma_insert_chars(orig: Seq<u8>, ins: Seq<u8>, idx: nat)
    requires
        valid_utf8(orig),
        valid_utf8(ins),
        is_char_boundary(orig, idx as int),
    ensures
        valid_utf8(orig.take(idx as int) + ins + orig.skip(idx as int)),
        decode_utf8(orig.take(idx as int) + ins + orig.skip(idx as int)) == insert_chars(
            decode_utf8(orig),
            decode_utf8(ins),
            idx,
        ),
    decreases orig.len(),
{
    let whole = orig.take(idx as int) + ins + orig.skip(idx as int);
    if idx == 0 {
        assert(whole =~= ins + orig);
        lemma_decode_concat(ins, orig);
    } else {
        lemma_boundary_step(orig, idx as int);
        let w = length_of_first_scalar(orig);
        let first = take_first_scalar(orig);
        let rest = pop_first_scalar(orig);
        let left = (idx - w) as nat;
        let chars = decode_utf8(orig);
        lemma_insert_chars(rest, ins, left);
        let inner = rest.take(left as int) + ins + rest.skip(left as int);
        assert(whole =~= first + inner);
        encode_utf8_valid_utf8(seq![chars[0]]);
        encode_utf8_decode_utf8(seq![chars[0]]);
        lemma_decode_concat(first, inner);
    }
}

/// Inserting valid chunks at a boundary of valid chunks leaves every chunk valid, the two
/// halves of a split chunk included.
pub proof fn lemma_insert_chunks_utf8(orig: Seq<Seq<u8>>, ins: Seq<Seq<u8>>, idx: nat)
    requires
        all_utf8(orig),
        all_utf8(ins),
        is_char_boundary(orig.flatten(), idx as int),
    ensures
        all_utf8(insert_chunks(orig, ins, idx)),
    decreases orig.len(),
{
    lemma_flatten_utf8(orig);
    if idx > 0 && orig.len() > 0 {
        let rest = orig.drop_first();
        lemma_flatten_utf8(rest);
        if orig[0].len() > idx {
            lemma_boundary_in_front(orig[0], rest.flatten(), idx as int);
            lemma_cut_at_boundary(orig[0], idx as int);
        } else {
            let left = (idx - orig[0].len()) as nat;
            lemma_boundary_behind(orig[0], rest.flatten(), left as int);
            lemma_insert_chunks_utf8(rest, ins, left);
        }
    }
}

} // verus!
