//! Cutting string slices at character boundaries.
//!
//! A slice is read as its sequence of characters. The standard library cuts slices at byte
//! offsets, so the proofs here go through the UTF-8 encoding of that sequence.

use vstd::prelude::*;
use vstd::string::StringSliceAdditionalSpecFns;
use vstd::utf8::*;

verus! {

/// The encoding of a concatenation is the concatenation of the encodings.
pub proof fn lemma_encode_concat(a: Seq<char>, b: Seq<char>)
    ensures
        encode_utf8(a + b) == encode_utf8(a) + encode_utf8(b),
    decreases a.len(),
{
    if a.len() > 0 {
        assert((a + b).drop_first() =~= a.drop_first() + b);
        lemma_encode_concat(a.drop_first(), b);
    }
}

/// In the encoding of `a + b`, the offset at which the encoding of `b` begins is a
/// character boundary.
pub proof fn lemma_boundary_after_prefix(a: Seq<char>, b: Seq<char>)
    ensures
        is_char_boundary(encode_utf8(a + b), encode_utf8(a).len() as int),
    decreases a.len(),
{
    broadcast use encode_utf8_valid_utf8;

    let chars = a + b;
    let bytes = encode_utf8(chars);
    if a.len() > 0 {
        encode_utf8_first_scalar(chars);
        assert(chars.drop_first() =~= a.drop_first() + b);
        assert(pop_first_scalar(bytes) =~= encode_utf8(chars.drop_first()));
        lemma_boundary_after_prefix(a.drop_first(), b);
        assert(encode_utf8(a).len() == encode_scalar(a[0] as u32).len() + encode_utf8(
            a.drop_first(),
        ).len());
    }
}

/// Two slices with the same bytes hold the same characters.
pub proof fn lemma_same_bytes_same_chars(a: Seq<char>, b: Seq<char>)
    requires
        encode_utf8(a) == encode_utf8(b),
    ensures
        a == b,
{
    broadcast use encode_utf8_decode_utf8;

    assert(decode_utf8(encode_utf8(a)) == a);
}

/// Cutting the encoding of `chars` at a character boundary cuts `chars` in two: the
/// decodings of the two parts, one after the other, are `chars`.
pub proof fn lemma_split_at_boundary(chars: Seq<char>, mid: int)
    requires
        is_char_boundary(encode_utf8(chars), mid),
    ensures
        0 <= mid <= encode_utf8(chars).len(),
        chars == decode_utf8(encode_utf8(chars).subrange(0, mid)) + decode_utf8(
            encode_utf8(chars).subrange(mid, encode_utf8(chars).len() as int),
        ),
        valid_utf8(encode_utf8(chars).subrange(0, mid)),
        valid_utf8(encode_utf8(chars).subrange(mid, encode_utf8(chars).len() as int)),
{
    broadcast use encode_utf8_valid_utf8, encode_utf8_decode_utf8;

    let bytes = encode_utf8(chars);
    decode_utf8_split(bytes, mid);
    valid_utf8_split(bytes, mid);
}

/// The number of bytes that the UTF-8 encoding of `c` takes.
pub fn utf8_width(c: char) -> (width: usize)
    ensures
        width == encode_scalar(c as u32).len(),
        1 <= width <= 4,
{
    let scalar = c as u32;
    if scalar < 0x80 {
        1
    } else if scalar < 0x800 {
        2
    } else if scalar < 0x10000 {
        3
    } else {
        4
    }
}

/// Splits `input` into its first character and what follows it. An empty slice has no
/// first character.
pub fn split_first(input: &str) -> (split: Option<(char, &str)>)
    ensures
        split is None <==> input@.len() == 0,
        split matches Some((first, rest)) ==> first == input@[0] && rest@ == input@.skip(1),
{
    broadcast use vstd::string::group_string_axioms;

    let mut chars = input.chars();
    match chars.next() {
        None => None,
        Some(first) => {
            let width = utf8_width(first);
            proof {
                let head = seq![first];
                let tail = input@.skip(1);
                assert(input@ =~= head + tail);
                lemma_boundary_after_prefix(head, tail);
                assert(encode_utf8(head) =~= encode_scalar(first as u32)) by {
                    reveal_with_fuel(encode_utf8, 2);
                }
            }
            let (_, rest) = input.split_at(width);
            proof {
                let head = seq![first];
                let tail = input@.skip(1);
                assert(rest.spec_bytes() =~= encode_utf8(tail));
                lemma_same_bytes_same_chars(rest@, tail);
            }
            Some((first, rest))
        },
    }
}

/// Whether two byte slices hold the same bytes.
pub fn same_bytes(a: &[u8], b: &[u8]) -> (same: bool)
    ensures
        same <==> a@ == b@,
{
    if a.len() != b.len() {
        return false;
    }
    let mut i: usize = 0;
    while i < a.len()
        invariant
            a@.len() == b@.len(),
            i <= a@.len(),
            forall|j: int| 0 <= j < i ==> a@[j] == b@[j],
        decreases a@.len() - i,
    {
        if a[i] != b[i] {
            return false;
        }
        i = i + 1;
    }
    assert(a@ =~= b@);
    true
}

/// What follows `prefix` in `input`, where `input` starts with `prefix`.
pub fn strip_prefix<'a>(input: &'a str, prefix: &str) -> (stripped: Option<&'a str>)
    ensures
        stripped is Some <==> prefix@.is_prefix_of(input@),
        stripped matches Some(rest) ==> rest@ == input@.skip(prefix@.len() as int),
{
    let width = prefix.as_bytes().len();
    let length = input.as_bytes().len();
    proof {
        if prefix@.is_prefix_of(input@) {
            let tail = input@.skip(prefix@.len() as int);
            assert(input@ =~= prefix@ + tail);
            lemma_encode_concat(prefix@, tail);
            lemma_boundary_after_prefix(prefix@, tail);
        }
    }
    if width > length || !input.is_char_boundary(width) {
        return None;
    }
    let (head, rest) = input.split_at(width);
    proof {
        broadcast use encode_utf8_decode_utf8;

        lemma_split_at_boundary(input@, width as int);
        assert(input@ == head@ + rest@);
        if prefix@.is_prefix_of(input@) {
            assert(head.spec_bytes() =~= prefix.spec_bytes());
        }
        if head.spec_bytes() == prefix.spec_bytes() {
            lemma_same_bytes_same_chars(head@, prefix@);
        }
    }
    if same_bytes(head.as_bytes(), prefix.as_bytes()) {
        Some(rest)
    } else {
        None
    }
}

} // verus!
