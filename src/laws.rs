//! What holds of encoding and decoding together.
use crate::alphabet::{
    alphabet_arg_ok, alphabet_of, digit_of, lemma_default_alphabet_valid, valid_alphabet,
};
use crate::codec::{
    all_in_alphabet, chunk_digits, decode_digits, decoding, digits_in, encoding, group_bytes,
    is_group_width, lemma_group_bytes, next_chunk_len, next_group_len, spell,
    DecodeError,
};
use crate::digits::{
    be_value, digits_below, lemma_fixed_digits, lemma_fixed_digits_value,
    lemma_numeral_is_fixed_digits, lemma_value_below,
};
use crate::tables::{
    lemma_width_is_least, lemma_width_strictly_increasing, least_width, width_of,
    MAX_CHUNK_BYTES, MAX_CHUNK_CHARS,
};
use vstd::arithmetic::power::{lemma_pow_positive, pow};
use vstd::prelude::*;

verus! {

/// Spelling digits in an alphabet and reading them back gives the digits.
proof fn lemma_read_spelt(a: Seq<char>, d: Seq<u8>)
    requires
        valid_alphabet(a),
        digits_below(d, 62),
    ensures
        all_in_alphabet(a, spell(a, d)),
        digits_in(a, spell(a, d)) == d,
{
    let s = spell(a, d);
    assert forall|i: int| 0 <= i < s.len() implies a.contains(#[trigger] s[i]) by {
        assert(d[i] < 62);
        assert(a[d[i] as int] == s[i]);
    }
    assert forall|i: int| 0 <= i < d.len() implies digit_of(a, #[trigger] s[i]) == d[i] by {
        assert(d[i] < 62);
        let k = digit_of(a, s[i]);
        assert(a[d[i] as int] == s[i]);
        if k != d[i] {
            if k < d[i] {
                assert(a[k as int] != a[d[i] as int]);
            } else {
                assert(a[d[i] as int] != a[k as int]);
            }
        }
    }
    assert(digits_in(a, s) =~= d);
}

/// The group of a chunk has the width of the table, and reads back as the chunk.
proof fn lemma_group_reads_back(chunk: Seq<u8>)
    requires
        1 <= chunk.len() <= MAX_CHUNK_BYTES,
    ensures
        chunk_digits(chunk).len() == width_of(chunk.len()),
        digits_below(chunk_digits(chunk), 62),
        be_value(chunk_digits(chunk), 62) == be_value(chunk, 256),
        be_value(chunk, 256) < pow(256, chunk.len()),
{
    let w = width_of(chunk.len());
    let v = be_value(chunk, 256);
    lemma_width_is_least(chunk.len());
    reveal(least_width);
    assert(digits_below(chunk, 256));
    lemma_value_below(chunk, 256);
    lemma_pow_positive(256, chunk.len());
    lemma_fixed_digits(v, 62, w);
    lemma_fixed_digits_value(v, 62, w);
}

/// A chunk's group in front of the digits of what follows reads back as the
/// chunk in front of what follows.
proof fn lemma_decode_group(chunk: Seq<u8>, r: Seq<u8>, rest: Seq<u8>)
    requires
        1 <= chunk.len() <= MAX_CHUNK_BYTES,
        chunk.len() < MAX_CHUNK_BYTES ==> r.len() == 0,
        decode_digits(r) == Ok::<Seq<u8>, DecodeError>(rest),
    ensures
        decode_digits(chunk_digits(chunk) + r) == Ok::<Seq<u8>, DecodeError>(chunk + rest),
{
    let c = chunk.len();
    let g = chunk_digits(chunk);
    let d = g + r;
    let w = width_of(c);
    lemma_group_reads_back(chunk);
    if c < MAX_CHUNK_BYTES {
        lemma_width_strictly_increasing(c, MAX_CHUNK_BYTES as nat);
    }
    assert(next_group_len(d.len()) == w);
    lemma_group_bytes(c);
    assert(d.take(w as int) =~= g);
    assert(d.skip(w as int) =~= r);
    assert(digits_below(chunk, 256));
    lemma_numeral_is_fixed_digits(chunk, 256);
}

proof fn lemma_decode_encoded(a: Seq<char>, b: Seq<u8>)
    requires
        valid_alphabet(a),
    ensures
        all_in_alphabet(a, encoding(a, b)),
        decode_digits(digits_in(a, encoding(a, b))) == Ok::<Seq<u8>, DecodeError>(b),
    decreases b.len(),
{
    if b.len() == 0 {
        assert(digits_in(a, encoding(a, b)) =~= seq![]);
        assert(b =~= seq![]);
    } else {
        let c = next_chunk_len(b.len());
        let chunk = b.take(c as int);
        let rest = b.skip(c as int);
        let g = chunk_digits(chunk);
        let e1 = spell(a, g);
        let e2 = encoding(a, rest);
        assert(encoding(a, b) == e1 + e2);
        lemma_decode_encoded(a, rest);
        lemma_fixed_digits(be_value(chunk, 256), 62, width_of(c));
        lemma_read_spelt(a, g);
        lemma_read_concat(a, e1, e2);
        if c < MAX_CHUNK_BYTES {
            assert(e2 =~= seq![]);
            assert(digits_in(a, e2) =~= seq![]);
        }
        lemma_decode_group(chunk, digits_in(a, e2), rest);
        assert(chunk + rest =~= b);
        assert(digits_in(a, encoding(a, b)) == g + digits_in(a, e2));
    }
}

/// Reading two texts one after the other.
proof fn lemma_read_concat(a: Seq<char>, s1: Seq<char>, s2: Seq<char>)
    requires
        all_in_alphabet(a, s1),
        all_in_alphabet(a, s2),
    ensures
        all_in_alphabet(a, s1 + s2),
        digits_in(a, s1 + s2) == digits_in(a, s1) + digits_in(a, s2),
{
    let s = s1 + s2;
    assert forall|i: int| 0 <= i < s.len() implies a.contains(#[trigger] s[i]) by {
        if i < s1.len() {
            assert(s[i] == s1[i]);
        } else {
            assert(s[i] == s2[i - s1.len()]);
        }
    }
    assert(digits_in(a, s) =~= digits_in(a, s1) + digits_in(a, s2));
}

/// Decoding the encoding of any buffer, in the default alphabet or any
/// other, gives the buffer back.
pub proof fn lemma_round_trip(alphabet: Seq<char>, b: Seq<u8>)
    requires
        alphabet_arg_ok(alphabet),
    ensures
        decoding(alphabet_of(alphabet), encoding(alphabet_of(alphabet), b)) == Ok::<
            Seq<u8>,
            DecodeError,
        >(b),
{
    lemma_default_alphabet_valid();
    lemma_decode_encoded(alphabet_of(alphabet), b);
}

/// A chunk of 1 to 32 bytes is encoded with exactly as many characters as
/// the table gives for its size, whatever its value.
pub proof fn lemma_fixed_width(alphabet: Seq<char>, chunk: Seq<u8>)
    requires
        1 <= chunk.len() <= MAX_CHUNK_BYTES,
    ensures
        encoding(alphabet, chunk).len() == width_of(chunk.len()),
{
    lemma_group_reads_back(chunk);
    assert(chunk.take(chunk.len() as int) =~= chunk);
    assert(encoding(alphabet, chunk.skip(chunk.len() as int)) =~= seq![]);
}

/// A text with a character outside the alphabet fails to decode with an
/// invalid character, wherever that character stands.
pub proof fn lemma_foreign_character_rejected(alphabet: Seq<char>, s: Seq<char>, i: int)
    requires
        0 <= i < s.len(),
        !alphabet_of(alphabet).contains(s[i]),
    ensures
        decoding(alphabet_of(alphabet), s) == Err::<Seq<u8>, DecodeError>(
            DecodeError::InvalidCharacter,
        ),
{
}

proof fn lemma_overflow_digits(d: Seq<u8>, k: nat)
    requires
        k * MAX_CHUNK_CHARS < d.len(),
        ({
            let g = d.skip(k * MAX_CHUNK_CHARS);
            let w = next_group_len(g.len());
            is_group_width(w) && be_value(g.take(w as int), 62) >= pow(256, group_bytes(w))
        }),
    ensures
        decode_digits(d) == Err::<Seq<u8>, DecodeError>(DecodeError::Overflow),
    decreases k,
{
    if k == 0 {
        assert(d.skip(0) =~= d);
    } else {
        lemma_group_bytes(MAX_CHUNK_BYTES as nat);
        assert(d.skip(MAX_CHUNK_CHARS as int).skip((k - 1) * MAX_CHUNK_CHARS) =~= d.skip(
            k * MAX_CHUNK_CHARS,
        ));
        lemma_overflow_digits(d.skip(MAX_CHUNK_CHARS as int), (k - 1) as nat);
    }
}

/// A text whose `k`-th group (counting from zero) stands for a number too
/// large for the chunk size of its width fails to decode with an overflow:
/// the number is never cut down to fit.
pub proof fn lemma_overflow_rejected(alphabet: Seq<char>, s: Seq<char>, k: nat)
    requires
        all_in_alphabet(alphabet_of(alphabet), s),
        k * MAX_CHUNK_CHARS < s.len(),
        ({
            let g = digits_in(alphabet_of(alphabet), s).skip(k * MAX_CHUNK_CHARS);
            let w = next_group_len(g.len());
            is_group_width(w) && be_value(g.take(w as int), 62) >= pow(256, group_bytes(w))
        }),
    ensures
        decoding(alphabet_of(alphabet), s) == Err::<Seq<u8>, DecodeError>(DecodeError::Overflow),
{
    lemma_overflow_digits(digits_in(alphabet_of(alphabet), s), k);
}

} // verus!
