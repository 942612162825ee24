//! Encoding byte buffers as base-62 text, and decoding such text.
use crate::alphabet::{
    alphabet_arg_ok, alphabet_chars, alphabet_of, chars_of, digit_of, valid_alphabet,
};
use crate::bignum::{bytes_of_radix62, radix62_of_bytes};
use crate::digits::{
    be_value, digits_below, fixed_digits, lemma_leading_zeros,
    lemma_numeral_is_fixed_digits, lemma_value_at_least, lemma_value_below, zeros,
};
use crate::tables::{
    chunk_bytes, chunk_width, lemma_width_is_least, lemma_width_strictly_increasing, least_width,
    width_of, MAX_CHUNK_BYTES, MAX_CHUNK_CHARS,
};
use vstd::arithmetic::power::{lemma_pow_increases, lemma_pow_positive, pow};
use vstd::prelude::*;

verus! {

/// Why a text cannot be decoded.
#[derive(Clone, Copy, Debug, PartialEq, Eq, Structural)]
pub enum DecodeError {
    /// A character of the text is not in the alphabet.
    InvalidCharacter,
    /// A group of the text has a width that no chunk size is written with.
    InvalidGrouping,
    /// A group stands for a number too large for its chunk size.
    Overflow,
}

/// The characters that the digits `d` are written with in the alphabet `a`.
pub open spec fn spell(a: Seq<char>, d: Seq<u8>) -> Seq<char> {
    d.map_values(|x: u8| a[x as int])
}

/// The digits of the group for `chunk`: its big-endian value written with
/// exactly as many base-62 digits as the table gives for its size.
pub open spec fn chunk_digits(chunk: Seq<u8>) -> Seq<u8> {
    fixed_digits(be_value(chunk, 256), 62, width_of(chunk.len()))
}

/// The size of the next chunk when `n` bytes are left.
pub open spec fn next_chunk_len(n: nat) -> nat {
    if n < MAX_CHUNK_BYTES {
        n
    } else {
        MAX_CHUNK_BYTES as nat
    }
}

/// The text for `b` in the alphabet `a`: the groups of its chunks of 32
/// bytes, the last one shorter, one after the other.
pub open spec fn encoding(a: Seq<char>, b: Seq<u8>) -> Seq<char>
    decreases b.len(),
{
    if b.len() == 0 {
        seq![]
    } else {
        let c = next_chunk_len(b.len()) as int;
        spell(a, chunk_digits(b.take(c))) + encoding(a, b.skip(c))
    }
}

/// The base-62 digits that `num_bigint` gives for a chunk, with zeros in
/// front up to the width of the table, are the chunk's group.
proof fn lemma_padded_group(chunk: Seq<u8>, d: Seq<u8>)
    requires
        1 <= chunk.len() <= MAX_CHUNK_BYTES,
        be_value(d, 62) == be_value(chunk, 256),
        digits_below(d, 62),
        d.len() >= 1,
        d.len() == 1 || d[0] != 0,
    ensures
        d.len() <= width_of(chunk.len()),
        zeros((width_of(chunk.len()) - d.len()) as nat) + d == chunk_digits(chunk),
{
    let w = width_of(chunk.len());
    let v = be_value(chunk, 256);
    lemma_width_is_least(chunk.len());
    reveal(least_width);
    assert(digits_below(chunk, 256));
    lemma_value_below(chunk, 256);
    lemma_pow_positive(256, chunk.len());
    if d.len() > 1 {
        lemma_value_at_least(d, 62);
        lemma_pow_positive(62, (d.len() - 1) as nat);
        if d.len() - 1 >= w {
            lemma_pow_increases(62, w, (d.len() - 1) as nat);
            assert(false);
        }
    }
    assert(d.len() <= w);
    let k = (w - d.len()) as nat;
    let p = zeros(k) + d;
    lemma_leading_zeros(k, d, 62);
    assert(digits_below(p, 62)) by {
        assert forall|i: int| 0 <= i < p.len() implies (#[trigger] p[i]) < 62 by {
            if i >= k {
                assert(p[i] == d[i - k]);
            }
        }
    }
    lemma_numeral_is_fixed_digits(p, 62);
}

/// Appends the group for `chunk`, spelt in the alphabet `alpha`, to `out`.
fn encode_chunk(alpha: &Vec<char>, chunk: &[u8], out: &mut Vec<char>)
    requires
        valid_alphabet(alpha@),
        1 <= chunk@.len() <= MAX_CHUNK_BYTES,
    ensures
        final(out)@ == old(out)@ + spell(alpha@, chunk_digits(chunk@)),
{
    let d = radix62_of_bytes(chunk);
    let w = chunk_width(chunk.len());
    proof {
        lemma_padded_group(chunk@, d@);
    }
    let pad = w - d.len();
    let ghost start = out@;
    let ghost group = zeros(pad as nat) + d@;
    let mut k: usize = 0;
    while k < pad
        invariant
            k <= pad,
            pad + d@.len() == w,
            group.len() == w,
            valid_alphabet(alpha@),
            out@ == start + spell(alpha@, group.take(k as int)),
            forall|i: int| 0 <= i < pad ==> group[i] == 0,
        decreases pad - k,
    {
        out.push(alpha[0]);
        assert(spell(alpha@, group.take(k + 1)) =~= spell(alpha@, group.take(k as int)).push(
            alpha@[group[k as int] as int],
        ));
        k = k + 1;
    }
    let mut j: usize = 0;
    while j < d.len()
        invariant
            j <= d@.len(),
            pad + d@.len() == w,
            group.len() == w,
            group == zeros(pad as nat) + d@,
            digits_below(d@, 62),
            valid_alphabet(alpha@),
            out@ == start + spell(alpha@, group.take(pad + j)),
        decreases d@.len() - j,
    {
        assert(d@[j as int] < 62);
        out.push(alpha[d[j] as usize]);
        assert(group[pad + j] == d@[j as int]);
        assert(spell(alpha@, group.take(pad + j + 1)) =~= spell(alpha@, group.take(pad + j)).push(
            alpha@[d@[j as int] as int],
        ));
        j = j + 1;
    }
    assert(group.take(w as int) =~= group);
}

/// Relies on `String`'s `FromIterator<char>`, which collects the characters
/// in order.
#[verifier::external_body]
fn string_of_chars(chars: Vec<char>) -> (r: String)
    ensures
        r@ == chars@,
{
    chars.into_iter().collect()
}

/// Encodes `buffer` as base-62 text in the alphabet that `alphabet` selects
/// (the default one when it is empty). Never fails; the empty buffer gives
/// the empty text.
pub fn array_buffer_to_base62(buffer: &[u8], alphabet: &str) -> (r: String)
    requires
        alphabet_arg_ok(alphabet@),
    ensures
        r@ == encoding(alphabet_of(alphabet@), buffer@),
{
    let alpha = alphabet_chars(alphabet);
    let mut out: Vec<char> = Vec::new();
    let mut i: usize = 0;
    assert(buffer@.skip(0) =~= buffer@);
    assert(out@ + encoding(alpha@, buffer@) =~= encoding(alpha@, buffer@));
    while i < buffer.len()
        invariant
            i <= buffer@.len(),
            valid_alphabet(alpha@),
            alpha@ == alphabet_of(alphabet@),
            out@ + encoding(alpha@, buffer@.skip(i as int)) == encoding(alpha@, buffer@),
        decreases buffer@.len() - i,
    {
        let c = if buffer.len() - i >= MAX_CHUNK_BYTES {
            MAX_CHUNK_BYTES
        } else {
            buffer.len() - i
        };
        let ghost rest = buffer@.skip(i as int);
        let ghost before = out@;
        encode_chunk(&alpha, &buffer[i..i + c], &mut out);
        proof {
            assert(rest.take(c as int) =~= buffer@.subrange(i as int, i + c));
            assert(rest.skip(c as int) =~= buffer@.skip(i + c));
            assert(before + encoding(alpha@, rest) =~= out@ + encoding(alpha@, rest.skip(c as int)));
        }
        i = i + c;
    }
    assert(buffer@.skip(i as int) =~= seq![]);
    assert(out@ + encoding(alpha@, buffer@.skip(i as int)) =~= out@);
    string_of_chars(out)
}

/// `w` is the width of the group of some chunk size.
pub open spec fn is_group_width(w: nat) -> bool {
    exists|x: nat| 1 <= x <= MAX_CHUNK_BYTES && width_of(x) == w
}

/// The chunk size whose group is `w` digits wide.
pub open spec fn group_bytes(w: nat) -> nat {
    choose|x: nat| 1 <= x <= MAX_CHUNK_BYTES && width_of(x) == w
}

/// The width of the next group when `n` digits are left.
pub open spec fn next_group_len(n: nat) -> nat {
    if n < MAX_CHUNK_CHARS {
        n
    } else {
        MAX_CHUNK_CHARS as nat
    }
}

/// `r` with `p` in front of the bytes, when it is a success.
pub open spec fn prepend(p: Seq<u8>, r: Result<Seq<u8>, DecodeError>) -> Result<
    Seq<u8>,
    DecodeError,
> {
    match r {
        Ok(b) => Ok(p + b),
        Err(e) => Err(e),
    }
}

/// The bytes that the base-62 digits `d` stand for: groups of 43 digits,
/// the last one narrower, each the big-endian numeral of a chunk whose size
/// the table gives for its width.
pub open spec fn decode_digits(d: Seq<u8>) -> Result<Seq<u8>, DecodeError>
    decreases d.len(),
{
    if d.len() == 0 {
        Ok(seq![])
    } else {
        let w = next_group_len(d.len());
        if !is_group_width(w) {
            Err(DecodeError::InvalidGrouping)
        } else {
            let t = group_bytes(w);
            let v = be_value(d.take(w as int), 62);
            if v >= pow(256, t) {
                Err(DecodeError::Overflow)
            } else {
                prepend(fixed_digits(v, 256, t), decode_digits(d.skip(w as int)))
            }
        }
    }
}

/// Every character of `s` is in the alphabet `a`.
pub open spec fn all_in_alphabet(a: Seq<char>, s: Seq<char>) -> bool {
    forall|i: int| 0 <= i < s.len() ==> a.contains(#[trigger] s[i])
}

/// The digits that the characters of `s` stand for in the alphabet `a`.
pub open spec fn digits_in(a: Seq<char>, s: Seq<char>) -> Seq<u8> {
    s.map_values(|c: char| digit_of(a, c) as u8)
}

/// What decoding the text `s` in the alphabet `a` gives: an invalid
/// character anywhere fails first, then the groups are read in order.
pub open spec fn decoding(a: Seq<char>, s: Seq<char>) -> Result<Seq<u8>, DecodeError> {
    if !all_in_alphabet(a, s) {
        Err(DecodeError::InvalidCharacter)
    } else {
        decode_digits(digits_in(a, s))
    }
}

/// A chunk size is found again from the width of its group.
pub proof fn lemma_group_bytes(x: nat)
    requires
        1 <= x <= MAX_CHUNK_BYTES,
    ensures
        is_group_width(width_of(x)),
        group_bytes(width_of(x)) == x,
{
    assert(is_group_width(width_of(x)));
    let y = group_bytes(width_of(x));
    if y < x {
        lemma_width_strictly_increasing(y, x);
    } else if y > x {
        lemma_width_strictly_increasing(x, y);
    }
}

/// The digit that `c` stands for in `alpha`, if it is there.
fn digit_index(alpha: &Vec<char>, c: char) -> (r: Option<u8>)
    requires
        valid_alphabet(alpha@),
    ensures
        match r {
            Some(d) => d < 62 && d == digit_of(alpha@, c) && alpha@[d as int] == c,
            None => !alpha@.contains(c),
        },
{
    let mut i: usize = 0;
    while i < alpha.len()
        invariant
            i <= alpha@.len(),
            valid_alphabet(alpha@),
            forall|j: int| 0 <= j < i ==> alpha@[j] != c,
        decreases alpha@.len() - i,
    {
        if alpha[i] == c {
            proof {
                let k = digit_of(alpha@, c);
                assert(i < alpha@.len() && alpha@[i as int] == c);
                if k != i {
                    if k < i {
                        assert(alpha@[k as int] != alpha@[i as int]);
                    } else {
                        assert(alpha@[i as int] != alpha@[k as int]);
                    }
                }
            }
            return Some(i as u8);
        }
        i = i + 1;
    }
    None
}

/// The `t` bytes that the group `group` stands for, or an overflow when its
/// value does not fit in them.
fn decode_chunk(group: &[u8], t: usize) -> (r: Result<Vec<u8>, DecodeError>)
    requires
        digits_below(group@, 62),
        1 <= t <= MAX_CHUNK_BYTES,
    ensures
        match r {
            Ok(b) => be_value(group@, 62) < pow(256, t as nat) && b@ == fixed_digits(
                be_value(group@, 62),
                256,
                t as nat,
            ),
            Err(e) => e == DecodeError::Overflow && be_value(group@, 62) >= pow(256, t as nat),
        },
{
    match bytes_of_radix62(group) {
        None => Err(DecodeError::InvalidCharacter),
        Some(b) => {
            let ghost v = be_value(group@, 62);
            if b.len() > t {
                proof {
                    lemma_value_at_least(b@, 256);
                    lemma_pow_increases(256, t as nat, (b@.len() - 1) as nat);
                }
                Err(DecodeError::Overflow)
            } else {
                let k = t - b.len();
                let mut out: Vec<u8> = Vec::new();
                let mut i: usize = 0;
                while i < k
                    invariant
                        i <= k,
                        out@ == zeros(i as nat),
                    decreases k - i,
                {
                    out.push(0);
                    i = i + 1;
                    assert(out@ =~= zeros(i as nat));
                }
                out.extend_from_slice(b.as_slice());
                proof {
                    let p = zeros(k as nat) + b@;
                    assert(out@ =~= p);
                    assert(digits_below(b@, 256));
                    lemma_value_below(b@, 256);
                    lemma_pow_positive(256, b@.len());
                    lemma_pow_increases(256, b@.len(), t as nat);
                    lemma_leading_zeros(k as nat, b@, 256);
                    assert(digits_below(p, 256));
                    lemma_numeral_is_fixed_digits(p, 256);
                }
                Ok(out)
            }
        },
    }
}

/// Decodes the digit sequence `d` group by group.
fn decode_groups(d: &Vec<u8>) -> (r: Result<Vec<u8>, DecodeError>)
    requires
        digits_below(d@, 62),
    ensures
        match r {
            Ok(b) => decode_digits(d@) == Ok::<Seq<u8>, DecodeError>(b@),
            Err(e) => decode_digits(d@) == Err::<Seq<u8>, DecodeError>(e),
        },
{
    let mut out: Vec<u8> = Vec::new();
    let mut i: usize = 0;
    assert(d@.skip(0) =~= d@);
    assert(out@ + seq![] =~= seq![]);
    while i < d.len()
        invariant
            i <= d@.len(),
            digits_below(d@, 62),
            decode_digits(d@) == prepend(out@, decode_digits(d@.skip(i as int))),
        decreases d@.len() - i,
    {
        let w = if d.len() - i >= MAX_CHUNK_CHARS {
            MAX_CHUNK_CHARS
        } else {
            d.len() - i
        };
        let ghost rest = d@.skip(i as int);
        let t = match chunk_bytes(w) {
            Some(t) => t,
            None => {
                return Err(DecodeError::InvalidGrouping);
            },
        };
        proof {
            lemma_group_bytes(t as nat);
        }
        let group = &d.as_slice()[i..i + w];
        proof {
            assert(group@ =~= rest.take(w as int));
            assert(digits_below(group@, 62)) by {
                assert forall|j: int| 0 <= j < group@.len() implies (#[trigger] group@[j]) < 62 by {
                    assert(group@[j] == d@[i + j]);
                }
            }
        }
        match decode_chunk(group, t) {
            Ok(bytes) => {
                let ghost before = out@;
                let mut bytes = bytes;
                out.append(&mut bytes);
                proof {
                    assert(rest.skip(w as int) =~= d@.skip(i + w));
                    let tail = decode_digits(d@.skip(i + w));
                    match tail {
                        Ok(x) => {
                            assert(before + (fixed_digits(be_value(group@, 62), 256, t as nat) + x)
                                =~= out@ + x);
                        },
                        Err(_) => {},
                    }
                }
                i = i + w;
            },
            Err(e) => {
                return Err(e);
            },
        }
    }
    assert(d@.skip(i as int) =~= seq![]);
    assert(out@ + seq![] =~= out@);
    Ok(out)
}

/// Decodes the base-62 text `s` in the alphabet that `alphabet` selects (the
/// default one when it is empty). The empty text gives the empty buffer.
pub fn base62_to_array_buffer(s: &str, alphabet: &str) -> (r: Result<Vec<u8>, DecodeError>)
    requires
        alphabet_arg_ok(alphabet@),
    ensures
        match r {
            Ok(b) => decoding(alphabet_of(alphabet@), s@) == Ok::<Seq<u8>, DecodeError>(b@),
            Err(e) => decoding(alphabet_of(alphabet@), s@) == Err::<Seq<u8>, DecodeError>(e),
        },
{
    let alpha = alphabet_chars(alphabet);
    let chars = chars_of(s);
    let mut digits: Vec<u8> = Vec::new();
    let mut j: usize = 0;
    while j < chars.len()
        invariant
            j <= chars@.len(),
            chars@ == s@,
            valid_alphabet(alpha@),
            alpha@ == alphabet_of(alphabet@),
            digits@ == digits_in(alpha@, chars@.take(j as int)),
            all_in_alphabet(alpha@, chars@.take(j as int)),
            digits_below(digits@, 62),
        decreases chars@.len() - j,
    {
        match digit_index(&alpha, chars[j]) {
            Some(x) => {
                digits.push(x);
                proof {
                    let p = chars@.take(j + 1);
                    assert(digits@ =~= digits_in(alpha@, p));
                    assert forall|k: int| 0 <= k < p.len() implies alpha@.contains(#[trigger] p[k]) by {
                        if k == j {
                            assert(alpha@[x as int] == p[k]);
                        } else {
                            assert(p[k] == chars@.take(j as int)[k]);
                        }
                    }
                }
            },
            None => {
                assert(!alpha@.contains(s@[j as int]));
                assert(!all_in_alphabet(alpha@, s@));
                return Err(DecodeError::InvalidCharacter);
            },
        }
        j = j + 1;
    }
    assert(chars@.take(j as int) =~= s@);
    decode_groups(&digits)
}

} // verus!
