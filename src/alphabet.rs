//! Digit alphabets: 62 distinct characters, the one at position `i` standing
//! for the digit `i`.
use vstd::prelude::*;

verus! {

/// The number of digits of the numerals.
pub const BASE: usize = 62;

/// `a` is an alphabet: 62 characters, no two alike.
pub open spec fn valid_alphabet(a: Seq<char>) -> bool {
    &&& a.len() == 62
    &&& forall|i: int, j: int| 0 <= i < j < 62 ==> a[i] != a[j]
}

/// The character of digit `i` in the default alphabet: `A`-`Z`, then `a`-`z`,
/// then `0`-`9`.
pub open spec fn default_digit(i: int) -> char {
    if i < 26 {
        (65 + i) as char
    } else if i < 52 {
        (71 + i) as char
    } else {
        (i - 4) as char
    }
}

/// The default alphabet, "truncated base64" order.
pub open spec fn default_alphabet() -> Seq<char> {
    Seq::new(62, |i: int| default_digit(i))
}

/// An alphabet argument: empty for the default one, or an alphabet.
pub open spec fn alphabet_arg_ok(a: Seq<char>) -> bool {
    a.len() == 0 || valid_alphabet(a)
}

/// The alphabet that an alphabet argument selects.
pub open spec fn alphabet_of(a: Seq<char>) -> Seq<char> {
    if a.len() == 0 {
        default_alphabet()
    } else {
        a
    }
}

/// The digit that `c` stands for in the alphabet `a`.
pub open spec fn digit_of(a: Seq<char>, c: char) -> nat {
    choose|i: nat| i < a.len() && a[i as int] == c
}

/// The default alphabet is an alphabet.
pub proof fn lemma_default_alphabet_valid()
    ensures
        valid_alphabet(default_alphabet()),
{
    let a = default_alphabet();
    assert forall|i: int, j: int| 0 <= i < j < 62 implies a[i] != a[j] by {
        let ci: int = if i < 26 { 65 + i } else if i < 52 { 71 + i } else { i - 4 };
        let cj: int = if j < 26 { 65 + j } else if j < 52 { 71 + j } else { j - 4 };
        assert(ci != cj);
        assert((ci as char) as int == ci);
        assert((cj as char) as int == cj);
    }
}

fn default_digit_char(i: u8) -> (c: char)
    requires
        i < 62,
    ensures
        c == default_digit(i as int),
{
    if i < 26 {
        (65 + i) as char
    } else if i < 52 {
        (71 + i) as char
    } else {
        (i - 4) as char
    }
}

/// The characters of the alphabet that `alphabet` selects.
pub fn alphabet_chars(alphabet: &str) -> (r: Vec<char>)
    requires
        alphabet_arg_ok(alphabet@),
    ensures
        r@ == alphabet_of(alphabet@),
        valid_alphabet(r@),
{
    proof {
        lemma_default_alphabet_valid();
    }
    let mut r: Vec<char> = Vec::new();
    if alphabet.unicode_len() == 0 {
        let mut i: u8 = 0;
        while i < 62
            invariant
                i <= 62,
                r@ == default_alphabet().take(i as int),
            decreases 62 - i,
        {
            r.push(default_digit_char(i));
            i = i + 1;
            assert(r@ =~= default_alphabet().take(i as int));
        }
        assert(r@ =~= default_alphabet());
    } else {
        let mut i: usize = 0;
        while i < 62
            invariant
                i <= 62,
                valid_alphabet(alphabet@),
                r@ == alphabet@.take(i as int),
            decreases 62 - i,
        {
            r.push(alphabet.get_char(i));
            i = i + 1;
            assert(r@ =~= alphabet@.take(i as int));
        }
        assert(r@ =~= alphabet@);
    }
    r
}

/// The characters of `s`, in order.
pub fn chars_of(s: &str) -> (r: Vec<char>)
    ensures
        r@ == s@,
{
    let mut r: Vec<char> = Vec::new();
    for c in it: s.chars()
        invariant
            r@ == it.seq().take(it.index() as int),
    {
        r.push(c);
    }
    r
}

/// Whether `alphabet` may be passed as an alphabet argument: empty, or 62
/// characters with no two alike.
pub fn is_valid_alphabet(alphabet: &str) -> (r: bool)
    ensures
        r == alphabet_arg_ok(alphabet@),
{
    let chars = chars_of(alphabet);
    if chars.len() == 0 {
        return true;
    }
    if chars.len() != BASE {
        return false;
    }
    let mut i: usize = 0;
    while i < BASE
        invariant
            i <= 62,
            chars@ == alphabet@,
            chars@.len() == 62,
            forall|p: int, q: int| 0 <= p < q < 62 && p < i ==> chars@[p] != chars@[q],
        decreases 62 - i,
    {
        let mut j: usize = i + 1;
        while j < BASE
            invariant
                i < j <= 62,
                chars@ == alphabet@,
                chars@.len() == 62,
                forall|q: int| i < q < j ==> chars@[i as int] != chars@[q],
            decreases 62 - j,
        {
            if chars[i] == chars[j] {
                assert(!valid_alphabet(alphabet@));
                return false;
            }
            j = j + 1;
        }
        i = i + 1;
    }
    true
}

} // verus!
