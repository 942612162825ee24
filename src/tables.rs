//! The chunk-size table: how many base-62 digits a chunk of a given number
//! of bytes is written with, and the inverse lookup.
use vstd::arithmetic::power::pow;
use vstd::prelude::*;

verus! {

/// The largest number of bytes encoded as one group.
pub const MAX_CHUNK_BYTES: usize = 32;

/// The width of the group of a full chunk of `MAX_CHUNK_BYTES` bytes.
pub const MAX_CHUNK_CHARS: usize = 43;

/// The number of digits of the group for a chunk of `x` bytes, for `x` in `1..=32`:
/// `ceil(8 * x / log2(62))`, the least `w` with `62^w >= 256^x` (see
/// `lemma_width_is_least`).
pub open spec fn width_of(x: nat) -> nat {
    if x == 1 { 2 } else if x == 2 { 3 } else if x == 3 { 5 } else if x == 4 { 6 }
    else if x == 5 { 7 } else if x == 6 { 9 } else if x == 7 { 10 } else if x == 8 { 11 }
    else if x == 9 { 13 } else if x == 10 { 14 } else if x == 11 { 15 } else if x == 12 { 17 }
    else if x == 13 { 18 } else if x == 14 { 19 } else if x == 15 { 21 } else if x == 16 { 22 }
    else if x == 17 { 23 } else if x == 18 { 25 } else if x == 19 { 26 } else if x == 20 { 27 }
    else if x == 21 { 29 } else if x == 22 { 30 } else if x == 23 { 31 } else if x == 24 { 33 }
    else if x == 25 { 34 } else if x == 26 { 35 } else if x == 27 { 37 } else if x == 28 { 38 }
    else if x == 29 { 39 } else if x == 30 { 41 } else if x == 31 { 42 } else { 43 }
}

/// `w` digits of base 62 hold every value of `x` bytes, and `w - 1` digits do not.
#[verifier::opaque]
pub open spec fn least_width(x: nat, w: nat) -> bool {
    w >= 1 && pow(62, (w - 1) as nat) < pow(256, x) <= pow(62, w)
}

/// The table gives, for every chunk size, the least digit count whose range
/// holds every value of that many bytes.
#[verifier::rlimit(100)]
pub proof fn lemma_width_is_least(x: nat)
    requires
        1 <= x <= 32,
    ensures
        least_width(x, width_of(x)),
{
    assert(least_width(1, 2)) by {
        reveal(least_width);
        reveal_with_fuel(pow, 44);
    }
    assert(least_width(2, 3)) by {
        reveal(least_width);
        reveal_with_fuel(pow, 44);
    }
    assert(least_width(3, 5)) by {
        reveal(least_width);
        reveal_with_fuel(pow, 44);
    }
    assert(least_width(4, 6)) by {
        reveal(least_width);
        reveal_with_fuel(pow, 44);
    }
    assert(least_width(5, 7)) by {
        reveal(least_width);
        reveal_with_fuel(pow, 44);
    }
    assert(least_width(6, 9)) by {
        reveal(least_width);
        reveal_with_fuel(pow, 44);
    }
    assert(least_width(7, 10)) by {
        reveal(least_width);
        reveal_with_fuel(pow, 44);
    }
    assert(least_width(8, 11)) by {
        reveal(least_width);
        reveal_with_fuel(pow, 44);
    }
    assert(least_width(9, 13)) by {
        reveal(least_width);
        reveal_with_fuel(pow, 44);
    }
    assert(least_width(10, 14)) by {
        reveal(least_width);
        reveal_with_fuel(pow, 44);
    }
    assert(least_width(11, 15)) by {
        reveal(least_width);
        reveal_with_fuel(pow, 44);
    }
    assert(least_width(12, 17)) by {
        reveal(least_width);
        reveal_with_fuel(pow, 44);
    }
    assert(least_width(13, 18)) by {
        reveal(least_width);
        reveal_with_fuel(pow, 44);
    }
    assert(least_width(14, 19)) by {
        reveal(least_width);
        reveal_with_fuel(pow, 44);
    }
    assert(least_width(15, 21)) by {
        reveal(least_width);
        reveal_with_fuel(pow, 44);
    }
    assert(least_width(16, 22)) by {
        reveal(least_width);
        reveal_with_fuel(pow, 44);
    }
    assert(least_width(17, 23)) by {
        reveal(least_width);
        reveal_with_fuel(pow, 44);
    }
    assert(least_width(18, 25)) by {
        reveal(least_width);
        reveal_with_fuel(pow, 44);
    }
    assert(least_width(19, 26)) by {
        reveal(least_width);
        reveal_with_fuel(pow, 44);
    }
    assert(least_width(20, 27)) by {
        reveal(least_width);
        reveal_with_fuel(pow, 44);
    }
    assert(least_width(21, 29)) by {
        reveal(least_width);
        reveal_with_fuel(pow, 44);
    }
    assert(least_width(22, 30)) by {
        reveal(least_width);
        reveal_with_fuel(pow, 44);
    }
    assert(least_width(23, 31)) by {
        reveal(least_width);
        reveal_with_fuel(pow, 44);
    }
    assert(least_width(24, 33)) by {
        reveal(least_width);
        reveal_with_fuel(pow, 44);
    }
    assert(least_width(25, 34)) by {
        reveal(least_width);
        reveal_with_fuel(pow, 44);
    }
    assert(least_width(26, 35)) by {
        reveal(least_width);
        reveal_with_fuel(pow, 44);
    }
    assert(least_width(27, 37)) by {
        reveal(least_width);
        reveal_with_fuel(pow, 44);
    }
    assert(least_width(28, 38)) by {
        reveal(least_width);
        reveal_with_fuel(pow, 44);
    }
    assert(least_width(29, 39)) by {
        reveal(least_width);
        reveal_with_fuel(pow, 44);
    }
    assert(least_width(30, 41)) by {
        reveal(least_width);
        reveal_with_fuel(pow, 44);
    }
    assert(least_width(31, 42)) by {
        reveal(least_width);
        reveal_with_fuel(pow, 44);
    }
    assert(least_width(32, 43)) by {
        reveal(least_width);
        reveal_with_fuel(pow, 44);
    }
}

/// Each chunk size has a wider group than the size one smaller.
proof fn lemma_width_step(x: nat)
    requires
        1 <= x < 32,
    ensures
        width_of(x) < width_of(x + 1),
{
}

/// Group widths grow strictly with the chunk size, so that a width tells the
/// chunk size apart.
pub proof fn lemma_width_strictly_increasing(x1: nat, x2: nat)
    requires
        1 <= x1 < x2 <= 32,
    ensures
        width_of(x1) < width_of(x2),
    decreases x2 - x1,
{
    lemma_width_step((x2 - 1) as nat);
    if x1 < x2 - 1 {
        lemma_width_strictly_increasing(x1, (x2 - 1) as nat);
    }
}

/// The width of the group for a chunk of `x` bytes.
pub fn chunk_width(x: usize) -> (w: usize)
    requires
        1 <= x <= MAX_CHUNK_BYTES,
    ensures
        w == width_of(x as nat),
{
    match x {
        1 => 2,
        2 => 3,
        3 => 5,
        4 => 6,
        5 => 7,
        6 => 9,
        7 => 10,
        8 => 11,
        9 => 13,
        10 => 14,
        11 => 15,
        12 => 17,
        13 => 18,
        14 => 19,
        15 => 21,
        16 => 22,
        17 => 23,
        18 => 25,
        19 => 26,
        20 => 27,
        21 => 29,
        22 => 30,
        23 => 31,
        24 => 33,
        25 => 34,
        26 => 35,
        27 => 37,
        28 => 38,
        29 => 39,
        30 => 41,
        31 => 42,
        _ => 43,
    }
}

/// The chunk size whose group is `w` digits wide, if there is one.
pub fn chunk_bytes(w: usize) -> (r: Option<usize>)
    ensures
        match r {
            Some(x) => 1 <= x <= MAX_CHUNK_BYTES && width_of(x as nat) == w,
            None => forall|x: nat| 1 <= x <= MAX_CHUNK_BYTES ==> width_of(x) != w,
        },
{
    let mut x: usize = 1;
    while x <= MAX_CHUNK_BYTES
        invariant
            1 <= x <= MAX_CHUNK_BYTES + 1,
            forall|y: nat| 1 <= y < x ==> width_of(y) != w,
        decreases MAX_CHUNK_BYTES + 1 - x,
    {
        if chunk_width(x) == w {
            return Some(x);
        }
        x = x + 1;
    }
    None
}

} // verus!
