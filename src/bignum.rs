//! Base conversion of whole numerals, done by `num_bigint`.
use crate::digits::{be_value, digits_below};
use num_bigint::BigUint;
use vstd::prelude::*;

verus! {

/// Relies on `BigUint::from_bytes_be`, which reads the bytes as a big-endian
/// number, and `BigUint::to_radix_be(62)`, which writes that number as
/// big-endian base-62 digits with no leading zero digit (`[0]` for zero).
#[verifier::external_body]
pub(crate) fn radix62_of_bytes(bytes: &[u8]) -> (r: Vec<u8>)
    ensures
        be_value(r@, 62) == be_value(bytes@, 256),
        digits_below(r@, 62),
        r@.len() >= 1,
        r@.len() == 1 || r@[0] != 0,
{
    BigUint::from_bytes_be(bytes).to_radix_be(62)
}

/// Relies on `BigUint::from_radix_be(_, 62)`, which reads big-endian base-62
/// digits and gives `None` when one of them is 62 or more, and
/// `BigUint::to_bytes_be`, which writes the number as big-endian bytes with
/// no leading zero byte (`[0]` for zero).
#[verifier::external_body]
pub(crate) fn bytes_of_radix62(digits: &[u8]) -> (r: Option<Vec<u8>>)
    ensures
        r is Some <==> digits_below(digits@, 62),
        r matches Some(b) ==> {
            &&& be_value(b@, 256) == be_value(digits@, 62)
            &&& b@.len() >= 1
            &&& b@.len() == 1 || b@[0] != 0
        },
{
    match BigUint::from_radix_be(digits, 62) {
        Some(n) => Some(n.to_bytes_be()),
        None => None,
    }
}

} // verus!
