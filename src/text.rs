use vstd::prelude::*;

verus! {

/// Decimal digits of `n`, without leading zeros.
pub open spec fn decimal(n: nat) -> Seq<char>
    decreases n,
{
    let digit = seq!['0', '1', '2', '3', '4', '5', '6', '7', '8', '9'][(n % 10) as int];
    if n < 10 {
        seq![digit]
    } else {
        decimal(n / 10).push(digit)
    }
}

/// Decimal digits of `n`, padded with a zero to at least two.
pub open spec fn two_digits(n: nat) -> Seq<char> {
    if n < 10 {
        seq!['0'] + decimal(n)
    } else {
        decimal(n)
    }
}

/// The diagnostic line for the given dimensions, parameters and particle count.
pub open spec fn debug_line(
    size: nat,
    num_types: nat,
    density_whole: nat,
    density_hundredths: nat,
    radius: nat,
    particles: nat,
) -> Seq<char> {
    seq!['G', 'r', 'i', 'd', ' '] + decimal(size) + seq!['x'] + decimal(size) + seq![',', ' '] + decimal(num_types) + seq![' ', 't', 'y', 'p', 'e', 's', ',', ' ', 'd', 'e', 'n', 's', 'i', 't', 'y', ' ']
        + decimal(density_whole) + seq!['.'] + two_digits(density_hundredths) + seq![',', ' ', 'r', 'a', 'd', 'i', 'u', 's', ' '] + decimal(
        radius,
    ) + seq![',', ' ', 'p', 'a', 'r', 't', 'i', 'c', 'l', 'e', 's', ':', ' '] + decimal(particles)
}

/// Relies on std's `ToString` for `u64` (its `Display`): the decimal digits of `n`
/// without leading zeros.
#[verifier::external_body]
pub(crate) fn decimal_text(n: u64) -> (r: String)
    ensures
        r@ == decimal(n as nat),
{
    n.to_string()
}

} // verus!
