//! The interface this crate relies on from the `bandwidth` crate.
//!
//! A `Bandwidth` is an exact nonnegative rate, stored as a pair of a
//! whole-gigabit count (`u64`) and a sub-gigabit remainder in bits per
//! second (`u32`, below one billion). [`bw_bits`] names the total number
//! of bits per second such a value holds; every contract of this crate
//! speaks of a `Bandwidth` through that name.

use vstd::prelude::*;
use bandwidth::Bandwidth;

verus! {

#[verifier::external_type_specification]
#[verifier::external_body]
pub struct ExBandwidth(Bandwidth);

/// The total rate a `Bandwidth` holds, in bits per second.
pub uninterp spec fn bw_bits(b: Bandwidth) -> nat;

/// The largest rate a `Bandwidth` can hold: `u64::MAX` gigabits plus a
/// sub-gigabit remainder of `10^9 - 1` bits per second.
pub open spec fn bw_max() -> nat {
    (u64::MAX * 1_000_000_000 + 999_999_999) as nat
}

/// Relies on bandwidth::Bandwidth's derived `Clone` on a `Copy` type:
/// the clone is the value itself.
pub assume_specification [ <Bandwidth as Clone>::clone ] (b: &Bandwidth) -> (r: Bandwidth)
    ensures
        r == *b,
;

/// Relies on bandwidth::Bandwidth::new: with a sub-gigabit part below one
/// billion there is no carry, and the pair is stored exactly.
pub assume_specification [ Bandwidth::new ] (gbps: u64, bps: u32) -> (r: Bandwidth)
    requires
        bps < 1_000_000_000,
    ensures
        bw_bits(r) == gbps * 1_000_000_000 + bps,
;

/// Relies on bandwidth::Bandwidth::as_gbps: returns the whole-gigabit part.
pub assume_specification [ Bandwidth::as_gbps ] (b: &Bandwidth) -> (r: u64)
    ensures
        r == bw_bits(*b) / 1_000_000_000,
;

/// Relies on bandwidth::Bandwidth::subgbps_bps: returns the sub-gigabit
/// remainder in bits per second.
pub assume_specification [ Bandwidth::subgbps_bps ] (b: &Bandwidth) -> (r: u32)
    ensures
        r == bw_bits(*b) % 1_000_000_000,
;

/// Relies on bandwidth::Bandwidth::checked_add: exact addition that
/// returns `None` instead of overflowing past [`bw_max`].
pub assume_specification [ Bandwidth::checked_add ] (a: Bandwidth, rhs: Bandwidth) -> (r: Option<
    Bandwidth,
>)
    ensures
        r is Some <==> bw_bits(a) + bw_bits(rhs) <= bw_max(),
        r matches Some(b) ==> bw_bits(b) == bw_bits(a) + bw_bits(rhs),
;

} // verus!
