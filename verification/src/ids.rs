//! Identifiers and time stamps, and where fresh ones come from.

use vstd::prelude::*;

verus! {

/// Names an account.
pub type AccountId = u128;

/// Names an asset.
pub type AssetId = u128;

/// Names an order.
pub type OrderId = u128;

/// Names a portfolio.
pub type PortfolioId = u128;

/// Whether `id` reads as a random identifier: of its 128 bits, the four that
/// tell the version say 4 and the two that tell the variant say 1 and 0.
pub open spec fn is_random_id(id: u128) -> bool {
    id & 0x0000_0000_0000_f000_c000_0000_0000_0000u128
        == 0x0000_0000_0000_4000_8000_0000_0000_0000u128
}

/// Draws a random identifier with `uuid::Uuid::new_v4` and hands out its 128
/// bits as an integer (`Uuid::as_u128`, the first byte foremost). All that is
/// claimed of the value is that it is marked as random, which `new_v4` does
/// to whatever it draws. The other bits come from the operating system's
/// random source: two calls may return anything, even the same number. If
/// that source fails, `new_v4` does not return.
#[verifier::external_body]
pub(crate) fn fresh_id() -> (id: u128)
    ensures
        is_random_id(id),
{
    uuid::Uuid::new_v4().as_u128()
}

/// Reads the system clock with `std::time::SystemTime::elapsed`, asked of
/// the Unix epoch, and hands out the nanoseconds that have passed since
/// then, or nothing for a clock that is set before it. The value depends on
/// the machine and the moment, so nothing is promised about it.
#[verifier::external_body]
pub(crate) fn clock_now() -> Option<u128> {
    match std::time::UNIX_EPOCH.elapsed() {
        Ok(elapsed) => Some(elapsed.as_nanos()),
        Err(_) => None,
    }
}

} // verus!
