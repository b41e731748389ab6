use vstd::prelude::*;

verus! {

/// Relies on chrono's `Utc::now` and `DateTime::timestamp_micros`: the
/// current time, in microseconds since the Unix epoch. `Utc::now` panics when
/// the system clock reads before the epoch, so every value it hands back is
/// at or after it; nothing more is promised of a reading of the clock.
#[verifier::external_body]
pub(crate) fn current_micros() -> (r: i64)
    ensures
        r >= 0,
{
    chrono::Utc::now().timestamp_micros()
}

/// Relies on uuid's `Uuid::new_v4` and `Uuid::as_u128`: a random identifier
/// whose version nibble reads 4 and whose variant bits read 10.
#[verifier::external_body]
pub(crate) fn fresh_id() -> (r: u128)
    ensures
        r & 0xF000_C000_0000_0000_0000u128 == 0x4000_8000_0000_0000_0000u128,
{
    uuid::Uuid::new_v4().as_u128()
}

} // verus!
