//! Wall-clock readings as the 64-bit stamps that a region holds.
use vstd::prelude::*;

verus! {

/// The stamp of a clock reading: the units since the UNIX epoch, cut to 64 bits, and zero
/// for a clock that stands before the epoch (no reading).
pub open spec fn clock_stamp(since_epoch: Option<u128>) -> u64 {
    match since_epoch {
        Some(units) => (units % 0x1_0000_0000_0000_0000) as u64,
        None => 0,
    }
}

/// The stamp of a clock reading.
fn stamp(since_epoch: Option<u128>) -> (r: u64)
    ensures
        r == clock_stamp(since_epoch),
        since_epoch is None ==> r == 0,
        since_epoch matches Some(units) ==> (units <= u64::MAX ==> r == units),
{
    match since_epoch {
        Some(units) => (units % 0x1_0000_0000_0000_0000) as u64,
        None => 0,
    }
}

/// The write stamp of a clock that reads `since_epoch` nanoseconds since the UNIX epoch.
pub fn now_ns(since_epoch: Option<u128>) -> (r: u64)
    ensures
        r == clock_stamp(since_epoch),
        since_epoch is None ==> r == 0,
        since_epoch matches Some(units) ==> (units <= u64::MAX ==> r == units),
{
    stamp(since_epoch)
}

/// The creation stamp of a clock that reads `since_epoch` microseconds since the UNIX
/// epoch.
pub fn current_epoch_micros(since_epoch: Option<u128>) -> (r: u64)
    ensures
        r == clock_stamp(since_epoch),
        since_epoch is None ==> r == 0,
        since_epoch matches Some(units) ==> (units <= u64::MAX ==> r == units),
{
    stamp(since_epoch)
}

/// A reading that fits 64 bits is its own stamp, and where there is no reading the stamp is
/// zero.
pub proof fn law_reading_is_stamped(units: u128)
    ensures
        units <= u64::MAX ==> clock_stamp(Some(units)) == units,
        clock_stamp(None) == 0,
{
}

/// Stamps keep the order of their readings, as long as the readings fit 64 bits: a later
/// reading never has an earlier stamp, and two readings have one stamp only if they are one.
pub proof fn law_stamps_keep_order(a: u128, b: u128)
    requires
        a <= u64::MAX,
        b <= u64::MAX,
    ensures
        a <= b <==> clock_stamp(Some(a)) <= clock_stamp(Some(b)),
        a == b <==> clock_stamp(Some(a)) == clock_stamp(Some(b)),
{
}

/// Beyond 64 bits the high bits are cut off: readings that lie 2^64 units apart have the same
/// stamp.
pub proof fn law_stamps_come_round(units: u128)
    requires
        units + 0x1_0000_0000_0000_0000 <= u128::MAX,
    ensures
        clock_stamp(Some((units + 0x1_0000_0000_0000_0000) as u128)) == clock_stamp(Some(units)),
{
}

} // verus!
