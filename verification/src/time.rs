//! Engine time. In production it is calendar time; on a test instance it is
//! simulated: shifted, and faster or slower, as the state folder says.
use crate::config::Config;
use vstd::prelude::*;

verus! {

/// The calendar time that a clock reading is, in milliseconds since 1970; none
/// for a clock that is set before that.
pub open spec fn millis_of(reading: Option<u128>) -> Option<i64> {
    match reading {
        Some(ms) => Some(ms as i64),
        None => None,
    }
}

/// Reads the clock (`std::time::SystemTime::now`) in whole milliseconds since
/// 1970; nothing where it is set before that. What it says is up to the
/// machine.
#[verifier::external_body]
fn read_clock() -> (r: Option<u128>)
{
    std::time::SystemTime::now().duration_since(std::time::UNIX_EPOCH).ok().map(|d| d.as_millis())
}

/// The calendar time that a clock reading is.
pub fn calendar_millis(reading: Option<u128>) -> (r: Option<i64>)
    ensures
        r == millis_of(reading),
{
    match reading {
        Some(ms) => Some(ms as i64),
        None => None,
    }
}

/// Calendar time, in milliseconds since 1970; never simulated. There is none
/// where the clock is set before 1970. What the clock shows is up to the
/// machine, so nothing is claimed here: [`calendar_millis`] says what is made of
/// each reading.
pub fn calendar_now_millis() -> (r: Option<i64>) {
    calendar_millis(read_clock())
}

/// A time on either side of 1970.
#[derive(Clone, Copy, PartialEq, Eq, Structural)]
pub enum SinceEpoch {
    /// So many milliseconds after.
    After(u64),
    /// So many milliseconds before.
    Before(u64),
}

/// On which side of 1970 a time is, and how far from it.
pub fn since_epoch(millis: i64) -> (r: SinceEpoch)
    ensures
        match r {
            SinceEpoch::After(ms) => millis >= 0 && ms == millis,
            SinceEpoch::Before(ms) => millis < 0 && ms == -millis,
        },
{
    if millis >= 0 {
        SinceEpoch::After(millis as u64)
    } else {
        SinceEpoch::Before((-(millis as i128)) as u64)
    }
}

/// Engine time, as far as the calendar alone gives it: in production it is
/// calendar time, and nothing in the state folder matters. On a test instance
/// the state folder says what becomes of calendar time, by [`simtime`].
pub fn now_millis(config: &Config, cal_ms: i64) -> (r: Option<i64>)
    ensures
        r == if config.test_env {
            None
        } else {
            Some(cal_ms)
        },
{
    if config.test_env {
        None
    } else {
        Some(cal_ms)
    }
}

/// What waits are divided by, as far as it is known without the state folder:
/// in production they last as long as they say. On a test instance it is the
/// rate of simulated time.
pub fn wait_factor(config: &Config) -> (r: Option<u64>)
    ensures
        r == if config.test_env {
            None
        } else {
            Some(1u64)
        },
{
    if config.test_env {
        None
    } else {
        Some(1)
    }
}

/// How long the rate of simulated time has applied, in milliseconds. The
/// difference is taken in 64 bits.
pub fn elapsed_ms(cal_ms: i64, factor_start_ms: i64) -> (r: i64)
    ensures
        i64::MIN <= cal_ms - factor_start_ms <= i64::MAX ==> r == cal_ms - factor_start_ms,
        r == cal_ms.wrapping_sub(factor_start_ms),
{
    cal_ms.wrapping_sub(factor_start_ms)
}

/// Simulated time: the rate's anchor, plus the time since then at that rate,
/// plus the shift. The sum is taken in 64 bits.
pub fn simtime(factor_start_ms: i64, scaled_elapsed_ms: i64, diff_ms: i64) -> (r: i64)
    ensures
        i64::MIN <= factor_start_ms + scaled_elapsed_ms <= i64::MAX && i64::MIN <= factor_start_ms
            + scaled_elapsed_ms + diff_ms <= i64::MAX ==> r == factor_start_ms + scaled_elapsed_ms
            + diff_ms,
        r == factor_start_ms.wrapping_add(scaled_elapsed_ms).wrapping_add(diff_ms),
{
    factor_start_ms.wrapping_add(scaled_elapsed_ms).wrapping_add(diff_ms)
}

/// At the calendar's own rate simulated time is calendar time plus the shift.
pub proof fn rate_one_is_calendar_plus_shift(cal_ms: i64, factor_start_ms: i64, diff_ms: i64)
    requires
        i64::MIN <= cal_ms - factor_start_ms <= i64::MAX,
        i64::MIN <= cal_ms + diff_ms <= i64::MAX,
    ensures
        factor_start_ms.wrapping_add(cal_ms.wrapping_sub(factor_start_ms)).wrapping_add(diff_ms)
            == cal_ms + diff_ms,
{
}

/// A clock's reading is the calendar time as long as that fits, and where the clock
/// shows none there is none.
pub proof fn a_reading_is_the_time(ms: u128)
    ensures
        ms <= i64::MAX ==> millis_of(Some(ms)) == Some(ms as i64) && millis_of(Some(ms))->Some_0
            == ms,
        millis_of(None) is None,
{
}

} // verus!
