//! When endorsements expire, and which expirations a client accepts.
use vstd::prelude::*;

verus! {

/// Seconds since the start of the epoch.
pub type Timestamp = u64;

/// The length of an hour, in seconds.
pub const SECONDS_PER_HOUR: u64 = 3600;

/// The length of a day, in seconds.
pub const SECONDS_PER_DAY: u64 = 86400;

/// The last timestamp at which a day starts.
pub const LAST_DAY_BOUNDARY: u64 = 18446744073709526400;

/// A day starts at `time`.
pub open spec fn is_day_boundary(time: int) -> bool {
    time % (SECONDS_PER_DAY as int) == 0
}

/// The time left until `expiration` at the time `now`; none once `expiration` has passed.
pub open spec fn time_remaining(expiration: int, now: int) -> int {
    if expiration >= now {
        expiration - now
    } else {
        0
    }
}

/// A client accepts endorsements that expire on a day boundary, in no less than two hours and in
/// no more than seven days.
pub open spec fn is_acceptable_expiration(expiration: int, now: int) -> bool {
    &&& is_day_boundary(expiration)
    &&& 2 * SECONDS_PER_HOUR <= time_remaining(expiration, now) <= 7 * SECONDS_PER_DAY
}

/// `expiration` is the first day boundary that is at least 25 hours after `current_time`.
pub open spec fn is_default_expiration(current_time: int, expiration: int) -> bool {
    &&& is_day_boundary(expiration)
    &&& current_time + SECONDS_PER_DAY + SECONDS_PER_HOUR <= expiration
    &&& forall|earlier: int|
        #![trigger is_day_boundary(earlier)]
        is_day_boundary(earlier) && current_time + SECONDS_PER_DAY + SECONDS_PER_HOUR <= earlier
            ==> expiration <= earlier
}

/// The default expiration is the end of the next day, unless that is less than 25 hours away; then
/// it is the end of the day after.
pub proof fn law_default_expiration_ends_a_day(current_time: int, expiration: int)
    requires
        current_time >= 0,
        is_default_expiration(current_time, expiration),
    ensures
        ({
            let day = current_time / (SECONDS_PER_DAY as int);
            let end_of_next_day = (day + 2) * SECONDS_PER_DAY;
            expiration == if end_of_next_day - current_time < SECONDS_PER_DAY + SECONDS_PER_HOUR {
                end_of_next_day + SECONDS_PER_DAY
            } else {
                end_of_next_day
            }
        }),
{
    let day = current_time / (SECONDS_PER_DAY as int);
    assert(is_day_boundary((day + 2) * SECONDS_PER_DAY));
    assert(is_day_boundary((day + 3) * SECONDS_PER_DAY));
}

/// A time has one default expiration.
pub proof fn law_default_expiration_is_unique(current_time: int, first: int, second: int)
    requires
        is_default_expiration(current_time, first),
        is_default_expiration(current_time, second),
    ensures
        first == second,
{
}

/// A client accepts the default expiration for the 23 hours after the endorsements were issued,
/// and also if its clock is behind by up to 4 days and 23 hours.
pub proof fn law_default_expiration_is_acceptable(issued: int, now: int, expiration: int)
    requires
        issued >= 0,
        is_default_expiration(issued, expiration),
        issued - 119 * SECONDS_PER_HOUR <= now <= issued + 23 * SECONDS_PER_HOUR,
    ensures
        is_acceptable_expiration(expiration, now),
{
    law_default_expiration_ends_a_day(issued, expiration);
}

/// Endorsements that a client accepts have not expired.
pub proof fn law_acceptable_expiration_is_ahead(expiration: int, now: int)
    requires
        is_acceptable_expiration(expiration, now),
    ensures
        now < expiration,
{
}

} // verus!
