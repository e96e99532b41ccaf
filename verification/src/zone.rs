//! Times as the machine's own time zone writes them.

use vstd::prelude::*;

use crate::replay::zoned_stamp;

verus! {

/// `s` is how a time is written in the time zone of the machine. Which offset
/// that zone has is known to the machine alone, so that no other text can be
/// shown to be such a time: it comes from asking for the local time.
pub closed spec fn local_time(timestamp: i64, pattern: Seq<char>, s: Seq<char>) -> bool {
    zoned_stamp(timestamp, pattern, s)
}

/// A local time is a time in UTC shifted by less than a day.
pub proof fn law_local_time_is_shifted(timestamp: i64, pattern: Seq<char>, s: Seq<char>)
    requires
        local_time(timestamp, pattern, s),
    ensures
        zoned_stamp(timestamp, pattern, s),
{
}

} // verus!
