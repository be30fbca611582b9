//! Relative times: how long ago a moment was, in coarse words.

use vstd::prelude::*;
use vstd::string::StringExecFns;
use crate::text::{decimal, decimal_string};

verus! {

/// The words for the time from `timestamp` to `now`, both in seconds: whole
/// days from one day on, else whole hours from one hour on, else whole minutes
/// from one minute on, else "just now". A moment that is not in the past is
/// just now too.
pub open spec fn relative_time(timestamp: int, now: int) -> Seq<char> {
    let delta = now - timestamp;
    if delta >= 86400 {
        decimal((delta / 86400) as nat) + " days ago"@
    } else if delta >= 3600 {
        decimal((delta / 3600) as nat) + " hours ago"@
    } else if delta >= 60 {
        decimal((delta / 60) as nat) + " minutes ago"@
    } else {
        "just now"@
    }
}

/// Says how long before `now` the moment `timestamp` was; both count seconds
/// from the same origin.
pub fn format_time(timestamp: i64, now: i64) -> (words: String)
    ensures
        words@ == relative_time(timestamp as int, now as int),
{
    if now < timestamp {
        return String::from_str("just now");
    }
    let delta: u64 = (now as i128 - timestamp as i128) as u64;
    if delta >= 86400 {
        let mut words = decimal_string(delta / 86400);
        words.append(" days ago");
        words
    } else if delta >= 3600 {
        let mut words = decimal_string(delta / 3600);
        words.append(" hours ago");
        words
    } else if delta >= 60 {
        let mut words = decimal_string(delta / 60);
        words.append(" minutes ago");
        words
    } else {
        String::from_str("just now")
    }
}

} // verus!
