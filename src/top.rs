//! The rendered rank page handed to the chat, and the rules behind its marks.
use vstd::prelude::*;

verus! {

/// The text of a rank page and whether a next page exists.
#[derive(Debug)]
pub struct Top {
    pub lines: String,
    pub has_more_pages: bool,
}

impl Top {
    pub fn from(s: String) -> (r: Self)
        ensures
            r.lines == s,
            !r.has_more_pages,
    {
        Top { lines: s, has_more_pages: false }
    }

    pub fn with_more_pages(s: String) -> (r: Self)
        ensures
            r.lines == s,
            r.has_more_pages,
    {
        Top { lines: s, has_more_pages: true }
    }
}

/// Whether a member whose last growth was on `grown_on` may grow on `today`.
pub fn can_grow_on(grown_on: Option<i64>, today: i64) -> (r: bool)
    ensures
        r == match grown_on {
            Some(d) => d < today,
            None => true,
        },
{
    match grown_on {
        Some(d) => d < today,
        None => true,
    }
}

/// Hours and minutes left until midnight, given the seconds since midnight.
pub fn time_till_next_day(secs_of_day: u32) -> (r: (u32, u32))
    requires
        secs_of_day < 86400,
    ensures
        r.0 == (86400 - secs_of_day) / 3600,
        r.1 == (86400 - secs_of_day) / 60 - r.0 * 60,
        r.1 < 60,
{
    let left: u32 = 86400 - secs_of_day;
    let hours = left / 3600;
    let minutes = left / 60 - hours * 60;
    (hours, minutes)
}

/// Whole days from `created_at` to `now`, both in seconds, rounded toward
/// zero (negative when `now` comes first).
pub fn days_since(created_at: i64, now: i64) -> (r: i64)
    ensures
        now >= created_at ==> r == (now - created_at) / 86400,
        now < created_at ==> r == -((created_at - now) / 86400),
{
    let span: i128 = (now as i128) - (created_at as i128);
    (span / 86400) as i64
}

} // verus!
