//! A member's statistics over all chats.
use vstd::prelude::*;

verus! {

/// The raw aggregate as the store returns it; each part may be missing.
#[derive(Debug, Clone, Copy)]
pub struct PersonalStatsEntity {
    pub chats: Option<i64>,
    pub max_length: Option<i32>,
    pub total_length: Option<i64>,
    pub given_cm: Option<i64>,
    pub received_cm: Option<i64>,
}

#[derive(Debug, Clone, Copy, PartialEq, Eq)]
pub struct PersonalStats {
    pub chats: u64,
    pub max_length: i32,
    pub total_length: i64,
    pub given_cm: i64,
    pub received_cm: i64,
}

impl PersonalStats {
    /// Missing parts count as zero. A chat count is never negative.
    pub fn from_entity(value: PersonalStatsEntity) -> (r: Self)
        requires
            value.chats matches Some(c) ==> c >= 0,
        ensures
            r.chats == match value.chats {
                Some(c) => c as u64,
                None => 0,
            },
            r.max_length == match value.max_length {
                Some(v) => v,
                None => 0,
            },
            r.total_length == match value.total_length {
                Some(v) => v,
                None => 0,
            },
            r.given_cm == match value.given_cm {
                Some(v) => v,
                None => 0,
            },
            r.received_cm == match value.received_cm {
                Some(v) => v,
                None => 0,
            },
    {
        PersonalStats {
            chats: match value.chats {
                Some(c) => c as u64,
                None => 0,
            },
            max_length: match value.max_length {
                Some(v) => v,
                None => 0,
            },
            total_length: match value.total_length {
                Some(v) => v,
                None => 0,
            },
            given_cm: match value.given_cm {
                Some(v) => v,
                None => 0,
            },
            received_cm: match value.received_cm {
                Some(v) => v,
                None => 0,
            },
        }
    }
}

} // verus!
