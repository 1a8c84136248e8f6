//! Small rules the chat and HTTP front ends apply before they reach the
//! ledger: who is shown how, which page buttons exist, who may call.
use vstd::prelude::*;

verus! {

/// A member's display name: first name, then the last name if there is one.
pub fn full_name(first: String, last: Option<String>) -> (r: String)
    ensures
        r@ == match last {
            Some(l) => first@ + " "@ + l@,
            None => first@,
        },
{
    match last {
        Some(l) => first.concat(" ").concat(l.as_str()),
        None => first,
    }
}

/// The pages the rank-page keyboard links to: the previous one unless this
/// is the first, the next one when more rows follow.
pub fn pagination_buttons(page: usize, has_more_pages: bool) -> (r: (Option<usize>, Option<usize>))
    ensures
        r.0 == if page > 0 {
            Some((page - 1) as usize)
        } else {
            None
        },
        r.1 == if has_more_pages && page < usize::MAX {
            Some((page + 1) as usize)
        } else {
            None
        },
{
    let prev = if page > 0 {
        Some(page - 1)
    } else {
        None
    };
    let next = if has_more_pages && page < usize::MAX {
        Some(page + 1)
    } else {
        None
    };
    (prev, next)
}

/// The external entry point is open only to the configured key, and never
/// when no key is configured.
pub fn authorized(api_key: &String, token: &String) -> (r: bool)
    ensures
        r == (api_key@.len() > 0 && token@ == api_key@),
{
    !api_key.as_str().is_empty() && *token == *api_key
}

} // verus!
