//! The favorite browser, saved apart from the rules.
use vstd::prelude::*;
use vstd::string::*;

verus! {

/// The favorite stored in the favorite file, if one is set: an empty value
/// counts as none.
pub open spec fn stored_favorite(browser: Option<Seq<char>>) -> Option<Seq<char>> {
    match browser {
        Some(b) => if b.len() > 0 {
            Some(b)
        } else {
            None
        },
        None => None,
    }
}

/// The favorite browser spec that the favorite file's `browser` field
/// holds, if one is set.
pub fn favorite_from_field(browser: Option<String>) -> (r: Option<String>)
    ensures
        match r {
            Some(s) => stored_favorite(
                match browser {
                    Some(b) => Some(b@),
                    None => None,
                },
            ) == Some(s@),
            None => stored_favorite(
                match browser {
                    Some(b) => Some(b@),
                    None => None,
                },
            ) is None,
        },
{
    match browser {
        Some(b) => if b.as_str().is_empty() {
            None
        } else {
            Some(b)
        },
        None => None,
    }
}

} // verus!
