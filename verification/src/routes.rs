//! The read side: what a query over the mirror is answered with.

pub mod bookmark_tags;
pub mod bookmarks;
pub mod bookmarks_validate;

use vstd::prelude::*;

verus! {

/// The answer to a read query: the data asked for, or why there is none.
pub enum Response<T> {
    Data(T),
    Error(String),
}

} // verus!
