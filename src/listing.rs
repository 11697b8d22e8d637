use vstd::prelude::*;

use crate::index::{entries_view, VideoPlayerState};

verus! {

/// What the listing page shows: every (server key, path) entry of the index.
pub struct IndexTemplate {
    pub videos: Vec<(String, String)>,
}

impl IndexTemplate {
    /// A snapshot of the entries of `state`, in the order the files were found.
    pub fn new(state: &VideoPlayerState) -> (t: Self)
        ensures
            entries_view(t.videos@) == state@.entries,
    {
        IndexTemplate { videos: state.list_all() }
    }
}

} // verus!
