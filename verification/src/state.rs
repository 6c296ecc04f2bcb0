//! The state that is stored as one document: the items that were seen,
//! a window of the history, and the sticky roles of every user.

use crate::recent::RecentIds;
use crate::roles::StickyRoles;
use crate::seen::SeenSet;
use vstd::prelude::*;

verus! {

/// The whole of the stored state. Each part keeps its own order; a state
/// is well formed where its three parts are.
pub struct CacheContent {
    pub reddit_seen: SeenSet,
    pub gib_seen: RecentIds,
    pub sticky_roles: StickyRoles,
}

impl CacheContent {
    pub open spec fn well_formed(&self) -> bool {
        &&& self.reddit_seen.well_formed()
        &&& self.gib_seen.well_formed()
        &&& self.sticky_roles.well_formed()
    }

    /// Nothing was seen, and nobody has roles.
    pub open spec fn is_blank(&self) -> bool {
        &&& self.reddit_seen@ == Set::<Seq<char>>::empty()
        &&& self.gib_seen@ == Seq::<u64>::empty()
        &&& self.sticky_roles@ == Map::<Seq<char>, Set<u64>>::empty()
    }

    /// The state in which nothing was seen and nobody has roles, with a
    /// window that keeps `history` identifiers.
    pub fn new(history: usize) -> (content: Self)
        ensures
            content.well_formed(),
            content.is_blank(),
            content.gib_seen.limit() == history,
    {
        CacheContent {
            reddit_seen: SeenSet::new(),
            gib_seen: RecentIds::new(history),
            sticky_roles: StickyRoles::new(),
        }
    }
}

impl Default for CacheContent {
    /// The state of a store that was never written: all parts empty. Its
    /// window keeps nothing until a capacity is set.
    fn default() -> (content: Self)
        ensures
            content.well_formed(),
            content.is_blank(),
            content.gib_seen.limit() == 0,
    {
        CacheContent::new(0)
    }
}

} // verus!
