//! The record persisted for a favorite folder.

use vstd::prelude::*;

verus! {

/// One favorite folder: a display name and the path it stands for.  The
/// list of favorites is persisted as a whole and read back as a whole; a
/// missing store reads back as the empty list.
pub struct FavoriteFolder {
    pub name: String,
    pub path: String,
}

impl FavoriteFolder {
    /// A favorite built from its two fields.
    pub fn new(name: String, path: String) -> (r: FavoriteFolder)
        ensures
            r.name@ == name@,
            r.path@ == path@,
    {
        FavoriteFolder { name, path }
    }
}

} // verus!
