//! Single-level directory listing, shaped for a tree view.

use vstd::prelude::*;
use crate::search::DirEntry;

verus! {

/// One node of a directory tree view.  A single-level listing leaves
/// `children` empty for every node, directory or file; the field is there
/// for the tree shape a front end fills in as directories are expanded.
pub struct FileNode {
    pub name: String,
    pub path: String,
    pub is_directory: bool,
    pub children: Option<Vec<FileNode>>,
}

/// Shape the entries of one directory into tree-view nodes, in listing
/// order: each node keeps its entry's name, path and classification, and
/// no node of a single-level listing carries children.
pub fn make_file_nodes(entries: &Vec<DirEntry>) -> (r: Vec<FileNode>)
    ensures
        r@.len() == entries@.len(),
        forall|i: int|
            0 <= i < entries@.len() ==> {
                let e = #[trigger] entries@[i];
                &&& r@[i].name@ == e.name@
                &&& r@[i].path@ == e.path@
                &&& r@[i].is_directory == e.is_dir
                &&& r@[i].children is None
            },
{
    let mut r: Vec<FileNode> = Vec::new();
    let mut k: usize = 0;
    while k < entries.len()
        invariant
            k <= entries@.len(),
            r@.len() == k,
            forall|i: int|
                0 <= i < k ==> {
                    let e = #[trigger] entries@[i];
                    &&& r@[i].name@ == e.name@
                    &&& r@[i].path@ == e.path@
                    &&& r@[i].is_directory == e.is_dir
                    &&& r@[i].children is None
                },
        decreases entries@.len() - k,
    {
        let e = &entries[k];
        r.push(
            FileNode {
                name: e.name.clone(),
                path: e.path.clone(),
                is_directory: e.is_dir,
                children: None,
            },
        );
        k += 1;
    }
    r
}

} // verus!
