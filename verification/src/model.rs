//! Mathematical model of the breadth-first directory search.
//!
//! A filesystem is modelled as a map from the path of each *readable*
//! directory to its listing, in enumeration order; a directory path absent
//! from the map is unreadable.  [`traverse`] walks such a map breadth-first
//! from a queue of pending directory paths, skipping paths already visited,
//! and yields either every visited entry in discovery order or the first
//! unreadable directory it reached.

use vstd::prelude::*;
use crate::text::matches_name;

verus! {

/// What one directory entry shows: base name, full path, directory flag.
pub ghost struct EntryModel {
    pub name: Seq<char>,
    pub path: Seq<char>,
    pub is_dir: bool,
}

/// One reported match.
pub ghost struct ResultModel {
    pub name: Seq<char>,
    pub path: Seq<char>,
    pub is_directory: bool,
}

/// The match reported for an entry.
pub open spec fn result_of(e: EntryModel) -> ResultModel {
    ResultModel { name: e.name, path: e.path, is_directory: e.is_dir }
}

/// The paths of the directory entries of a listing, in listing order.
pub open spec fn dir_paths(es: Seq<EntryModel>) -> Seq<Seq<char>> {
    es.filter(|e: EntryModel| e.is_dir).map_values(|e: EntryModel| e.path)
}

/// The matches among a sequence of entries, in order.
pub open spec fn matched_results(es: Seq<EntryModel>, pat: Seq<char>) -> Seq<ResultModel> {
    es.filter(|e: EntryModel| matches_name(e.name, pat)).map_values(
        |e: EntryModel| result_of(e),
    )
}

/// How a traversal ends: every visited entry in discovery order, or the
/// path of the first unreadable directory reached.
pub ghost enum TraversalOutcome {
    Complete { entries: Seq<EntryModel> },
    Blocked { dir: Seq<char> },
}

/// Breadth-first traversal of the tree model `tree` from the pending queue
/// `queue`, where the directories in `visited` have already been expanded.
/// The front of the queue is taken first; a path already visited is skipped;
/// an unreadable path blocks the traversal; a readable one contributes its
/// listing and enqueues its subdirectories at the back.
pub open spec fn traverse(
    tree: Map<Seq<char>, Seq<EntryModel>>,
    queue: Seq<Seq<char>>,
    visited: Set<Seq<char>>,
) -> TraversalOutcome
    decreases tree.dom().difference(visited).len(), queue.len(),
        when tree.dom().finite()
        via traverse_decreases
{
    if queue.len() == 0 {
        TraversalOutcome::Complete { entries: Seq::empty() }
    } else if visited.contains(queue[0]) {
        traverse(tree, queue.drop_first(), visited)
    } else if !tree.dom().contains(queue[0]) {
        TraversalOutcome::Blocked { dir: queue[0] }
    } else {
        let es = tree[queue[0]];
        match traverse(tree, queue.drop_first() + dir_paths(es), visited.insert(queue[0])) {
            TraversalOutcome::Complete { entries } => TraversalOutcome::Complete {
                entries: es + entries,
            },
            TraversalOutcome::Blocked { dir } => TraversalOutcome::Blocked { dir },
        }
    }
}

#[via_fn]
proof fn traverse_decreases(
    tree: Map<Seq<char>, Seq<EntryModel>>,
    queue: Seq<Seq<char>>,
    visited: Set<Seq<char>>,
) {
    if queue.len() > 0 && !visited.contains(queue[0]) && tree.dom().contains(queue[0]) {
        tree.dom().lemma_set_insert_diff_decreases(visited, queue[0]);
    }
}

/// A tree model is well formed when it is finite, no listing repeats a path,
/// and no two listings share a path: each file or directory of the modelled
/// filesystem appears as at most one entry.
pub open spec fn tree_wf(tree: Map<Seq<char>, Seq<EntryModel>>) -> bool {
    &&& tree.dom().finite()
    &&& forall|p: Seq<char>, i: int, j: int|
        tree.dom().contains(p) && 0 <= i < j < tree[p].len()
            ==> (#[trigger] tree[p][i]).path != (#[trigger] tree[p][j]).path
    &&& forall|p: Seq<char>, q: Seq<char>, i: int, j: int|
        tree.dom().contains(p) && tree.dom().contains(q) && p != q
            && 0 <= i < tree[p].len() && 0 <= j < tree[q].len()
            ==> (#[trigger] tree[p][i]).path != (#[trigger] tree[q][j]).path
}

/// A tree model is closed when every subdirectory entry of a readable
/// directory is itself readable.
pub open spec fn tree_closed(tree: Map<Seq<char>, Seq<EntryModel>>) -> bool {
    forall|p: Seq<char>, i: int|
        tree.dom().contains(p) && 0 <= i < tree[p].len() && (#[trigger] tree[p][i]).is_dir
            ==> tree.dom().contains(tree[p][i].path)
}

/// The entries a completed traversal visited; empty for a blocked one.
pub open spec fn traversal_entries(o: TraversalOutcome) -> Seq<EntryModel> {
    match o {
        TraversalOutcome::Complete { entries } => entries,
        TraversalOutcome::Blocked { .. } => Seq::empty(),
    }
}

/// The results a successful search reported; empty for a failed one.
pub open spec fn reported_results(o: SearchOutcome) -> Seq<ResultModel> {
    match o {
        SearchOutcome::Found { results } => results,
        SearchOutcome::Failed { .. } => Seq::empty(),
    }
}

/// How a whole search ends: the matches in discovery order, or the path of
/// the first unreadable directory reached.
pub ghost enum SearchOutcome {
    Found { results: Seq<ResultModel> },
    Failed { dir: Seq<char> },
}

/// The whole search over a modelled filesystem: traverse from the root and
/// keep, of every visited entry in discovery order, those whose name matches.
pub open spec fn search_outcome(
    tree: Map<Seq<char>, Seq<EntryModel>>,
    root: Seq<char>,
    pat: Seq<char>,
) -> SearchOutcome {
    match traverse(tree, seq![root], Set::empty()) {
        TraversalOutcome::Complete { entries } => SearchOutcome::Found {
            results: matched_results(entries, pat),
        },
        TraversalOutcome::Blocked { dir } => SearchOutcome::Failed { dir },
    }
}

} // verus!
