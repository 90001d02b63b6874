//! Laws of the breadth-first search, proved over the model.

use vstd::prelude::*;
use crate::model::EntryModel;
use crate::model::ResultModel;
use crate::model::TraversalOutcome;
use crate::model::SearchOutcome;
use crate::model::dir_paths;
use crate::model::matched_results;
use crate::model::result_of;
use crate::model::traverse;
use crate::model::traversal_entries;
use crate::model::search_outcome;
use crate::model::tree_wf;
use crate::model::tree_closed;
use crate::text::matches_name;
use crate::text::lemma_empty_pattern;
use crate::search::lemma_matched_append;
use crate::search::lemma_matched_push;

verus! {

/// Every element of a filtered sequence is an element of the unfiltered one.
proof fn lemma_filter_member(s: Seq<EntryModel>, pred: spec_fn(EntryModel) -> bool, k: int)
    requires
        0 <= k < s.filter(pred).len(),
    ensures
        exists|j: int| 0 <= j < s.len() && s[j] == s.filter(pred)[k] && pred(#[trigger] s[j]),
    decreases s.len(),
{
    reveal(Seq::filter);
    if s.len() != 0 {
        let f = s.filter(pred);
        let fd = s.drop_last().filter(pred);
        if pred(s.last()) && k == f.len() - 1 {
            assert(s[s.len() - 1] == f[k] && pred(s[s.len() - 1]));
        } else {
            lemma_filter_member(s.drop_last(), pred, k);
            let j = choose|j: int|
                0 <= j < s.drop_last().len() && s.drop_last()[j] == fd[k] && pred(
                    #[trigger] s.drop_last()[j],
                );
            assert(s[j] == f[k] && pred(s[j]));
        }
    }
}

/// A sequence none of whose elements satisfies the predicate filters to the
/// empty sequence.
proof fn lemma_filter_none(s: Seq<EntryModel>, pred: spec_fn(EntryModel) -> bool)
    requires
        forall|i: int| 0 <= i < s.len() ==> !pred(#[trigger] s[i]),
    ensures
        s.filter(pred) == Seq::<EntryModel>::empty(),
    decreases s.len(),
{
    reveal(Seq::filter);
    if s.len() != 0 {
        lemma_filter_none(s.drop_last(), pred);
    }
}

/// A sequence all of whose elements satisfy the predicate filters to itself.
proof fn lemma_filter_all(s: Seq<EntryModel>, pred: spec_fn(EntryModel) -> bool)
    requires
        forall|i: int| 0 <= i < s.len() ==> pred(#[trigger] s[i]),
    ensures
        s.filter(pred) == s,
    decreases s.len(),
{
    reveal(Seq::filter);
    if s.len() != 0 {
        lemma_filter_all(s.drop_last(), pred);
        assert(s.drop_last().push(s.last()) =~= s);
    }
}

/// Every path of `dir_paths(es)` is the path of a directory entry of `es`,
/// and every directory entry's path is among `dir_paths(es)`.
proof fn lemma_dir_paths_member(es: Seq<EntryModel>, k: int)
    requires
        0 <= k < dir_paths(es).len(),
    ensures
        exists|j: int|
            0 <= j < es.len() && (#[trigger] es[j]).is_dir && es[j].path == dir_paths(es)[k],
{
    let pred = |e: EntryModel| e.is_dir;
    lemma_filter_member(es, pred, k);
    let j = choose|j: int| 0 <= j < es.len() && es[j] == es.filter(pred)[k] && pred(#[trigger] es[j]);
    assert(es[j].is_dir && es[j].path == dir_paths(es)[k]);
}

/// A directory entry's path appears among the pending paths of its listing.
proof fn lemma_dir_paths_contains(es: Seq<EntryModel>, k: int)
    requires
        0 <= k < es.len(),
        es[k].is_dir,
    ensures
        dir_paths(es).contains(es[k].path),
{
    let pred = |e: EntryModel| e.is_dir;
    broadcast use vstd::seq_lib::group_filter_ensures;

    assert(es.filter(pred).contains(es[k]));
    let j = choose|j: int| 0 <= j < es.filter(pred).len() && es.filter(pred)[j] == es[k];
    assert(dir_paths(es)[j] == es[k].path);
}

/// A traversal of a closed tree whose pending paths are all readable or
/// already visited never blocks: unreadable directories are the only way a
/// search fails.
pub proof fn lemma_closed_tree_completes(
    tree: Map<Seq<char>, Seq<EntryModel>>,
    queue: Seq<Seq<char>>,
    visited: Set<Seq<char>>,
)
    requires
        tree.dom().finite(),
        tree_closed(tree),
        forall|i: int|
            0 <= i < queue.len() ==> tree.dom().contains(#[trigger] queue[i]) || visited.contains(
                queue[i],
            ),
    ensures
        traverse(tree, queue, visited) is Complete,
    decreases tree.dom().difference(visited).len(), queue.len(),
{
    if queue.len() == 0 {
    } else if visited.contains(queue[0]) {
        assert(forall|i: int|
            0 <= i < queue.drop_first().len() ==> queue.drop_first()[i] == queue[i + 1]);
        lemma_closed_tree_completes(tree, queue.drop_first(), visited);
    } else {
        let es = tree[queue[0]];
        let q2 = queue.drop_first() + dir_paths(es);
        assert forall|i: int|
            0 <= i < q2.len() implies tree.dom().contains(#[trigger] q2[i]) || visited.insert(
            queue[0],
        ).contains(q2[i]) by {
            if i < queue.drop_first().len() {
                assert(q2[i] == queue[i + 1]);
            } else {
                let k = i - queue.drop_first().len();
                lemma_dir_paths_member(es, k);
                let j = choose|j: int|
                    0 <= j < es.len() && (#[trigger] es[j]).is_dir && es[j].path == dir_paths(es)[k];
                assert(tree.dom().contains(es[j].path));
            }
        }
        tree.dom().lemma_set_insert_diff_decreases(visited, queue[0]);
        lemma_closed_tree_completes(tree, q2, visited.insert(queue[0]));
    }
}

/// Every entry a traversal visits is an entry of some readable directory's
/// listing.
proof fn lemma_visited_from_tree(
    tree: Map<Seq<char>, Seq<EntryModel>>,
    queue: Seq<Seq<char>>,
    visited: Set<Seq<char>>,
)
    requires
        tree.dom().finite(),
    ensures
        traverse(tree, queue, visited) is Complete ==> {
            let vs = traversal_entries(traverse(tree, queue, visited));
            forall|k: int|
                0 <= k < vs.len() ==> exists|p: Seq<char>|
                    #[trigger] tree.dom().contains(p) && tree[p].contains(#[trigger] vs[k])
        },
    decreases tree.dom().difference(visited).len(), queue.len(),
{
    if queue.len() == 0 {
    } else if visited.contains(queue[0]) {
        lemma_visited_from_tree(tree, queue.drop_first(), visited);
    } else if !tree.dom().contains(queue[0]) {
    } else {
        let es = tree[queue[0]];
        let q2 = queue.drop_first() + dir_paths(es);
        let vis2 = visited.insert(queue[0]);
        tree.dom().lemma_set_insert_diff_decreases(visited, queue[0]);
        lemma_visited_from_tree(tree, q2, vis2);
        if traverse(tree, queue, visited) is Complete {
            let vs = traversal_entries(traverse(tree, queue, visited));
            let rest = traversal_entries(traverse(tree, q2, vis2));
            assert forall|k: int|
                0 <= k < vs.len() implies exists|p: Seq<char>|
                #[trigger] tree.dom().contains(p) && tree[p].contains(#[trigger] vs[k]) by {
                if k < es.len() {
                    assert(vs[k] == es[k]);
                    assert(tree.dom().contains(queue[0]) && tree[queue[0]].contains(es[k]));
                } else {
                    assert(vs[k] == rest[k - es.len()]);
                }
            }
        }
    }
}

/// For a tree with no matching entry, the search returns no results and,
/// when the tree is closed and the root readable, no error either.
pub proof fn lemma_no_match_returns_empty(
    tree: Map<Seq<char>, Seq<EntryModel>>,
    root: Seq<char>,
    pat: Seq<char>,
)
    requires
        tree.dom().finite(),
        tree_closed(tree),
        tree.dom().contains(root),
        forall|p: Seq<char>, i: int|
            tree.dom().contains(p) && 0 <= i < tree[p].len() ==> !matches_name(
                (#[trigger] tree[p][i]).name,
                pat,
            ),
    ensures
        search_outcome(tree, root, pat) == (SearchOutcome::Found {
            results: Seq::<ResultModel>::empty(),
        }),
{
    lemma_closed_tree_completes(tree, seq![root], Set::empty());
    lemma_visited_from_tree(tree, seq![root], Set::empty());
    let vs = traversal_entries(traverse(tree, seq![root], Set::empty()));
    let pred = |e: EntryModel| matches_name(e.name, pat);
    assert forall|k: int| 0 <= k < vs.len() implies !pred(#[trigger] vs[k]) by {
        let p = choose|p: Seq<char>| #[trigger] tree.dom().contains(p) && tree[p].contains(vs[k]);
        let i = choose|i: int| 0 <= i < tree[p].len() && tree[p][i] == vs[k];
        assert(!matches_name(tree[p][i].name, pat));
    }
    lemma_filter_none(vs, pred);
    assert(matched_results(vs, pat) =~= Seq::<ResultModel>::empty());
}

/// An empty search term matches every name, so a completed search reports
/// every visited entry, each exactly once, in discovery order.
pub proof fn lemma_empty_term_reports_every_entry(
    tree: Map<Seq<char>, Seq<EntryModel>>,
    root: Seq<char>,
    pat: Seq<char>,
)
    requires
        tree.dom().finite(),
        pat.len() == 0,
        traverse(tree, seq![root], Set::empty()) is Complete,
    ensures
        search_outcome(tree, root, pat) == (SearchOutcome::Found {
            results: traversal_entries(traverse(tree, seq![root], Set::empty())).map_values(
                |e: EntryModel| result_of(e),
            ),
        }),
{
    let vs = traversal_entries(traverse(tree, seq![root], Set::empty()));
    let pred = |e: EntryModel| matches_name(e.name, pat);
    assert forall|k: int| 0 <= k < vs.len() implies pred(#[trigger] vs[k]) by {
        lemma_empty_pattern(crate::text::lower_of(vs[k].name), pat);
    }
    lemma_filter_all(vs, pred);
}

/// For a root whose listing holds no subdirectory, the search visits the
/// root alone: the results are its matches in listing order.
pub proof fn lemma_single_directory(
    tree: Map<Seq<char>, Seq<EntryModel>>,
    root: Seq<char>,
    pat: Seq<char>,
)
    requires
        tree.dom().finite(),
        tree.dom().contains(root),
        dir_paths(tree[root]).len() == 0,
    ensures
        search_outcome(tree, root, pat) == (SearchOutcome::Found {
            results: matched_results(tree[root], pat),
        }),
{
    let q2 = seq![root].drop_first() + dir_paths(tree[root]);
    assert(q2 =~= Seq::<Seq<char>>::empty());
    assert(traverse(tree, q2, Set::empty().insert(root)) == (TraversalOutcome::Complete {
        entries: Seq::<EntryModel>::empty(),
    }));
    assert(tree[root] + Seq::<EntryModel>::empty() =~= tree[root]);
}

/// Matches are reported breadth-first: a completed search reports every
/// match in the root's listing before any match from a subdirectory.
pub proof fn lemma_root_matches_first(
    tree: Map<Seq<char>, Seq<EntryModel>>,
    root: Seq<char>,
    pat: Seq<char>,
)
    requires
        tree.dom().finite(),
        tree.dom().contains(root),
        traverse(tree, seq![root], Set::empty()) is Complete,
    ensures
        ({
            let vs = traversal_entries(traverse(tree, seq![root], Set::empty()));
            &&& vs.len() >= tree[root].len()
            &&& vs.take(tree[root].len() as int) == tree[root]
            &&& matched_results(vs, pat) == matched_results(tree[root], pat) + matched_results(
                vs.skip(tree[root].len() as int),
                pat,
            )
        }),
{
    let es = tree[root];
    let q2 = seq![root].drop_first() + dir_paths(es);
    let rest = traversal_entries(traverse(tree, q2, Set::empty().insert(root)));
    let vs = traversal_entries(traverse(tree, seq![root], Set::empty()));
    assert(vs == es + rest);
    assert(vs.take(es.len() as int) =~= es);
    assert(vs.skip(es.len() as int) =~= rest);
    lemma_matched_append(es, rest, pat);
}

/// `e` is an entry of some readable directory not yet visited.
pub open spec fn entry_from_unvisited(
    tree: Map<Seq<char>, Seq<EntryModel>>,
    visited: Set<Seq<char>>,
    e: EntryModel,
) -> bool {
    exists|p: Seq<char>|
        #[trigger] tree.dom().contains(p) && !visited.contains(p) && tree[p].contains(e)
}

/// Every entry of the listing of `p` occurs in `vs`.
pub open spec fn listing_in(
    tree: Map<Seq<char>, Seq<EntryModel>>,
    p: Seq<char>,
    vs: Seq<EntryModel>,
) -> bool {
    forall|j: int| 0 <= j < tree[p].len() ==> vs.contains(#[trigger] tree[p][j])
}

/// In a well-formed tree, a completed traversal that starts with nothing
/// visited never visits two entries with the same path: no entry is
/// reported twice, whatever its depth.
proof fn lemma_visited_paths_distinct(
    tree: Map<Seq<char>, Seq<EntryModel>>,
    queue: Seq<Seq<char>>,
    visited: Set<Seq<char>>,
)
    requires
        tree.dom().finite(),
        tree_wf(tree),
    ensures
        traverse(tree, queue, visited) is Complete ==> {
            let vs = traversal_entries(traverse(tree, queue, visited));
            &&& forall|k1: int, k2: int|
                0 <= k1 < k2 < vs.len() ==> (#[trigger] vs[k1]).path != (#[trigger] vs[k2]).path
            &&& forall|k: int|
                0 <= k < vs.len() ==> entry_from_unvisited(tree, visited, #[trigger] vs[k])
        },
    decreases tree.dom().difference(visited).len(), queue.len(),
{
    if queue.len() == 0 {
    } else if visited.contains(queue[0]) {
        lemma_visited_paths_distinct(tree, queue.drop_first(), visited);
    } else if !tree.dom().contains(queue[0]) {
    } else {
        let p0 = queue[0];
        let es = tree[p0];
        let q2 = queue.drop_first() + dir_paths(es);
        let vis2 = visited.insert(p0);
        tree.dom().lemma_set_insert_diff_decreases(visited, p0);
        lemma_visited_paths_distinct(tree, q2, vis2);
        if traverse(tree, queue, visited) is Complete {
            let vs = traversal_entries(traverse(tree, queue, visited));
            let rest = traversal_entries(traverse(tree, q2, vis2));
            assert(vs == es + rest);
            assert forall|k: int|
                0 <= k < vs.len() implies entry_from_unvisited(tree, visited, #[trigger] vs[k]) by {
                if k < es.len() {
                    assert(tree.dom().contains(p0) && !visited.contains(p0) && tree[p0].contains(
                        vs[k],
                    ));
                } else {
                    assert(entry_from_unvisited(tree, vis2, rest[k - es.len()]));
                    let p = choose|p: Seq<char>|
                        #[trigger] tree.dom().contains(p) && !vis2.contains(p) && tree[p].contains(
                            rest[k - es.len()],
                        );
                    assert(tree.dom().contains(p) && !visited.contains(p) && tree[p].contains(
                        vs[k],
                    ));
                }
            }
            assert forall|k1: int, k2: int|
                0 <= k1 < k2 < vs.len() implies (#[trigger] vs[k1]).path != (
            #[trigger] vs[k2]).path by {
                if k2 < es.len() {
                    assert(tree[p0][k1].path != tree[p0][k2].path);
                } else if k1 >= es.len() {
                    assert(rest[k1 - es.len()].path != rest[k2 - es.len()].path);
                } else {
                    let e2 = rest[k2 - es.len()];
                    assert(entry_from_unvisited(tree, vis2, e2));
                    let p = choose|p: Seq<char>|
                        #[trigger] tree.dom().contains(p) && !vis2.contains(p) && tree[p].contains(
                            e2,
                        );
                    let i2 = choose|i2: int| 0 <= i2 < tree[p].len() && tree[p][i2] == e2;
                    assert(p != p0);
                    assert(tree[p0][k1].path != tree[p][i2].path);
                }
            }
        }
    }
}

/// The matches of a path-distinct listing sequence have pairwise-distinct
/// paths, and each is the match of some entry of the sequence.
proof fn lemma_matched_paths_distinct(s: Seq<EntryModel>, pat: Seq<char>)
    requires
        forall|i: int, j: int|
            0 <= i < j < s.len() ==> (#[trigger] s[i]).path != (#[trigger] s[j]).path,
    ensures
        ({
            let ms = matched_results(s, pat);
            &&& forall|i: int, j: int|
                0 <= i < j < ms.len() ==> (#[trigger] ms[i]).path != (#[trigger] ms[j]).path
            &&& forall|i: int|
                0 <= i < ms.len() ==> exists|k: int|
                    0 <= k < s.len() && #[trigger] ms[i] == result_of(s[k])
        }),
    decreases s.len(),
{
    let ms = matched_results(s, pat);
    if s.len() == 0 {
        reveal(Seq::filter);
        assert(ms.len() == 0);
    } else {
        let sd = s.drop_last();
        let e = s.last();
        lemma_matched_paths_distinct(sd, pat);
        let msd = matched_results(sd, pat);
        lemma_matched_push(sd, e, pat);
        assert(sd.push(e) =~= s);
        if matches_name(e.name, pat) {
            assert(ms == msd.push(result_of(e)));
            assert forall|i: int, j: int|
                0 <= i < j < ms.len() implies (#[trigger] ms[i]).path != (#[trigger] ms[j]).path by {
                if j == ms.len() - 1 {
                    let k = choose|k: int| 0 <= k < sd.len() && #[trigger] msd[i] == result_of(sd[k]);
                    assert(s[k].path != s[s.len() - 1].path);
                }
            }
            assert forall|i: int|
                0 <= i < ms.len() implies exists|k: int|
                0 <= k < s.len() && #[trigger] ms[i] == result_of(s[k]) by {
                if i == ms.len() - 1 {
                    assert(ms[i] == result_of(s[s.len() - 1]));
                } else {
                    let k = choose|k: int| 0 <= k < sd.len() && #[trigger] msd[i] == result_of(sd[k]);
                    assert(ms[i] == result_of(s[k]));
                }
            }
        } else {
            assert(ms == msd);
            assert forall|i: int|
                0 <= i < ms.len() implies exists|k: int|
                0 <= k < s.len() && #[trigger] ms[i] == result_of(s[k]) by {
                let k = choose|k: int| 0 <= k < sd.len() && #[trigger] msd[i] == result_of(sd[k]);
                assert(ms[i] == result_of(s[k]));
            }
        }
    }
}

/// Each matching entry of a well-formed tree is reported exactly once by a
/// completed search, whatever its depth: its match is among the results,
/// and no two results share a path.
pub proof fn lemma_match_reported_exactly_once(
    tree: Map<Seq<char>, Seq<EntryModel>>,
    root: Seq<char>,
    pat: Seq<char>,
    k: int,
)
    requires
        tree.dom().finite(),
        tree_wf(tree),
        traverse(tree, seq![root], Set::empty()) is Complete,
        0 <= k < traversal_entries(traverse(tree, seq![root], Set::empty())).len(),
        matches_name(traversal_entries(traverse(tree, seq![root], Set::empty()))[k].name, pat),
    ensures
        ({
            let vs = traversal_entries(traverse(tree, seq![root], Set::empty()));
            let rs = crate::model::reported_results(search_outcome(tree, root, pat));
            &&& rs.contains(result_of(vs[k]))
            &&& forall|i: int, j: int|
                0 <= i < j < rs.len() ==> (#[trigger] rs[i]).path != (#[trigger] rs[j]).path
        }),
{
    broadcast use vstd::seq_lib::group_filter_ensures;

    let vs = traversal_entries(traverse(tree, seq![root], Set::empty()));
    let rs = crate::model::reported_results(search_outcome(tree, root, pat));
    let pred = |e: EntryModel| matches_name(e.name, pat);
    lemma_visited_paths_distinct(tree, seq![root], Set::empty());
    lemma_matched_paths_distinct(vs, pat);
    assert(vs.filter(pred).contains(vs[k]));
    let j = choose|j: int| 0 <= j < vs.filter(pred).len() && vs.filter(pred)[j] == vs[k];
    assert(rs[j] == result_of(vs[k]));
}

/// A completed traversal found every pending and discovered directory
/// readable or already visited: reaching one unreadable directory forces
/// the whole search to fail, reporting no results.
proof fn lemma_visited_dirs_readable(
    tree: Map<Seq<char>, Seq<EntryModel>>,
    queue: Seq<Seq<char>>,
    visited: Set<Seq<char>>,
)
    requires
        tree.dom().finite(),
    ensures
        traverse(tree, queue, visited) is Complete ==> {
            let vs = traversal_entries(traverse(tree, queue, visited));
            &&& forall|i: int|
                0 <= i < queue.len() ==> tree.dom().contains(#[trigger] queue[i])
                    || visited.contains(queue[i])
            &&& forall|k: int|
                0 <= k < vs.len() && (#[trigger] vs[k]).is_dir ==> tree.dom().contains(vs[k].path)
                    || visited.contains(vs[k].path)
        },
    decreases tree.dom().difference(visited).len(), queue.len(),
{
    if queue.len() == 0 {
    } else if visited.contains(queue[0]) {
        lemma_visited_dirs_readable(tree, queue.drop_first(), visited);
        if traverse(tree, queue, visited) is Complete {
            assert forall|i: int|
                0 <= i < queue.len() implies tree.dom().contains(#[trigger] queue[i])
                || visited.contains(queue[i]) by {
                if i > 0 {
                    assert(queue.drop_first()[i - 1] == queue[i]);
                }
            }
        }
    } else if !tree.dom().contains(queue[0]) {
    } else {
        let p0 = queue[0];
        let es = tree[p0];
        let q2 = queue.drop_first() + dir_paths(es);
        let vis2 = visited.insert(p0);
        tree.dom().lemma_set_insert_diff_decreases(visited, p0);
        lemma_visited_dirs_readable(tree, q2, vis2);
        if traverse(tree, queue, visited) is Complete {
            let vs = traversal_entries(traverse(tree, queue, visited));
            let rest = traversal_entries(traverse(tree, q2, vis2));
            assert(vs == es + rest);
            assert forall|i: int|
                0 <= i < queue.len() implies tree.dom().contains(#[trigger] queue[i])
                || visited.contains(queue[i]) by {
                if i > 0 {
                    assert(q2[i - 1] == queue[i]);
                    assert(tree.dom().contains(q2[i - 1]) || vis2.contains(q2[i - 1]));
                }
            }
            assert forall|k: int|
                0 <= k < vs.len() && (#[trigger] vs[k]).is_dir implies tree.dom().contains(
                vs[k].path,
            ) || visited.contains(vs[k].path) by {
                if k < es.len() {
                    lemma_dir_paths_contains(es, k);
                    let m = choose|m: int|
                        0 <= m < dir_paths(es).len() && dir_paths(es)[m] == es[k].path;
                    assert(q2[queue.drop_first().len() + m] == es[k].path);
                    assert(tree.dom().contains(es[k].path) || vis2.contains(es[k].path));
                } else {
                    assert(rest[k - es.len()].is_dir);
                    assert(tree.dom().contains(rest[k - es.len()].path) || vis2.contains(
                        rest[k - es.len()].path,
                    ));
                }
            }
        }
    }
}

/// A directory entry a completed search visited was readable: had it been
/// unreadable, the search would have failed instead, with no results.
pub proof fn lemma_visited_dir_was_readable(
    tree: Map<Seq<char>, Seq<EntryModel>>,
    root: Seq<char>,
    k: int,
)
    requires
        tree.dom().finite(),
        traverse(tree, seq![root], Set::empty()) is Complete,
        0 <= k < traversal_entries(traverse(tree, seq![root], Set::empty())).len(),
        traversal_entries(traverse(tree, seq![root], Set::empty()))[k].is_dir,
    ensures
        tree.dom().contains(traversal_entries(traverse(tree, seq![root], Set::empty()))[k].path),
{
    lemma_visited_dirs_readable(tree, seq![root], Set::empty());
}

/// Every readable directory that a completed traversal had pending or
/// discovered was expanded: its whole listing is among the visited entries.
proof fn lemma_discovered_dirs_expanded(
    tree: Map<Seq<char>, Seq<EntryModel>>,
    queue: Seq<Seq<char>>,
    visited: Set<Seq<char>>,
)
    requires
        tree.dom().finite(),
    ensures
        traverse(tree, queue, visited) is Complete ==> {
            let vs = traversal_entries(traverse(tree, queue, visited));
            &&& forall|i: int|
                0 <= i < queue.len() && tree.dom().contains(#[trigger] queue[i])
                    && !visited.contains(queue[i]) ==> listing_in(tree, queue[i], vs)
            &&& forall|k: int|
                0 <= k < vs.len() && (#[trigger] vs[k]).is_dir && tree.dom().contains(vs[k].path)
                    && !visited.contains(vs[k].path) ==> listing_in(tree, vs[k].path, vs)
        },
    decreases tree.dom().difference(visited).len(), queue.len(),
{
    if queue.len() == 0 {
    } else if visited.contains(queue[0]) {
        lemma_discovered_dirs_expanded(tree, queue.drop_first(), visited);
        if traverse(tree, queue, visited) is Complete {
            let vs = traversal_entries(traverse(tree, queue, visited));
            assert forall|i: int|
                0 <= i < queue.len() && tree.dom().contains(#[trigger] queue[i])
                    && !visited.contains(queue[i]) implies listing_in(tree, queue[i], vs) by {
                assert(i > 0);
                assert(queue.drop_first()[i - 1] == queue[i]);
            }
        }
    } else if !tree.dom().contains(queue[0]) {
    } else {
        let p0 = queue[0];
        let es = tree[p0];
        let q2 = queue.drop_first() + dir_paths(es);
        let vis2 = visited.insert(p0);
        tree.dom().lemma_set_insert_diff_decreases(visited, p0);
        lemma_discovered_dirs_expanded(tree, q2, vis2);
        if traverse(tree, queue, visited) is Complete {
            let vs = traversal_entries(traverse(tree, queue, visited));
            let rest = traversal_entries(traverse(tree, q2, vis2));
            assert(vs == es + rest);
            assert forall|x: Seq<char>| #[trigger] listing_in(tree, x, rest) implies listing_in(
                tree,
                x,
                vs,
            ) by {
                assert forall|j: int| 0 <= j < tree[x].len() implies vs.contains(
                    #[trigger] tree[x][j],
                ) by {
                    assert(rest.contains(tree[x][j]));
                    let m = choose|m: int| 0 <= m < rest.len() && rest[m] == tree[x][j];
                    assert(vs[es.len() + m] == tree[x][j]);
                }
            }
            assert(listing_in(tree, p0, vs)) by {
                assert forall|j: int| 0 <= j < tree[p0].len() implies vs.contains(
                    #[trigger] tree[p0][j],
                ) by {
                    assert(vs[j] == es[j]);
                }
            }
            assert forall|i: int|
                0 <= i < queue.len() && tree.dom().contains(#[trigger] queue[i])
                    && !visited.contains(queue[i]) implies listing_in(tree, queue[i], vs) by {
                if queue[i] == p0 {
                } else {
                    assert(i > 0);
                    assert(q2[i - 1] == queue[i]);
                    assert(listing_in(tree, queue[i], rest));
                }
            }
            assert forall|k: int|
                0 <= k < vs.len() && (#[trigger] vs[k]).is_dir && tree.dom().contains(vs[k].path)
                    && !visited.contains(vs[k].path) implies listing_in(tree, vs[k].path, vs) by {
                if vs[k].path == p0 {
                } else if k < es.len() {
                    lemma_dir_paths_contains(es, k);
                    let m = choose|m: int|
                        0 <= m < dir_paths(es).len() && dir_paths(es)[m] == es[k].path;
                    assert(q2[queue.drop_first().len() + m] == es[k].path);
                    assert(listing_in(tree, vs[k].path, rest));
                } else {
                    assert(rest[k - es.len()] == vs[k]);
                    assert(listing_in(tree, vs[k].path, rest));
                }
            }
        }
    }
}

/// A directory whose name matches is both reported and still expanded: its
/// match is among the results, and every entry of its listing was visited
/// (and so tested) too.
pub proof fn lemma_matching_dir_reported_and_expanded(
    tree: Map<Seq<char>, Seq<EntryModel>>,
    root: Seq<char>,
    pat: Seq<char>,
    k: int,
)
    requires
        tree.dom().finite(),
        traverse(tree, seq![root], Set::empty()) is Complete,
        0 <= k < traversal_entries(traverse(tree, seq![root], Set::empty())).len(),
        traversal_entries(traverse(tree, seq![root], Set::empty()))[k].is_dir,
        matches_name(traversal_entries(traverse(tree, seq![root], Set::empty()))[k].name, pat),
    ensures
        ({
            let vs = traversal_entries(traverse(tree, seq![root], Set::empty()));
            let rs = crate::model::reported_results(search_outcome(tree, root, pat));
            &&& rs.contains(result_of(vs[k]))
            &&& listing_in(tree, vs[k].path, vs)
        }),
{
    broadcast use vstd::seq_lib::group_filter_ensures;

    let vs = traversal_entries(traverse(tree, seq![root], Set::empty()));
    let rs = crate::model::reported_results(search_outcome(tree, root, pat));
    let pred = |e: EntryModel| matches_name(e.name, pat);
    lemma_visited_dir_was_readable(tree, root, k);
    lemma_discovered_dirs_expanded(tree, seq![root], Set::empty());
    assert(vs.filter(pred).contains(vs[k]));
    let j = choose|j: int| 0 <= j < vs.filter(pred).len() && vs.filter(pred)[j] == vs[k];
    assert(rs[j] == result_of(vs[k]));
}

} // verus!
