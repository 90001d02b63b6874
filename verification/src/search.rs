//! The breadth-first directory search, split from the filesystem.
//!
//! [`SearchState`] makes every decision of the traversal: which directory to
//! read next, which entries to report, which to enqueue.  The caller performs
//! the directory reads and hands each listing back, so the loop around the
//! state is free of any rule of its own.  [`search_tree`] drives the same
//! state over an in-memory [`DirTree`], which models a filesystem as the
//! listings of its readable directories.

use std::collections::VecDeque;
use vstd::prelude::*;
use crate::model::EntryModel;
use crate::model::ResultModel;
use crate::model::TraversalOutcome;
use crate::model::SearchOutcome;
use crate::model::dir_paths;
use crate::model::matched_results;
use crate::model::result_of;
use crate::model::traverse;
use crate::model::search_outcome;
use crate::text::lower_of;
use crate::text::lowercase;
use crate::text::matches_name;
use crate::text::name_matches;

verus! {

/// One entry of a directory listing, as the filesystem reports it: base
/// name, full path, and whether it is itself a directory.
pub struct DirEntry {
    pub name: String,
    pub path: String,
    pub is_dir: bool,
}

impl View for DirEntry {
    type V = EntryModel;

    open spec fn view(&self) -> EntryModel {
        EntryModel { name: self.name@, path: self.path@, is_dir: self.is_dir }
    }
}

/// One reported match of a search.
pub struct SearchResult {
    pub name: String,
    pub path: String,
    pub is_directory: bool,
}

impl View for SearchResult {
    type V = ResultModel;

    open spec fn view(&self) -> ResultModel {
        ResultModel { name: self.name@, path: self.path@, is_directory: self.is_directory }
    }
}

/// The failure of a search: the path of the first directory that could not
/// be read.
#[derive(Debug)]
pub struct SearchError {
    pub path: String,
}

impl SearchError {
    /// A human-readable description of the failure.
    pub fn message(&self) -> (r: String)
        ensures
            r@ == "cannot read directory: "@ + self.path@,
    {
        let mut r = String::from_str("cannot read directory: ");
        r.append(self.path.as_str());
        r
    }
}

/// The entry models of a listing, in listing order.
pub open spec fn entries_model(s: Seq<DirEntry>) -> Seq<EntryModel> {
    s.map_values(|e: DirEntry| e@)
}

/// The result models of a sequence of matches, in order.
pub open spec fn results_model(s: Seq<SearchResult>) -> Seq<ResultModel> {
    s.map_values(|r: SearchResult| r@)
}

/// The character sequences of a sequence of strings, in order.
pub open spec fn paths_model(s: Seq<String>) -> Seq<Seq<char>> {
    s.map_values(|p: String| p@)
}

/// `queue` without its longest prefix of already-visited paths.
pub open spec fn drop_visited(queue: Seq<Seq<char>>, visited: Set<Seq<char>>) -> Seq<Seq<char>>
    decreases queue.len(),
{
    if queue.len() == 0 {
        queue
    } else if visited.contains(queue[0]) {
        drop_visited(queue.drop_first(), visited)
    } else {
        queue
    }
}

/// Skipping the visited prefix of the queue does not change the traversal.
pub proof fn lemma_traverse_drop_visited(
    tree: Map<Seq<char>, Seq<EntryModel>>,
    queue: Seq<Seq<char>>,
    visited: Set<Seq<char>>,
)
    requires
        tree.dom().finite(),
    ensures
        traverse(tree, queue, visited) == traverse(tree, drop_visited(queue, visited), visited),
    decreases queue.len(),
{
    if queue.len() != 0 && visited.contains(queue[0]) {
        lemma_traverse_drop_visited(tree, queue.drop_first(), visited);
    }
}

/// Appending one entry extends the matches by that entry's match, if any.
pub proof fn lemma_matched_push(es: Seq<EntryModel>, e: EntryModel, pat: Seq<char>)
    ensures
        matched_results(es.push(e), pat) == if matches_name(e.name, pat) {
            matched_results(es, pat).push(result_of(e))
        } else {
            matched_results(es, pat)
        },
{
    reveal(Seq::filter);
    let pred = |x: EntryModel| matches_name(x.name, pat);
    assert(es.push(e).drop_last() =~= es);
    if pred(e) {
        assert(es.push(e).filter(pred) =~= es.filter(pred).push(e));
        assert(matched_results(es.push(e), pat) =~= matched_results(es, pat).push(result_of(e)));
    } else {
        assert(es.push(e).filter(pred) =~= es.filter(pred));
        assert(matched_results(es.push(e), pat) =~= matched_results(es, pat));
    }
}

/// Appending one entry extends the pending subdirectories by that entry's
/// path, if it is a directory.
pub proof fn lemma_dir_paths_push(es: Seq<EntryModel>, e: EntryModel)
    ensures
        dir_paths(es.push(e)) == if e.is_dir {
            dir_paths(es).push(e.path)
        } else {
            dir_paths(es)
        },
{
    reveal(Seq::filter);
    let pred = |x: EntryModel| x.is_dir;
    assert(es.push(e).drop_last() =~= es);
    if e.is_dir {
        assert(es.push(e).filter(pred) =~= es.filter(pred).push(e));
        assert(dir_paths(es.push(e)) =~= dir_paths(es).push(e.path));
    } else {
        assert(es.push(e).filter(pred) =~= es.filter(pred));
        assert(dir_paths(es.push(e)) =~= dir_paths(es));
    }
}

/// The matches of a concatenation are the concatenated matches.
pub proof fn lemma_matched_append(a: Seq<EntryModel>, b: Seq<EntryModel>, pat: Seq<char>)
    ensures
        matched_results(a + b, pat) == matched_results(a, pat) + matched_results(b, pat),
    decreases b.len(),
{
    if b.len() == 0 {
        assert(a + b =~= a);
        assert(matched_results(b, pat) =~= Seq::<ResultModel>::empty());
        assert(matched_results(a, pat) + matched_results(b, pat) =~= matched_results(a, pat));
    } else {
        lemma_matched_append(a, b.drop_last(), pat);
        assert(a + b =~= (a + b.drop_last()).push(b.last()));
        lemma_matched_push(a + b.drop_last(), b.last(), pat);
        lemma_matched_push(b.drop_last(), b.last(), pat);
        assert(b.drop_last().push(b.last()) =~= b);
        if matches_name(b.last().name, pat) {
            assert(matched_results(a, pat) + matched_results(b.drop_last(), pat).push(
                result_of(b.last()),
            ) =~= (matched_results(a, pat) + matched_results(b.drop_last(), pat)).push(
                result_of(b.last()),
            ));
        }
    }
}

/// Whether some string of `v` has the characters of `s`.
fn contains_string(v: &Vec<String>, s: &String) -> (r: bool)
    ensures
        r == paths_model(v@).contains(s@),
{
    let mut k: usize = 0;
    while k < v.len()
        invariant
            k <= v@.len(),
            forall|i: int| 0 <= i < k ==> (#[trigger] v@[i])@ != s@,
        decreases v@.len() - k,
    {
        if v[k].eq(s) {
            assert(paths_model(v@)[k as int] == s@);
            return true;
        }
        k += 1;
    }
    assert forall|i: int| 0 <= i < paths_model(v@).len() implies paths_model(v@)[i] != s@ by {
        assert(v@[i]@ != s@);
    }
    false
}

/// Pushing a string onto a sequence inserts its characters into the set of
/// character sequences.
proof fn lemma_paths_push_to_set(v: Seq<String>, x: String)
    ensures
        paths_model(v.push(x)).to_set() == paths_model(v).to_set().insert(x@),
{
    let b = paths_model(v);
    assert(paths_model(v.push(x)) =~= b.push(x@));
    assert forall|y: Seq<char>| #[trigger] b.push(x@).contains(y) implies b.contains(y) || y == x@ by {
        let i = choose|i: int| 0 <= i < b.push(x@).len() && b.push(x@)[i] == y;
        if i < b.len() {
            assert(b[i] == y);
        }
    }
    assert forall|y: Seq<char>| b.contains(y) || y == x@ implies #[trigger] b.push(x@).contains(y) by {
        if b.contains(y) {
            let i = choose|i: int| 0 <= i < b.len() && b[i] == y;
            assert(b.push(x@)[i] == y);
        } else {
            assert(b.push(x@)[b.len() as int] == y);
        }
    }
    assert(b.push(x@).to_set() =~= b.to_set().insert(x@));
}

/// The decisions of one search: the pending directory queue, the set of
/// directories already expanded, the matches found so far, and the lowered
/// search pattern.  [`Self::take_next`] yields the next directory to read;
/// the caller reads it and hands the listing to [`Self::expand`], which
/// reports the matching entries and enqueues the subdirectories.
pub struct SearchState {
    pat: String,
    queue: VecDeque<String>,
    visited: Vec<String>,
    results: Vec<SearchResult>,
}

impl SearchState {
    /// The lowered search pattern.
    pub closed spec fn pat_model(&self) -> Seq<char> {
        self.pat@
    }

    /// The pending directory paths, front first.
    pub closed spec fn queue_model(&self) -> Seq<Seq<char>> {
        paths_model(self.queue@)
    }

    /// The paths of the directories already expanded.
    pub closed spec fn visited_set(&self) -> Set<Seq<char>> {
        paths_model(self.visited@).to_set()
    }

    /// The matches found so far, in discovery order.
    pub closed spec fn results_model(&self) -> Seq<ResultModel> {
        results_model(self.results@)
    }

    /// A fresh search: the root pending, nothing visited, nothing found,
    /// and the term lowered once for every later comparison.
    pub fn new(root: String, term: &str) -> (s: SearchState)
        ensures
            s.pat_model() == lower_of(term@),
            s.queue_model() == seq![root@],
            s.visited_set() == Set::<Seq<char>>::empty(),
            s.results_model() == Seq::<ResultModel>::empty(),
    {
        let pat = lowercase(term);
        let mut queue: VecDeque<String> = VecDeque::new();
        queue.push_back(root);
        let s = SearchState { pat, queue, visited: Vec::new(), results: Vec::new() };
        proof {
            assert(s.queue_model() =~= seq![root@]);
            assert(s.visited_set() =~= Set::<Seq<char>>::empty());
            assert(s.results_model() =~= Seq::<ResultModel>::empty());
        }
        s
    }

    /// The next directory to read: the front of the queue, skipping paths
    /// already expanded, which a traversal without a visited set would list
    /// again (and, following a cyclic link, forever).  The returned path is
    /// marked visited at once.
    pub fn take_next(&mut self) -> (r: Option<String>)
        ensures
            final(self).pat_model() == old(self).pat_model(),
            final(self).results_model() == old(self).results_model(),
            match r {
                None => {
                    &&& drop_visited(old(self).queue_model(), old(self).visited_set()).len() == 0
                    &&& final(self).queue_model().len() == 0
                    &&& final(self).visited_set() == old(self).visited_set()
                },
                Some(p) => {
                    let dq = drop_visited(old(self).queue_model(), old(self).visited_set());
                    &&& dq.len() > 0
                    &&& p@ == dq[0]
                    &&& !old(self).visited_set().contains(p@)
                    &&& final(self).queue_model() == dq.drop_first()
                    &&& final(self).visited_set() == old(self).visited_set().insert(p@)
                },
            },
    {
        loop
            invariant
                self.pat@ == old(self).pat@,
                self.results@ == old(self).results@,
                self.visited@ == old(self).visited@,
                drop_visited(self.queue_model(), self.visited_set()) == drop_visited(
                    old(self).queue_model(),
                    old(self).visited_set(),
                ),
            decreases self.queue@.len(),
        {
            let ghost q_before = self.queue@;
            let popped = self.queue.pop_front();
            match popped {
                None => {
                    return None;
                },
                Some(p) => {
                    proof {
                        assert(paths_model(q_before)[0] == p@);
                        assert(paths_model(self.queue@) =~= paths_model(q_before).drop_first());
                    }
                    if contains_string(&self.visited, &p) {
                        proof {
                            assert(self.visited_set().contains(p@));
                        }
                    } else {
                        let r = p.clone();
                        proof {
                            assert(!self.visited_set().contains(p@));
                            assert(drop_visited(paths_model(q_before), self.visited_set())
                                == paths_model(q_before));
                        }
                        self.visited.push(p);
                        proof {
                            lemma_paths_push_to_set(old(self).visited@, q_before[0]);
                        }
                        return Some(r);
                    }
                },
            }
        }
    }

    /// Work one listing into the search: report each matching entry, in
    /// listing order, and enqueue each subdirectory at the back of the
    /// queue, whether or not it matched.
    pub fn expand(&mut self, entries: &Vec<DirEntry>)
        ensures
            final(self).pat_model() == old(self).pat_model(),
            final(self).visited_set() == old(self).visited_set(),
            final(self).results_model() == old(self).results_model() + matched_results(
                entries_model(entries@),
                old(self).pat_model(),
            ),
            final(self).queue_model() == old(self).queue_model() + dir_paths(
                entries_model(entries@),
            ),
    {
        let ghost es_full = entries_model(entries@);
        proof {
            assert(es_full.take(0) =~= Seq::<EntryModel>::empty());
            reveal(Seq::filter);
            assert(matched_results(es_full.take(0), self.pat@) =~= Seq::<ResultModel>::empty());
            assert(dir_paths(es_full.take(0)) =~= Seq::<Seq<char>>::empty());
            assert(results_model(self.results@) =~= results_model(old(self).results@)
                + matched_results(es_full.take(0), self.pat@));
            assert(paths_model(self.queue@) =~= paths_model(old(self).queue@) + dir_paths(
                es_full.take(0),
            ));
        }
        let mut k: usize = 0;
        while k < entries.len()
            invariant
                k <= entries@.len(),
                es_full == entries_model(entries@),
                self.pat@ == old(self).pat@,
                self.visited@ == old(self).visited@,
                results_model(self.results@) == results_model(old(self).results@)
                    + matched_results(es_full.take(k as int), self.pat@),
                paths_model(self.queue@) == paths_model(old(self).queue@) + dir_paths(
                    es_full.take(k as int),
                ),
            decreases entries@.len() - k,
        {
            let e = &entries[k];
            let ghost em = entries@[k as int]@;
            let ghost results_before = self.results@;
            let ghost queue_before = self.queue@;
            let matched = name_matches(e.name.as_str(), self.pat.as_str());
            if matched {
                self.results.push(
                    SearchResult {
                        name: e.name.clone(),
                        path: e.path.clone(),
                        is_directory: e.is_dir,
                    },
                );
                proof {
                    assert(results_model(self.results@) =~= results_model(results_before).push(
                        result_of(em),
                    ));
                }
            }
            if e.is_dir {
                self.queue.push_back(e.path.clone());
                proof {
                    assert(paths_model(self.queue@) =~= paths_model(queue_before).push(em.path));
                }
            }
            proof {
                assert(es_full.take(k as int + 1) =~= es_full.take(k as int).push(em));
                lemma_matched_push(es_full.take(k as int), em, self.pat@);
                lemma_dir_paths_push(es_full.take(k as int), em);
            }
            k += 1;
        }
        proof {
            assert(es_full.take(entries@.len() as int) =~= es_full);
        }
    }

    /// The matches found, in discovery order, giving up the search state.
    pub fn into_results(self) -> (r: Vec<SearchResult>)
        ensures
            results_model(r@) == self.results_model(),
    {
        self.results
    }
}

/// One readable directory of an in-memory filesystem model: its path and
/// its listing, in enumeration order.
pub struct DirListing {
    pub path: String,
    pub entries: Vec<DirEntry>,
}

/// An in-memory filesystem model: the listings of the readable directories.
/// A directory path it does not hold counts as unreadable.
pub struct DirTree {
    dirs: Vec<DirListing>,
}

/// The map from directory path to listing that a sequence of listings holds;
/// a later listing for the same path would shadow an earlier one.
pub open spec fn map_of(s: Seq<DirListing>) -> Map<Seq<char>, Seq<EntryModel>>
    decreases s.len(),
{
    if s.len() == 0 {
        Map::empty()
    } else {
        map_of(s.drop_last()).insert(s.last().path@, entries_model(s.last().entries@))
    }
}

/// No two listings of the sequence name the same directory path.
pub open spec fn listing_paths_distinct(s: Seq<DirListing>) -> bool {
    forall|i: int, j: int|
        0 <= i < j < s.len() ==> (#[trigger] s[i]).path@ != (#[trigger] s[j]).path@
}

proof fn lemma_map_of_finite(s: Seq<DirListing>)
    ensures
        map_of(s).dom().finite(),
    decreases s.len(),
{
    if s.len() != 0 {
        lemma_map_of_finite(s.drop_last());
    }
}

proof fn lemma_map_of_contains(s: Seq<DirListing>, q: Seq<char>)
    ensures
        map_of(s).dom().contains(q) <==> exists|i: int| 0 <= i < s.len() && (#[trigger] s[i]).path@
            == q,
    decreases s.len(),
{
    if s.len() != 0 {
        lemma_map_of_contains(s.drop_last(), q);
        if s.last().path@ == q {
            assert(s[s.len() - 1].path@ == q);
        } else if map_of(s).dom().contains(q) {
            let i = choose|i: int| 0 <= i < s.drop_last().len() && s.drop_last()[i].path@ == q;
            assert(s[i].path@ == q);
        } else if exists|i: int| 0 <= i < s.len() && (#[trigger] s[i]).path@ == q {
            let i = choose|i: int| 0 <= i < s.len() && (#[trigger] s[i]).path@ == q;
            assert(s.drop_last()[i].path@ == q);
        }
    }
}

proof fn lemma_map_of_index(s: Seq<DirListing>, i: int)
    requires
        0 <= i < s.len(),
        listing_paths_distinct(s),
    ensures
        map_of(s).dom().contains(s[i].path@),
        map_of(s)[s[i].path@] == entries_model(s[i].entries@),
    decreases s.len(),
{
    if i == s.len() - 1 {
    } else {
        lemma_map_of_index(s.drop_last(), i);
        assert(s.drop_last()[i] == s[i]);
        assert(s.last().path@ != s[i].path@);
    }
}

impl View for DirTree {
    type V = Map<Seq<char>, Seq<EntryModel>>;

    closed spec fn view(&self) -> Map<Seq<char>, Seq<EntryModel>> {
        map_of(self.dirs@)
    }
}

impl DirTree {
    /// The model never lists one directory twice.
    pub closed spec fn wf(&self) -> bool {
        listing_paths_distinct(self.dirs@)
    }

    /// An empty model: every path is unreadable.
    pub fn new() -> (t: DirTree)
        ensures
            t@ == Map::<Seq<char>, Seq<EntryModel>>::empty(),
            t.wf(),
    {
        DirTree { dirs: Vec::new() }
    }

    /// The listing of `path`, or nothing when `path` is unreadable.
    pub fn find_dir<'a>(&'a self, path: &String) -> (r: Option<&'a Vec<DirEntry>>)
        requires
            self.wf(),
        ensures
            match r {
                Some(es) => self@.dom().contains(path@) && entries_model(es@) == self@[path@],
                None => !self@.dom().contains(path@),
            },
    {
        let mut k: usize = 0;
        while k < self.dirs.len()
            invariant
                k <= self.dirs@.len(),
                self.wf(),
                forall|i: int| 0 <= i < k ==> (#[trigger] self.dirs@[i]).path@ != path@,
            decreases self.dirs@.len() - k,
        {
            if self.dirs[k].path.eq(path) {
                proof {
                    lemma_map_of_index(self.dirs@, k as int);
                }
                return Some(&self.dirs[k].entries);
            }
            k += 1;
        }
        proof {
            lemma_map_of_contains(self.dirs@, path@);
        }
        None
    }

    /// Add the listing of one directory; a path already present is left as
    /// it is, and the addition is reported.
    pub fn add_dir(&mut self, path: String, entries: Vec<DirEntry>) -> (added: bool)
        requires
            old(self).wf(),
        ensures
            final(self).wf(),
            added == !old(self)@.dom().contains(path@),
            final(self)@ == (if added {
                old(self)@.insert(path@, entries_model(entries@))
            } else {
                old(self)@
            }),
    {
        let present = self.find_dir(&path).is_some();
        if present {
            false
        } else {
            proof {
                lemma_map_of_contains(self.dirs@, path@);
            }
            self.dirs.push(DirListing { path, entries });
            proof {
                assert(self.dirs@.drop_last() =~= old(self).dirs@);
            }
            true
        }
    }
}

/// The whole search over an in-memory filesystem model: breadth-first from
/// `root`, reporting every entry whose base name contains `term`
/// case-insensitively, or failing on the first unreadable directory reached.
pub fn search_tree(tree: &DirTree, root: String, term: &str) -> (r: Result<
    Vec<SearchResult>,
    SearchError,
>)
    requires
        tree.wf(),
    ensures
        match r {
            Ok(results) => search_outcome(tree@, root@, lower_of(term@)) == (SearchOutcome::Found {
                results: results_model(results@),
            }),
            Err(e) => search_outcome(tree@, root@, lower_of(term@)) == (SearchOutcome::Failed {
                dir: e.path@,
            }),
        },
{
    let ghost tree_m = tree@;
    let ghost pat = lower_of(term@);
    let ghost root_m = root@;
    let mut st = SearchState::new(root, term);
    let ghost mut done: Seq<EntryModel> = Seq::empty();
    proof {
        lemma_map_of_finite(tree.dirs@);
        assert(matched_results(done, pat) =~= Seq::<ResultModel>::empty()) by {
            reveal(Seq::filter);
        }
        match traverse(tree_m, st.queue_model(), st.visited_set()) {
            TraversalOutcome::Complete { entries } => {
                assert(done + entries =~= entries);
            },
            TraversalOutcome::Blocked { dir } => {},
        }
    }
    loop
        invariant
            tree.wf(),
            tree@ == tree_m,
            root_m == root@,
            pat == lower_of(term@),
            tree_m.dom().finite(),
            st.pat_model() == pat,
            st.results_model() == matched_results(done, pat),
            (match traverse(tree_m, st.queue_model(), st.visited_set()) {
                TraversalOutcome::Complete { entries } => traverse(
                    tree_m,
                    seq![root_m],
                    Set::<Seq<char>>::empty(),
                ) == (TraversalOutcome::Complete { entries: done + entries }),
                TraversalOutcome::Blocked { dir } => traverse(
                    tree_m,
                    seq![root_m],
                    Set::<Seq<char>>::empty(),
                ) == (TraversalOutcome::Blocked { dir }),
            }),
        decreases tree_m.dom().difference(st.visited_set()).len(),
    {
        let ghost q_old = st.queue_model();
        let ghost vis_old = st.visited_set();
        let next = st.take_next();
        match next {
            None => {
                proof {
                    lemma_traverse_drop_visited(tree_m, q_old, vis_old);
                    assert(traverse(tree_m, q_old, vis_old) == (TraversalOutcome::Complete {
                        entries: Seq::<EntryModel>::empty(),
                    }));
                    assert(done + Seq::<EntryModel>::empty() =~= done);
                }
                return Ok(st.into_results());
            },
            Some(p) => {
                let found = tree.find_dir(&p);
                match found {
                    Some(entries) => {
                        let ghost dv = drop_visited(q_old, vis_old);
                        let ghost es_m = tree_m[p@];
                        proof {
                            lemma_traverse_drop_visited(tree_m, q_old, vis_old);
                            assert(traverse(tree_m, dv, vis_old) == (match traverse(
                                tree_m,
                                dv.drop_first() + dir_paths(es_m),
                                vis_old.insert(p@),
                            ) {
                                TraversalOutcome::Complete { entries } => (
                                TraversalOutcome::Complete { entries: es_m + entries }),
                                TraversalOutcome::Blocked { dir } => (TraversalOutcome::Blocked {
                                    dir,
                                }),
                            }));
                        }
                        st.expand(entries);
                        proof {
                            let done_old = done;
                            lemma_matched_append(done_old, es_m, pat);
                            done = done_old + es_m;
                            match traverse(tree_m, st.queue_model(), st.visited_set()) {
                                TraversalOutcome::Complete { entries } => {
                                    assert(done_old + (es_m + entries) =~= done + entries);
                                },
                                TraversalOutcome::Blocked { dir } => {},
                            }
                            tree_m.dom().lemma_set_insert_diff_decreases(vis_old, p@);
                        }
                    },
                    None => {
                        proof {
                            lemma_traverse_drop_visited(tree_m, q_old, vis_old);
                            assert(traverse(tree_m, q_old, vis_old) == (TraversalOutcome::Blocked {
                                dir: p@,
                            }));
                        }
                        return Err(SearchError { path: p });
                    },
                }
            },
        }
    }
}

} // verus!
