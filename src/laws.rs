use vstd::prelude::*;
use crate::pattern::is_cache_path_spec;
use crate::traversal::{
    after_push, after_record, after_step, large_children, lemma_large_children_come_from_listing,
    lemma_push_keeps_wf, lemma_record_keeps_wf, lemma_step_keeps_wf, traversal_wf, was_admitted,
    StepView, TraversalView,
};

verus! {

/// Pruning: an entry of a listing whose size is at or below the threshold is
/// not pushed, so neither it nor anything beneath it is ever visited from
/// this listing. The entries of one listing have distinct paths.
pub proof fn lemma_small_entry_never_pushed(v: TraversalView, children: Seq<(Seq<char>, u64)>, i: int)
    requires
        0 <= i < children.len(),
        children[i].1 <= v.threshold,
        forall|a: int, b: int|
            0 <= a < b < children.len() ==> #[trigger] children[a].0 != #[trigger] children[b].0,
    ensures
        !after_push(v, children).stack.subrange(v.stack.len() as int, after_push(v, children).stack.len() as int).contains(children[i].0),
{
    let w = after_push(v, children);
    let large = large_children(children, v.threshold);
    let added = w.stack.subrange(v.stack.len() as int, w.stack.len() as int);
    if added.contains(children[i].0) {
        let k = choose|k: int| 0 <= k < added.len() && added[k] == children[i].0;
        assert(added[k] == large[k].0);
        lemma_large_children_come_from_listing(children, v.threshold, k);
        let m = choose|m: int|
            0 <= m < children.len() && #[trigger] children[m] == large[k] && children[m].1 > v.threshold;
        if m < i {
            assert(children[m].0 != children[i].0);
        } else if i < m {
            assert(children[i].0 != children[m].0);
        }
    }
}

/// Pruning: every path the search hands out to be visited was pushed with a
/// size above the threshold.
pub proof fn lemma_visited_paths_are_large(v: TraversalView)
    requires
        traversal_wf(v),
    ensures
        match after_step(v).1 {
            StepView::Measure(p) | StepView::Expand(p) => exists|k: int|
                0 <= k < v.admitted.len() && #[trigger] v.admitted[k].0 == p && v.admitted[k].1
                    > v.threshold,
            StepView::Done => v.stack.len() == 0,
        },
{
    if v.stack.len() > 0 {
        let p = v.stack.last();
        assert(v.stack[v.stack.len() - 1] == p);
        let k = choose|k: int| 0 <= k < v.admitted.len() && #[trigger] v.admitted[k].0 == p;
        assert(v.admitted[k].1 > v.threshold);
    }
}

/// A path that names a cache is reported once, with the size measured for
/// it, and is not entered: nothing is pushed in its place.
pub proof fn lemma_cache_path_reported_once_not_entered(v: TraversalView, size: u64)
    requires
        v.stack.len() > 0,
        is_cache_path_spec(v.stack.last(), v.pattern),
    ensures
        after_step(v).1 == StepView::Measure(v.stack.last()),
        after_step(v).0.stack == v.stack.drop_last(),
        after_record(after_step(v).0, size).stack == v.stack.drop_last(),
        after_record(after_step(v).0, size).folders == v.folders.push((v.stack.last(), size)),
{
}

/// Every reported path names a cache, in every state of the search.
pub proof fn lemma_reported_paths_name_caches(v: TraversalView, i: int)
    requires
        traversal_wf(v),
        0 <= i < v.folders.len(),
    ensures
        is_cache_path_spec(v.folders[i].0, v.pattern),
{
}

/// What the caller learnt of the path last handed out.
pub enum Outcome {
    /// The directory was listed; each entry comes with its measured size.
    Listing(Seq<(Seq<char>, u64)>),
    /// The directory could not be read.
    Unreadable,
    /// The cache directory was measured.
    Measured(u64),
}

/// The search after one step and its outcome.
pub open spec fn after_outcome(v: TraversalView, o: Outcome) -> TraversalView {
    let w = after_step(v).0;
    match o {
        Outcome::Listing(c) => after_push(w, c),
        Outcome::Unreadable => w,
        Outcome::Measured(s) => after_record(w, s),
    }
}

proof fn lemma_outcome_keeps_wf(v: TraversalView, o: Outcome)
    requires
        traversal_wf(v),
    ensures
        traversal_wf(after_outcome(v, o)),
{
    lemma_step_keeps_wf(v);
    let w = after_step(v).0;
    match o {
        Outcome::Listing(c) => lemma_push_keeps_wf(w, c),
        Outcome::Unreadable => {},
        Outcome::Measured(s) => lemma_record_keeps_wf(w, s),
    }
}

/// A listing of directory entries, each with its size in the tree.
pub open spec fn measured_entries(size: Map<Seq<char>, u64>, entries: Seq<Seq<char>>) -> Seq<(Seq<char>, u64)> {
    entries.map_values(|q: Seq<char>| (q, size[q]))
}

/// What a directory tree answers to the next step of the search: `listing`
/// holds the entries of each readable directory, `size` the total size under
/// each path.
pub open spec fn tree_outcome(
    listing: Map<Seq<char>, Seq<Seq<char>>>,
    size: Map<Seq<char>, u64>,
    v: TraversalView,
) -> Outcome {
    match after_step(v).1 {
        StepView::Measure(p) => Outcome::Measured(size[p]),
        StepView::Expand(p) => if listing.contains_key(p) {
            Outcome::Listing(measured_entries(size, listing[p]))
        } else {
            Outcome::Unreadable
        },
        StepView::Done => Outcome::Unreadable,
    }
}

/// The search over a directory tree, after at most `fuel` steps.
pub open spec fn explore(
    listing: Map<Seq<char>, Seq<Seq<char>>>,
    size: Map<Seq<char>, u64>,
    v: TraversalView,
    fuel: nat,
) -> TraversalView
    decreases fuel,
{
    if fuel == 0 || v.stack.len() == 0 {
        v
    } else {
        explore(listing, size, after_outcome(v, tree_outcome(listing, size, v)), (fuel - 1) as nat)
    }
}

/// Every size the search holds is the tree's size for that path.
pub open spec fn sizes_from_tree(size: Map<Seq<char>, u64>, v: TraversalView) -> bool {
    &&& forall|k: int| 0 <= k < v.admitted.len() ==> #[trigger] v.admitted[k].1 == size[v.admitted[k].0]
    &&& forall|i: int| 0 <= i < v.folders.len() ==> #[trigger] v.folders[i].1 == size[v.folders[i].0]
}

proof fn lemma_outcome_keeps_tree_sizes(
    listing: Map<Seq<char>, Seq<Seq<char>>>,
    size: Map<Seq<char>, u64>,
    v: TraversalView,
)
    requires
        traversal_wf(v),
        sizes_from_tree(size, v),
    ensures
        sizes_from_tree(size, after_outcome(v, tree_outcome(listing, size, v))),
{
    let w = after_step(v).0;
    let o = tree_outcome(listing, size, v);
    match o {
        Outcome::Listing(c) => {
            let x = after_push(w, c);
            let large = large_children(c, w.threshold);
            let n = w.admitted.len();
            assert forall|k: int| 0 <= k < x.admitted.len() implies #[trigger] x.admitted[k].1
                == size[x.admitted[k].0] by {
                if k >= n {
                    assert(x.admitted[k] == large[k - n]);
                    lemma_large_children_come_from_listing(c, w.threshold, k - n);
                }
            }
        },
        Outcome::Unreadable => {},
        Outcome::Measured(s) => {
            let x = after_record(w, s);
            assert forall|i: int| 0 <= i < x.folders.len() implies #[trigger] x.folders[i].1
                == size[x.folders[i].0] by {
                if i < w.folders.len() {
                    assert(x.folders[i] == w.folders[i]);
                }
            }
        },
    }
}

/// Pruning over a whole tree: a directory whose size is at or below the
/// threshold is never pushed, so never visited and never reported. Where each
/// directory's size is at least that of each of its entries, the same holds of
/// all its descendants. Every reported directory is reported with the tree's
/// size for it.
pub proof fn lemma_tree_search_prunes_small(
    listing: Map<Seq<char>, Seq<Seq<char>>>,
    size: Map<Seq<char>, u64>,
    v: TraversalView,
    fuel: nat,
)
    requires
        traversal_wf(v),
        sizes_from_tree(size, v),
    ensures
        traversal_wf(explore(listing, size, v, fuel)),
        sizes_from_tree(size, explore(listing, size, v, fuel)),
        forall|d: Seq<char>|
            size[d] <= v.threshold ==> !#[trigger] was_admitted(explore(listing, size, v, fuel), d),
        forall|i: int|
            0 <= i < explore(listing, size, v, fuel).folders.len() ==> size[#[trigger] explore(
                listing,
                size,
                v,
                fuel,
            ).folders[i].0] > v.threshold,
    decreases fuel,
{
    let w = explore(listing, size, v, fuel);
    if fuel > 0 && v.stack.len() > 0 {
        let o = tree_outcome(listing, size, v);
        lemma_outcome_keeps_wf(v, o);
        lemma_outcome_keeps_tree_sizes(listing, size, v);
        lemma_tree_search_prunes_small(listing, size, after_outcome(v, o), (fuel - 1) as nat);
    }
    assert forall|d: Seq<char>| size[d] <= v.threshold implies !#[trigger] was_admitted(w, d) by {
        if was_admitted(w, d) {
            let k = choose|k: int| 0 <= k < w.admitted.len() && #[trigger] w.admitted[k].0 == d;
            assert(w.admitted[k].1 > w.threshold);
        }
    }
    assert forall|i: int| 0 <= i < w.folders.len() implies size[#[trigger] w.folders[i].0] > v.threshold by {
        assert(was_admitted(w, w.folders[i].0));
    }
}

/// Idempotence: two searches over the same unchanged tree, from the same
/// roots, report the same matches with the same sizes.
pub proof fn lemma_unchanged_tree_same_matches(
    listing: Map<Seq<char>, Seq<Seq<char>>>,
    size: Map<Seq<char>, u64>,
    v1: TraversalView,
    v2: TraversalView,
    fuel: nat,
)
    requires
        v1 == v2,
    ensures
        explore(listing, size, v1, fuel).folders.to_multiset() == explore(
            listing,
            size,
            v2,
            fuel,
        ).folders.to_multiset(),
{
}

} // verus!
