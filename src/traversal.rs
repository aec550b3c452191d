use vstd::prelude::*;
use crate::folder::{is_large_dir, CacheFolderInfo};
use crate::pattern::{is_cache_path, is_cache_path_spec};

verus! {

/// An entry of a directory listing, with the total size measured under it.
pub struct DirChild {
    pub path: String,
    pub size: u64,
}

impl DirChild {
    pub fn new(path: String, size: u64) -> (r: DirChild)
        ensures
            r.path@ == path@,
            r.size == size,
    {
        DirChild { path, size }
    }

    pub open spec fn view_pair(&self) -> (Seq<char>, u64) {
        (self.path@, self.size)
    }
}

/// What the caller must do next for the search to go on.
pub enum Step {
    /// The path names a cache: measure it and hand the size to `record_match`.
    Measure(String),
    /// The path does not name a cache: list it, measure each entry, and hand
    /// the entries to `push_children_to_stack`. An unreadable directory is
    /// simply dropped.
    Expand(String),
    /// Nothing is left to visit.
    Done,
}

/// The search at one moment, as mathematical values.
pub struct TraversalView {
    pub stack: Seq<Seq<char>>,
    pub folders: Seq<(Seq<char>, u64)>,
    pub pending: Option<Seq<char>>,
    pub admitted: Seq<(Seq<char>, u64)>,
    pub threshold: u64,
    pub pattern: Seq<char>,
}

/// The step handed out for a path, as a mathematical value.
pub enum StepView {
    Measure(Seq<char>),
    Expand(Seq<char>),
    Done,
}

impl Step {
    pub open spec fn view(&self) -> StepView {
        match self {
            Step::Measure(p) => StepView::Measure(p@),
            Step::Expand(p) => StepView::Expand(p@),
            Step::Done => StepView::Done,
        }
    }
}

/// The entries of a listing that are large enough to be visited, in order.
pub open spec fn large_children(children: Seq<(Seq<char>, u64)>, threshold: u64) -> Seq<(Seq<char>, u64)>
    decreases children.len(),
{
    if children.len() == 0 {
        Seq::empty()
    } else {
        let rest = large_children(children.drop_last(), threshold);
        if children.last().1 > threshold {
            rest.push(children.last())
        } else {
            rest
        }
    }
}

pub open spec fn path_of(c: (Seq<char>, u64)) -> Seq<char> {
    c.0
}

/// The search after a listing has been handed in: its large entries go on
/// top of the stack, in listing order.
pub open spec fn after_push(v: TraversalView, children: Seq<(Seq<char>, u64)>) -> TraversalView {
    let large = large_children(children, v.threshold);
    TraversalView {
        stack: v.stack + large.map_values(|c: (Seq<char>, u64)| path_of(c)),
        admitted: v.admitted + large,
        ..v
    }
}

/// The search after the next path is taken off the stack, with the step
/// handed out for it.
pub open spec fn after_step(v: TraversalView) -> (TraversalView, StepView) {
    if v.stack.len() == 0 {
        (v, StepView::Done)
    } else {
        let p = v.stack.last();
        let rest = TraversalView { stack: v.stack.drop_last(), ..v };
        if is_cache_path_spec(p, v.pattern) {
            (TraversalView { pending: Some(p), ..rest }, StepView::Measure(p))
        } else {
            (TraversalView { pending: None, ..rest }, StepView::Expand(p))
        }
    }
}

/// The search after the size of the path last handed out to be measured is
/// known.
pub open spec fn after_record(v: TraversalView, size: u64) -> TraversalView {
    match v.pending {
        Some(p) => TraversalView { folders: v.folders.push((p, size)), pending: None, ..v },
        None => v,
    }
}

/// `p` was pushed on the stack at some point.
pub open spec fn was_admitted(v: TraversalView, p: Seq<char>) -> bool {
    exists|k: int| 0 <= k < v.admitted.len() && #[trigger] v.admitted[k].0 == p
}

/// What holds of every state of the search: every path ever pushed was large,
/// every path still to visit or already reported was pushed, and every
/// reported path names a cache.
pub open spec fn traversal_wf(v: TraversalView) -> bool {
    &&& forall|k: int| 0 <= k < v.admitted.len() ==> #[trigger] v.admitted[k].1 > v.threshold
    &&& forall|i: int| 0 <= i < v.stack.len() ==> was_admitted(v, #[trigger] v.stack[i])
    &&& forall|i: int|
        0 <= i < v.folders.len() ==> was_admitted(v, #[trigger] v.folders[i].0)
            && is_cache_path_spec(v.folders[i].0, v.pattern)
    &&& (v.pending matches Some(p) ==> was_admitted(v, p) && is_cache_path_spec(p, v.pattern))
}

/// Every entry kept from a listing is one of its entries above the threshold.
pub(crate) proof fn lemma_large_children_come_from_listing(children: Seq<(Seq<char>, u64)>, threshold: u64, k: int)
    requires
        0 <= k < large_children(children, threshold).len(),
    ensures
        exists|m: int|
            0 <= m < children.len() && #[trigger] children[m] == large_children(children, threshold)[k]
                && children[m].1 > threshold,
    decreases children.len(),
{
    let rest = large_children(children.drop_last(), threshold);
    if k < rest.len() {
        lemma_large_children_come_from_listing(children.drop_last(), threshold, k);
        let m = choose|m: int|
            0 <= m < children.drop_last().len() && #[trigger] children.drop_last()[m] == rest[k]
                && children.drop_last()[m].1 > threshold;
        assert(children[m] == children.drop_last()[m]);
    } else {
        assert(children[children.len() - 1] == large_children(children, threshold)[k]);
    }
}

pub(crate) proof fn lemma_push_keeps_wf(v: TraversalView, children: Seq<(Seq<char>, u64)>)
    requires
        traversal_wf(v),
    ensures
        traversal_wf(after_push(v, children)),
{
    let w = after_push(v, children);
    let large = large_children(children, v.threshold);
    let n = v.admitted.len();
    assert forall|k: int| 0 <= k < w.admitted.len() implies #[trigger] w.admitted[k].1 > w.threshold by {
        if k >= n {
            assert(w.admitted[k] == large[k - n]);
            lemma_large_children_come_from_listing(children, v.threshold, k - n);
        }
    }
    assert forall|i: int| 0 <= i < w.stack.len() implies was_admitted(w, #[trigger] w.stack[i]) by {
        if i < v.stack.len() {
            assert(w.stack[i] == v.stack[i]);
            assert(was_admitted(v, v.stack[i]));
            let k = choose|k: int| 0 <= k < v.admitted.len() && #[trigger] v.admitted[k].0 == v.stack[i];
            assert(w.admitted[k] == v.admitted[k]);
        } else {
            let k = i - v.stack.len();
            assert(w.stack[i] == large[k].0);
            assert(w.admitted[n + k] == large[k]);
        }
    }
    assert forall|i: int| 0 <= i < w.folders.len() implies was_admitted(w, #[trigger] w.folders[i].0)
        && is_cache_path_spec(w.folders[i].0, w.pattern) by {
        assert(was_admitted(v, v.folders[i].0));
        let k = choose|k: int| 0 <= k < v.admitted.len() && #[trigger] v.admitted[k].0 == v.folders[i].0;
        assert(w.admitted[k] == v.admitted[k]);
    }
    if let Some(p) = v.pending {
        let k = choose|k: int| 0 <= k < v.admitted.len() && #[trigger] v.admitted[k].0 == p;
        assert(w.admitted[k] == v.admitted[k]);
    }
}

proof fn lemma_same_admitted(a: TraversalView, b: TraversalView, p: Seq<char>)
    requires
        a.admitted == b.admitted,
    ensures
        was_admitted(a, p) == was_admitted(b, p),
{
    if was_admitted(a, p) {
        let k = choose|k: int| 0 <= k < a.admitted.len() && #[trigger] a.admitted[k].0 == p;
        assert(b.admitted[k].0 == p);
    }
    if was_admitted(b, p) {
        let k = choose|k: int| 0 <= k < b.admitted.len() && #[trigger] b.admitted[k].0 == p;
        assert(a.admitted[k].0 == p);
    }
}

pub(crate) proof fn lemma_step_keeps_wf(v: TraversalView)
    requires
        traversal_wf(v),
    ensures
        traversal_wf(after_step(v).0),
{
    if v.stack.len() > 0 {
        let w = after_step(v).0;
        assert(was_admitted(v, v.stack[v.stack.len() - 1]));
        lemma_same_admitted(v, w, v.stack[v.stack.len() - 1]);
        if let Some(p) = v.pending {
            lemma_same_admitted(v, w, p);
        }
        assert forall|i: int| 0 <= i < w.folders.len() implies was_admitted(w, #[trigger] w.folders[i].0) by {
            assert(was_admitted(v, v.folders[i].0));
            lemma_same_admitted(v, w, v.folders[i].0);
        }
        assert forall|i: int| 0 <= i < w.stack.len() implies was_admitted(w, #[trigger] w.stack[i]) by {
            assert(w.stack[i] == v.stack[i]);
            assert(was_admitted(v, v.stack[i]));
            lemma_same_admitted(v, w, v.stack[i]);
        }
    }
}

pub(crate) proof fn lemma_record_keeps_wf(v: TraversalView, size: u64)
    requires
        traversal_wf(v),
    ensures
        traversal_wf(after_record(v, size)),
{
    if let Some(p) = v.pending {
        let w = after_record(v, size);
        assert forall|i: int| 0 <= i < w.stack.len() implies was_admitted(w, #[trigger] w.stack[i]) by {
            assert(was_admitted(v, v.stack[i]));
            lemma_same_admitted(v, w, v.stack[i]);
        }
        assert forall|i: int| 0 <= i < w.folders.len() implies was_admitted(w, #[trigger] w.folders[i].0)
            && is_cache_path_spec(w.folders[i].0, w.pattern) by {
            if i < v.folders.len() {
                assert(w.folders[i] == v.folders[i]);
                lemma_same_admitted(v, w, v.folders[i].0);
            } else {
                assert(w.folders[i] == (p, size));
                lemma_same_admitted(v, w, p);
            }
        }
    }
}

/// The result of a finished search.
pub struct CacheSearchingResult {
    pub folders: Vec<CacheFolderInfo>,
    /// How many paths the work stack had room for at the end: a diagnostic.
    pub stack_capacity: usize,
}

/// An iterative depth-first search for large cache directories. The caller
/// does the filesystem work that each `Step` asks for.
pub struct CacheTraversal {
    stack: Vec<String>,
    folders: Vec<CacheFolderInfo>,
    pending: Option<String>,
    admitted: Ghost<Seq<(Seq<char>, u64)>>,
    threshold: u64,
    pattern: String,
}

/// Relies on `Vec::capacity`: the room the vector has allocated, which is
/// never less than its length.
#[verifier::external_body]
fn stack_capacity_of(v: &Vec<String>) -> (r: usize)
    ensures
        r >= v@.len(),
{
    v.capacity()
}

impl View for CacheTraversal {
    type V = TraversalView;

    closed spec fn view(&self) -> TraversalView {
        TraversalView {
            stack: self.stack@.map_values(|s: String| s@),
            folders: self.folders@.map_values(|f: CacheFolderInfo| f.view_pair()),
            pending: match self.pending {
                Some(p) => Some(p@),
                None => None,
            },
            admitted: self.admitted@,
            threshold: self.threshold,
            pattern: self.pattern@,
        }
    }
}

impl CacheTraversal {
    /// An empty search: nothing to visit, nothing found.
    pub fn new(threshold: u64, pattern: &str) -> (r: CacheTraversal)
        ensures
            r@.stack.len() == 0,
            r@.folders.len() == 0,
            r@.pending is None,
            r@.admitted.len() == 0,
            r@.threshold == threshold,
            r@.pattern == pattern@,
            traversal_wf(r@),
    {
        let r = CacheTraversal {
            stack: Vec::new(),
            folders: Vec::new(),
            pending: None,
            admitted: Ghost(Seq::empty()),
            threshold,
            pattern: pattern.to_string(),
        };
        assert(r@.stack =~= Seq::empty());
        assert(r@.folders =~= Seq::empty());
        r
    }

    /// Takes in the entries of a directory listing, each with its measured
    /// size; those above the threshold are pushed for a later visit and the
    /// others are dropped with everything beneath them.
    pub fn push_children_to_stack(&mut self, children: &Vec<DirChild>)
        requires
            traversal_wf(old(self)@),
        ensures
            final(self)@ == after_push(
                old(self)@,
                children@.map_values(|c: DirChild| c.view_pair()),
            ),
            traversal_wf(final(self)@),
    {
        let ghost v0 = self@;
        let ghost cs = children@.map_values(|c: DirChild| c.view_pair());
        let mut i: usize = 0;
        while i < children.len()
            invariant
                i <= children@.len(),
                cs == children@.map_values(|c: DirChild| c.view_pair()),
                traversal_wf(v0),
                traversal_wf(self@),
                self@ == after_push(v0, cs.subrange(0, i as int)),
            decreases children@.len() - i,
        {
            let c = &children[i];
            proof {
                assert(cs.subrange(0, i + 1).drop_last() =~= cs.subrange(0, i as int));
                assert(cs.subrange(0, i + 1).last() == (c.path@, c.size));
            }
            if is_large_dir(c.size, self.threshold) {
                let ghost before = self@;
                self.stack.push(c.path.clone());
                self.admitted = Ghost(self.admitted@.push((c.path@, c.size)));
                proof {
                    let large_i = large_children(cs.subrange(0, i as int), v0.threshold);
                    assert(large_children(cs.subrange(0, i + 1), v0.threshold) == large_i.push(
                        (c.path@, c.size),
                    ));
                    assert(large_i.push((c.path@, c.size)).map_values(
                        |x: (Seq<char>, u64)| path_of(x),
                    ) =~= large_i.map_values(|x: (Seq<char>, u64)| path_of(x)).push(c.path@));
                    assert(self@.stack =~= before.stack.push(c.path@));
                    assert(self@.admitted =~= before.admitted.push((c.path@, c.size)));
                    assert(self@ == after_push(v0, cs.subrange(0, i + 1)));
                    let n = before.admitted.len();
                    assert(self@.admitted[n as int].0 == c.path@);
                    assert forall|j: int| 0 <= j < self@.stack.len() implies was_admitted(
                        self@,
                        #[trigger] self@.stack[j],
                    ) by {
                        if j < before.stack.len() {
                            let k = choose|k: int|
                                0 <= k < before.admitted.len() && #[trigger] before.admitted[k].0
                                    == before.stack[j];
                            assert(self@.admitted[k] == before.admitted[k]);
                        }
                    }
                    assert forall|j: int| 0 <= j < self@.folders.len() implies was_admitted(
                        self@,
                        #[trigger] self@.folders[j].0,
                    ) by {
                        let k = choose|k: int|
                            0 <= k < before.admitted.len() && #[trigger] before.admitted[k].0
                                == before.folders[j].0;
                        assert(self@.admitted[k] == before.admitted[k]);
                    }
                    if let Some(p) = self@.pending {
                        let k = choose|k: int|
                            0 <= k < before.admitted.len() && #[trigger] before.admitted[k].0 == p;
                        assert(self@.admitted[k] == before.admitted[k]);
                    }
                }
            } else {
                proof {
                    assert(after_push(v0, cs.subrange(0, i + 1)) == after_push(
                        v0,
                        cs.subrange(0, i as int),
                    ));
                }
            }
            i = i + 1;
        }
        proof {
            assert(cs.subrange(0, i as int) =~= cs);
        }
    }
    /// Takes the next path off the stack. A path that names a cache is to be
    /// measured and recorded, and is not entered; any other is to be listed.
    pub fn next_step(&mut self) -> (r: Step)
        requires
            traversal_wf(old(self)@),
        ensures
            (final(self)@, r@) == after_step(old(self)@),
            traversal_wf(final(self)@),
            r matches Step::Measure(p) ==> was_admitted(old(self)@, p@),
            r matches Step::Expand(p) ==> was_admitted(old(self)@, p@),
    {
        let ghost v0 = self@;
        match self.stack.pop() {
            None => {
                proof {
                    assert(v0.stack.len() == 0);
                }
                Step::Done
            },
            Some(p) => {
                proof {
                    lemma_step_keeps_wf(v0);
                    assert(self@.stack =~= v0.stack.drop_last());
                    assert(p@ == v0.stack.last());
                    assert(was_admitted(v0, v0.stack[v0.stack.len() - 1]));
                }
                if is_cache_path(p.as_str(), self.pattern.as_str()) {
                    self.pending = Some(p.clone());
                    proof {
                        assert(self@ == after_step(v0).0);
                    }
                    Step::Measure(p)
                } else {
                    self.pending = None;
                    proof {
                        assert(self@ == after_step(v0).0);
                    }
                    Step::Expand(p)
                }
            },
        }
    }

    /// Records the path last handed out to be measured, with its size. Does
    /// nothing when no path waits for a size.
    pub fn record_match(&mut self, size: u64)
        requires
            traversal_wf(old(self)@),
        ensures
            final(self)@ == after_record(old(self)@, size),
            traversal_wf(final(self)@),
    {
        let ghost v0 = self@;
        proof {
            lemma_record_keeps_wf(v0, size);
        }
        match self.pending.take() {
            None => {},
            Some(p) => {
                let info = CacheFolderInfo::new(&p, size);
                self.folders.push(info);
                proof {
                    assert(self@.folders =~= v0.folders.push((p@, size)));
                    assert(self@ == after_record(v0, size));
                }
            },
        }
    }

    /// Whether the search is over: nothing is left to visit.
    pub fn is_finished(&self) -> (r: bool)
        ensures
            r == (self@.stack.len() == 0),
    {
        self.stack.len() == 0
    }

    /// Ends the search, handing back the matches in the order they were found.
    pub fn into_result(self) -> (r: CacheSearchingResult)
        ensures
            r.folders@.map_values(|f: CacheFolderInfo| f.view_pair()) == self@.folders,
            r.stack_capacity >= self@.stack.len(),
    {
        let cap = stack_capacity_of(&self.stack);
        CacheSearchingResult { folders: self.folders, stack_capacity: cap }
    }
}

} // verus!
