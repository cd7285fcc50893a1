//! The scope tree itself: an arena of scopes that are named by their index.

use vstd::prelude::*;
use crate::scope::{
    child_slot, has_child, lemma_create_child_keeps_wf, lemma_create_root_keeps_wf,
    lemma_disposed_below, lemma_disposed_hands_out_nothing, lemma_dispose_keeps_wf,
    lemma_register_cleanup_keeps_wf, lemma_sibling_subtrees_disjoint, lemma_subtree_branch,
    lemma_subtree_by_parents, lemma_subtree_not_older, lemma_subtree_transitive,
    lemma_teardown_local, lemma_wipe_keeps_shape, wiped, ScopeId,
    ScopeView, ScopesView,
};

verus! {

struct ScopeNode<C> {
    parent: Option<usize>,
    children: Vec<usize>,
    callbacks: Vec<C>,
    disposed: bool,
}

impl<C> View for ScopeNode<C> {
    type V = ScopeView<C>;

    closed spec fn view(&self) -> ScopeView<C> {
        ScopeView {
            parent: self.parent,
            children: self.children@,
            callbacks: self.callbacks@,
            disposed: self.disposed,
        }
    }
}

/// A tree of scopes. `C` is what a cleanup callback is to the caller: the
/// tree stores the callbacks and decides their order; the caller runs them.
pub struct ScopeTree<C> {
    nodes: Vec<ScopeNode<C>>,
}

impl<C> View for ScopeTree<C> {
    type V = ScopesView<C>;

    closed spec fn view(&self) -> ScopesView<C> {
        ScopesView { nodes: Seq::new(self.nodes@.len(), |i: int| self.nodes@[i]@) }
    }
}

impl<C> ScopeTree<C> {
    /// A tree without scopes.
    pub fn new() -> (t: Self)
        ensures
            t@ == ScopesView::<C>::initial(),
            t@.wf(),
    {
        let t = ScopeTree { nodes: Vec::new() };
        assert(t@.nodes =~= Seq::empty());
        t
    }

    /// The number of scopes ever created.
    pub fn scope_count(&self) -> (n: usize)
        ensures
            n == self@.len(),
    {
        self.nodes.len()
    }

    /// Whether `scope` exists and has not been disposed.
    pub fn is_live(&self, scope: ScopeId) -> (live: bool)
        ensures
            live == self@.is_live(scope.0 as int),
    {
        scope.0 < self.nodes.len() && !self.nodes[scope.0].disposed
    }

    /// The parent of `scope`: `None` for a root and for an unknown scope.
    pub fn parent(&self, scope: ScopeId) -> (p: Option<ScopeId>)
        ensures
            p == if scope.0 < self@.len() {
                match self@.nodes[scope.0 as int].parent {
                    Some(q) => Some(ScopeId(q)),
                    None => None,
                }
            } else {
                None
            },
    {
        if scope.0 < self.nodes.len() {
            match self.nodes[scope.0].parent {
                Some(q) => Some(ScopeId(q)),
                None => None,
            }
        } else {
            None
        }
    }

    /// The number of cleanup callbacks that `scope` holds.
    pub fn callback_count(&self, scope: ScopeId) -> (n: usize)
        ensures
            n == if scope.0 < self@.len() {
                self@.nodes[scope.0 as int].callbacks.len()
            } else {
                0
            },
    {
        if scope.0 < self.nodes.len() {
            self.nodes[scope.0].callbacks.len()
        } else {
            0
        }
    }

    /// The number of children attached to `scope`.
    pub fn child_count(&self, scope: ScopeId) -> (n: usize)
        ensures
            n == if scope.0 < self@.len() {
                self@.nodes[scope.0 as int].children.len()
            } else {
                0
            },
    {
        if scope.0 < self.nodes.len() {
            self.nodes[scope.0].children.len()
        } else {
            0
        }
    }

    /// Creates a scope without a parent.
    pub fn create_root(&mut self) -> (id: ScopeId)
        requires
            old(self)@.wf(),
        ensures
            final(self)@ == old(self)@.create_root(),
            final(self)@.wf(),
            id.0 == old(self)@.len(),
    {
        let id: usize = self.nodes.len();
        self.nodes.push(
            ScopeNode { parent: None, children: Vec::new(), callbacks: Vec::new(), disposed: false },
        );
        let total: usize = self.nodes.len();
        proof {
            assert(total == id + 1);
            assert(self@.nodes =~= old(self)@.create_root().nodes);
            lemma_create_root_keeps_wf(old(self)@);
        }
        ScopeId(id)
    }

    /// Creates a scope below `parent`. Returns `None`, and changes nothing,
    /// when `parent` is unknown or disposed.
    pub fn create_child(&mut self, parent: ScopeId) -> (id: Option<ScopeId>)
        requires
            old(self)@.wf(),
        ensures
            final(self)@ == old(self)@.create_child(parent.0),
            final(self)@.wf(),
            id is Some <==> old(self)@.is_live(parent.0 as int),
            id matches Some(child) ==> child.0 == old(self)@.len(),
    {
        let p: usize = parent.0;
        if p >= self.nodes.len() || self.nodes[p].disposed {
            return None;
        }
        let id: usize = self.nodes.len();
        self.nodes[p].children.push(id);
        self.nodes.push(
            ScopeNode {
                parent: Some(p),
                children: Vec::new(),
                callbacks: Vec::new(),
                disposed: false,
            },
        );
        let total: usize = self.nodes.len();
        proof {
            assert(total == id + 1);
            assert(self@.nodes =~= old(self)@.create_child(p).nodes);
            lemma_create_child_keeps_wf(old(self)@, p);
        }
        Some(ScopeId(id))
    }

    /// Adds `callback` to the cleanup callbacks of `scope`. Hands the callback
    /// back, and changes nothing, when `scope` is unknown or disposed.
    pub fn register_cleanup(&mut self, scope: ScopeId, callback: C) -> (r: Result<(), C>)
        requires
            old(self)@.wf(),
        ensures
            final(self)@ == old(self)@.register_cleanup(scope.0 as int, callback),
            final(self)@.wf(),
            r == if old(self)@.is_live(scope.0 as int) {
                Ok::<(), C>(())
            } else {
                Err::<(), C>(callback)
            },
    {
        let id: usize = scope.0;
        if id >= self.nodes.len() || self.nodes[id].disposed {
            return Err(callback);
        }
        self.nodes[id].callbacks.push(callback);
        proof {
            assert(self@.nodes =~= old(self)@.register_cleanup(id as int, callback).nodes);
            lemma_register_cleanup_keeps_wf(old(self)@, id as int, callback);
        }
        Ok(())
    }

    /// Wipes the subtree of `id` and appends to `out` what it hands out.
    fn wipe(&mut self, id: usize, out: &mut Vec<C>)
        requires
            old(self)@.shape(),
            id < old(self)@.len(),
        ensures
            final(self)@ == old(self)@.wipe(id as int),
            final(self)@.shape(),
            final(out)@ == old(out)@ + old(self)@.teardown(id as int),
        decreases old(self)@.len() - id,
    {
        let ghost before = self@;
        let ghost out0 = out@;
        let n: usize = self.nodes[id].children.len();
        let mut k: usize = 0;
        while k < n
            invariant
                before.shape(),
                id < before.len(),
                k <= n,
                n == before.nodes[id as int].children.len(),
                before.wiped_to(self@, |x: int| before.in_first_subtrees(id as int, k as int, x)),
                self@.len() == before.len(),
                before.len() == old(self)@.len(),
                self@.shape(),
                out@ == out0 + before.teardown_children(id as int, k as int),
            decreases n - k,
        {
            let ghost prior = self@;
            proof {
                Self::lemma_root_stays(before, id as int, k as int);
                assert(prior.nodes[id as int] == before.nodes[id as int]);
            }
            let c: usize = self.nodes[id].children[k];
            proof {
                assert(c == before.nodes[id as int].children[k as int]);
                assert(id < c < before.len() && before.parent_is(c as int, id as int));
            }
            self.wipe(c, out);
            proof {
                let gone = |x: int| before.in_first_subtrees(id as int, k as int, x);
                let gone_next = |x: int| before.in_first_subtrees(id as int, k + 1, x);
                assert forall|x: int| 0 <= x < before.len() implies #[trigger] self@.nodes[x]
                    == if gone_next(x) {
                    wiped(before.nodes[x])
                } else {
                    before.nodes[x]
                } by {
                    lemma_subtree_by_parents(prior, before, c as int, x);
                    Self::lemma_first_subtrees_step(before, id as int, k as int, x);
                    assert(prior.nodes[x] == if gone(x) {
                        wiped(before.nodes[x])
                    } else {
                        before.nodes[x]
                    });
                }
                assert forall|x: int| before.in_subtree(c as int, x) implies #[trigger] before.nodes[x]
                    == prior.nodes[x] by {
                    lemma_subtree_not_older(before, c as int, x);
                    if before.in_first_subtrees(id as int, k as int, x) {
                        let j = choose|j: int|
                            0 <= j < k && j < before.nodes[id as int].children.len()
                                && before.in_subtree(
                                #[trigger] before.nodes[id as int].children[j] as int,
                                x,
                            );
                        let d = before.nodes[id as int].children[j];
                        assert(id < d < before.len() && before.parent_is(d as int, id as int));
                        assert(before.nodes[id as int].children[j] < before.nodes[id as int].children[k as int]);
                        lemma_sibling_subtrees_disjoint(before, id as int, d as int, c as int, x);
                    }
                }
                lemma_teardown_local(before, prior, c as int);
                assert(before.teardown_children(id as int, k + 1) == before.teardown_children(
                    id as int,
                    k as int,
                ) + before.teardown(c as int));
                assert(out@ =~= out0 + before.teardown_children(id as int, k + 1));
            }
            k = k + 1;
        }
        let ghost mid = self@;
        let ghost out1 = out@;
        let ghost callbacks = before.nodes[id as int].callbacks;
        proof {
            Self::lemma_root_stays(before, id as int, n as int);
            assert(mid.nodes[id as int] == before.nodes[id as int]);
        }
        while self.nodes[id].callbacks.len() > 0
            invariant
                id < self@.len(),
                self@.len() == mid.len(),
                forall|x: int| 0 <= x < mid.len() && x != id ==> #[trigger] self@.nodes[x] == mid.nodes[x],
                self@.nodes[id as int].parent == mid.nodes[id as int].parent,
                self@.nodes[id as int].children == mid.nodes[id as int].children,
                self@.nodes[id as int].disposed == mid.nodes[id as int].disposed,
                self@.nodes[id as int].callbacks =~= callbacks.take(
                    self@.nodes[id as int].callbacks.len() as int,
                ),
                self@.nodes[id as int].callbacks.len() <= callbacks.len(),
                out@ =~= out1 + callbacks.skip(
                    self@.nodes[id as int].callbacks.len() as int,
                ).reverse(),
            decreases self@.nodes[id as int].callbacks.len(),
        {
            let ghost m = self@.nodes[id as int].callbacks.len() as int;
            let ghost prev = self.nodes@;
            let ghost earlier = self@;
            let callback = self.nodes[id].callbacks.pop().unwrap();
            out.push(callback);
            proof {
                assert(self.nodes@.len() == prev.len());
                assert forall|x: int| 0 <= x < mid.len() && x != id implies #[trigger] self@.nodes[x]
                    == mid.nodes[x] by {
                    assert(self.nodes@[x] == prev[x]);
                    assert(earlier.nodes[x] == mid.nodes[x]);
                }
                assert(earlier.nodes[id as int] == prev[id as int]@);
                let rest = callbacks.skip(m);
                let more = callbacks.skip(m - 1);
                assert(callback == callbacks[m - 1]);
                assert(more.reverse() =~= rest.reverse().push(callback));
            }
        }
        let ghost drained = self@;
        let ghost drained_nodes = self.nodes@;
        self.nodes[id].children.clear();
        let ghost cleared_nodes = self.nodes@;
        self.nodes[id].disposed = true;
        proof {
            assert forall|x: int| 0 <= x < mid.len() && x != id implies #[trigger] self@.nodes[x]
                == mid.nodes[x] by {
                assert(cleared_nodes[x] == drained_nodes[x]);
                assert(self.nodes@[x] == cleared_nodes[x]);
                assert(drained.nodes[x] == mid.nodes[x]);
            }
            assert(drained.nodes[id as int] == drained_nodes[id as int]@);
            assert(callbacks.skip(0) =~= callbacks);
            assert(out@ =~= out0 + before.teardown(id as int));
            let after = before.wipe(id as int);
            assert forall|x: int| 0 <= x < before.len() implies #[trigger] self@.nodes[x]
                == after.nodes[x] by {
                if x == id {
                    assert(before.in_subtree(id as int, x));
                    assert(self@.nodes[x].callbacks =~= Seq::<C>::empty());
                    assert(self@.nodes[x].children =~= Seq::<usize>::empty());
                } else {
                    assert(self@.nodes[x] == mid.nodes[x]);
                    Self::lemma_after_children(before, id as int, x);
                }
            }
            assert(self@.nodes =~= after.nodes);
            lemma_wipe_keeps_shape(before, id as int);
        }
    }

    /// While the children of `id` are wiped one by one, `id` itself stays.
    proof fn lemma_root_stays(s: ScopesView<C>, id: int, k: int)
        requires
            s.shape(),
            0 <= id < s.len(),
        ensures
            !s.in_first_subtrees(id, k, id),
            forall|c: int|
                0 <= c < s.len() ==> ((#[trigger] s.nodes[c]).parent matches Some(p)
                    ==> s.in_first_subtrees(id, k, p as int) ==> s.in_first_subtrees(id, k, c)),
    {
        if s.in_first_subtrees(id, k, id) {
            let j = choose|j: int|
                0 <= j < k && j < s.nodes[id].children.len() && s.in_subtree(
                    #[trigger] s.nodes[id].children[j] as int,
                    id,
                );
            let d = s.nodes[id].children[j];
            assert(id < d);
            lemma_subtree_not_older(s, d as int, id);
        }
        assert forall|c: int| 0 <= c < s.len() implies ((#[trigger] s.nodes[c]).parent matches Some(
            p,
        ) ==> s.in_first_subtrees(id, k, p as int) ==> s.in_first_subtrees(id, k, c)) by {
            match s.nodes[c].parent {
                Some(p) => {
                    assert(p < c);
                    if s.in_first_subtrees(id, k, p as int) {
                        let j = choose|j: int|
                            0 <= j < k && j < s.nodes[id].children.len() && s.in_subtree(
                                #[trigger] s.nodes[id].children[j] as int,
                                p as int,
                            );
                        assert(s.in_subtree(s.nodes[id].children[j] as int, c));
                    }
                },
                None => {},
            }
        }
    }

    /// The subtrees of the first `k + 1` children are those of the first `k`
    /// and that of child `k`.
    proof fn lemma_first_subtrees_step(s: ScopesView<C>, id: int, k: int, x: int)
        requires
            0 <= id < s.len(),
            0 <= k < s.nodes[id].children.len(),
        ensures
            s.in_first_subtrees(id, k + 1, x) <==> (s.in_first_subtrees(id, k, x) || s.in_subtree(
                s.nodes[id].children[k] as int,
                x,
            )),
    {
        if s.in_first_subtrees(id, k + 1, x) {
            let j = choose|j: int|
                0 <= j < k + 1 && j < s.nodes[id].children.len() && s.in_subtree(
                    #[trigger] s.nodes[id].children[j] as int,
                    x,
                );
            if j < k {
                assert(s.in_first_subtrees(id, k, x));
            }
        }
        if s.in_first_subtrees(id, k, x) {
            let j = choose|j: int|
                0 <= j < k && j < s.nodes[id].children.len() && s.in_subtree(
                    #[trigger] s.nodes[id].children[j] as int,
                    x,
                );
            assert(s.in_subtree(s.nodes[id].children[j] as int, x));
        }
        if s.in_subtree(s.nodes[id].children[k] as int, x) {
            assert(s.in_first_subtrees(id, k + 1, x));
        }
    }

    /// Once every child of `id` is wiped, every scope but `id` is as the
    /// wiped subtree of `id` has it.
    proof fn lemma_after_children(s: ScopesView<C>, id: int, x: int)
        requires
            s.shape(),
            0 <= id < s.len(),
            0 <= x < s.len(),
            x != id,
        ensures
            (if s.in_first_subtrees(id, s.nodes[id].children.len() as int, x) {
                wiped(s.nodes[x])
            } else {
                s.nodes[x]
            }) == s.wipe(id).nodes[x],
    {
        let n = s.nodes[id].children.len() as int;
        if s.in_first_subtrees(id, n, x) {
            let j = choose|j: int|
                0 <= j < n && j < s.nodes[id].children.len() && s.in_subtree(
                    #[trigger] s.nodes[id].children[j] as int,
                    x,
                );
            let d = s.nodes[id].children[j] as int;
            assert(id < d < s.len() && s.parent_is(d, id));
            assert(s.in_subtree(id, id));
            assert(s.in_subtree(id, d));
            lemma_subtree_transitive(s, id, d, x);
        } else if s.in_subtree(id, x) {
            let b = lemma_subtree_branch(s, id, x);
            if has_child(s.nodes[id].children, b) {
                let j = child_slot(s.nodes[id].children, b);
                assert(s.in_subtree(s.nodes[id].children[j] as int, x));
                assert(false);
            }
            assert(s.nodes[b].disposed);
            lemma_disposed_below(s, b, x);
            assert(s.nodes[x].callbacks =~= Seq::<C>::empty());
            assert(s.nodes[x].children =~= Seq::<usize>::empty());
        }
    }

    /// Disposes `scope` and everything below it, and returns the cleanup
    /// callbacks in the order in which they are to run: the children's before
    /// the parent's, each scope's own from the last registered to the first.
    /// The scope leaves its parent. Disposing an unknown or disposed scope
    /// returns nothing and changes nothing.
    pub fn dispose(&mut self, scope: ScopeId) -> (order: Vec<C>)
        requires
            old(self)@.wf(),
        ensures
            final(self)@ == old(self)@.dispose(scope.0 as int),
            final(self)@.wf(),
            order@ == old(self)@.teardown(scope.0 as int),
    {
        let id: usize = scope.0;
        let mut out: Vec<C> = Vec::new();
        if id >= self.nodes.len() || self.nodes[id].disposed {
            proof {
                lemma_disposed_hands_out_nothing(self@, id as int);
            }
            return out;
        }
        self.wipe(id, &mut out);
        let ghost w = self@;
        proof {
            assert(out@ =~= old(self)@.teardown(id as int));
            lemma_dispose_keeps_wf(old(self)@, id as int);
            assert(old(self)@.in_subtree(id as int, id as int));
        }
        match self.nodes[id].parent {
            None => {},
            Some(p) => {
                assert(w.nodes[id as int].parent == Some(p));
                assert(old(self)@.nodes[id as int].parent == Some(p));
                assert(p < id);
                let count: usize = self.nodes[p].children.len();
                let mut k: usize = 0;
                while k < count && self.nodes[p].children[k] != id
                    invariant
                        self@ == w,
                        p < w.len(),
                        k <= count,
                        count == w.nodes[p as int].children.len(),
                        forall|j: int| 0 <= j < k ==> #[trigger] w.nodes[p as int].children[j] != id,
                    decreases count - k,
                {
                    k = k + 1;
                }
                if k < count {
                    proof {
                        let children = w.nodes[p as int].children;
                        assert(children[k as int] == id);
                        let slot = child_slot(children, id as int);
                        if slot < k {
                            assert(w.nodes[p as int].children[slot] < w.nodes[p as int].children[k as int]);
                        } else if slot > k {
                            assert(w.nodes[p as int].children[k as int] < w.nodes[p as int].children[slot]);
                        }
                        assert(slot == k);
                    }
                    self.nodes[p].children.remove(k);
                    proof {
                        assert(self@.nodes =~= w.detach(id as int).nodes);
                    }
                } else {
                    proof {
                        assert(!has_child(w.nodes[p as int].children, id as int));
                        assert(self@.nodes =~= w.detach(id as int).nodes);
                    }
                }
            },
        }
        out
    }
}

/// Runs cleanup callbacks in the order given. `run` runs one callback and
/// says whether it succeeded. A callback that fails is passed over: every
/// callback is run, whatever became of those before it. Returns the outcomes,
/// one for each callback.
pub fn run_cleanups<C, F: Fn(C) -> bool>(callbacks: Vec<C>, run: F) -> (outcomes: Vec<bool>)
    requires
        forall|i: int| 0 <= i < callbacks@.len() ==> call_requires(run, (#[trigger] callbacks@[i],)),
    ensures
        outcomes@.len() == callbacks@.len(),
        forall|i: int|
            0 <= i < callbacks@.len() ==> call_ensures(
                run,
                (callbacks@[i],),
                #[trigger] outcomes@[i],
            ),
{
    let ghost all = callbacks@;
    let mut outcomes: Vec<bool> = Vec::new();
    for callback in it: callbacks
        invariant
            it.seq() == all,
            outcomes@.len() == it.index(),
            forall|i: int| 0 <= i < all.len() ==> call_requires(run, (#[trigger] all[i],)),
            forall|i: int|
                0 <= i < it.index() ==> call_ensures(run, (all[i],), #[trigger] outcomes@[i]),
    {
        let ok = run(callback);
        outcomes.push(ok);
    }
    outcomes
}

} // verus!
