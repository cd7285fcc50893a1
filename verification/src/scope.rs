//! Scopes: a tree of lifetimes with cleanup callbacks.
//!
//! Disposing a scope tears down its children first, in the order in which
//! they were created, and then hands out the scope's own callbacks, the one
//! registered last first. A callback is handed out once: the caller runs it.

use vstd::prelude::*;

verus! {

/// Names a scope within its tree.
#[derive(Clone, Copy, Debug, PartialEq, Eq, Structural)]
pub struct ScopeId(pub usize);

/// The mathematical model of one scope.
pub struct ScopeView<C> {
    pub parent: Option<usize>,
    /// The children that are attached, in the order of their creation.
    pub children: Seq<usize>,
    /// The cleanup callbacks, in the order of their registration.
    pub callbacks: Seq<C>,
    pub disposed: bool,
}

/// A scope after its disposal: nothing is left to run below it.
pub open spec fn wiped<C>(scope: ScopeView<C>) -> ScopeView<C> {
    ScopeView {
        parent: scope.parent,
        children: Seq::empty(),
        callbacks: Seq::empty(),
        disposed: true,
    }
}

pub open spec fn has_child(children: Seq<usize>, child: int) -> bool {
    exists|k: int| 0 <= k < children.len() && #[trigger] children[k] == child
}

pub open spec fn child_slot(children: Seq<usize>, child: int) -> int {
    choose|k: int| 0 <= k < children.len() && #[trigger] children[k] == child
}

pub open spec fn without_child(children: Seq<usize>, child: int) -> Seq<usize> {
    if has_child(children, child) {
        children.remove(child_slot(children, child))
    } else {
        children
    }
}

/// The mathematical model of a scope tree: every scope ever created, by id.
pub struct ScopesView<C> {
    pub nodes: Seq<ScopeView<C>>,
}

impl<C> ScopesView<C> {
    pub open spec fn initial() -> Self {
        ScopesView { nodes: Seq::empty() }
    }

    pub open spec fn len(self) -> int {
        self.nodes.len() as int
    }

    /// Whether `id` names a scope that has not been disposed.
    pub open spec fn is_live(self, id: int) -> bool {
        0 <= id < self.len() && !self.nodes[id].disposed
    }

    pub open spec fn parent_is(self, c: int, p: int) -> bool {
        self.nodes[c].parent matches Some(q) && q == p
    }

    /// An attached child is younger than its parent and points back to it.
    pub open spec fn links_ok(self) -> bool {
        forall|i: int, k: int|
            0 <= i < self.len() && 0 <= k < self.nodes[i].children.len() ==> {
                let c = #[trigger] self.nodes[i].children[k];
                i < c < self.len() && self.parent_is(c as int, i)
            }
    }

    /// Children are attached in the order of their creation.
    pub open spec fn children_sorted(self) -> bool {
        forall|i: int, k: int, l: int|
            0 <= i < self.len() && 0 <= k < l < self.nodes[i].children.len()
                ==> #[trigger] self.nodes[i].children[k] < #[trigger] self.nodes[i].children[l]
    }

    pub open spec fn parents_older(self) -> bool {
        forall|c: int|
            0 <= c < self.len() ==> ((#[trigger] self.nodes[c]).parent matches Some(p) ==> p < c)
    }

    /// A live scope is attached to its parent.
    pub open spec fn live_attached(self) -> bool {
        forall|c: int|
            0 <= c < self.len() && !(#[trigger] self.nodes[c]).disposed ==> (
            self.nodes[c].parent matches Some(p) ==> has_child(self.nodes[p as int].children, c))
    }

    /// A disposed scope holds neither callbacks nor children.
    pub open spec fn disposed_empty(self) -> bool {
        forall|i: int|
            0 <= i < self.len() && (#[trigger] self.nodes[i]).disposed
                ==> self.nodes[i].callbacks.len() == 0 && self.nodes[i].children.len() == 0
    }

    /// Below a disposed scope every scope is disposed.
    pub open spec fn disposed_downward(self) -> bool {
        forall|c: int|
            0 <= c < self.len() ==> ((#[trigger] self.nodes[c]).parent matches Some(p)
                ==> self.nodes[p as int].disposed ==> self.nodes[c].disposed)
    }

    /// Every attached child, but perhaps `except`, is live.
    pub open spec fn attached_live_except(self, except: int) -> bool {
        forall|i: int, k: int|
            0 <= i < self.len() && 0 <= k < self.nodes[i].children.len() ==> {
                let c = #[trigger] self.nodes[i].children[k];
                c != except ==> !self.nodes[c as int].disposed
            }
    }

    pub open spec fn shape(self) -> bool {
        &&& self.len() <= usize::MAX
        &&& self.links_ok()
        &&& self.children_sorted()
        &&& self.parents_older()
        &&& self.live_attached()
        &&& self.disposed_empty()
        &&& self.disposed_downward()
    }

    /// What every reachable scope tree satisfies: its shape, and no disposed
    /// scope is still attached to its parent.
    pub open spec fn wf(self) -> bool {
        &&& self.shape()
        &&& self.attached_live_except(-1)
    }

    /// Whether `x` is `root` or lies below it.
    pub open spec fn in_subtree(self, root: int, x: int) -> bool
        decreases x,
    {
        0 <= x < self.len() && (x == root || match self.nodes[x].parent {
            Some(p) => p < x && self.in_subtree(root, p as int),
            None => false,
        })
    }

    /// Whether `x` lies in the subtree of one of the first `k` children of `id`.
    pub open spec fn in_first_subtrees(self, id: int, k: int, x: int) -> bool {
        exists|j: int|
            0 <= j < k && j < self.nodes[id].children.len() && self.in_subtree(
                #[trigger] self.nodes[id].children[j] as int,
                x,
            )
    }

    /// The callbacks that disposing `id` hands out, in the order in which
    /// they are to run: those of each child's subtree, child by child, then
    /// the scope's own, last registered first.
    pub open spec fn teardown(self, id: int) -> Seq<C>
        decreases self.len() - id, 1int, 0int,
    {
        if 0 <= id < self.len() {
            self.teardown_children(id, self.nodes[id].children.len() as int)
                + self.nodes[id].callbacks.reverse()
        } else {
            Seq::empty()
        }
    }

    /// The callbacks that the first `k` children of `id` hand out.
    pub open spec fn teardown_children(self, id: int, k: int) -> Seq<C>
        decreases self.len() - id, 0int, k,
    {
        if 0 <= id < self.len() && 0 < k <= self.nodes[id].children.len() {
            let c = self.nodes[id].children[k - 1] as int;
            self.teardown_children(id, k - 1) + (if id < c < self.len() {
                self.teardown(c)
            } else {
                Seq::empty()
            })
        } else {
            Seq::empty()
        }
    }

    /// Whether `t` is this tree with exactly the scopes in `gone` wiped.
    pub open spec fn wiped_to(self, t: Self, gone: spec_fn(int) -> bool) -> bool {
        &&& t.len() == self.len()
        &&& forall|x: int|
            0 <= x < self.len() ==> #[trigger] t.nodes[x] == if gone(x) {
                wiped(self.nodes[x])
            } else {
                self.nodes[x]
            }
    }

    /// Every scope in the subtree of `id` is wiped; the rest stays.
    pub open spec fn wipe(self, id: int) -> Self {
        ScopesView {
            nodes: Seq::new(
                self.nodes.len(),
                |x: int|
                    if self.in_subtree(id, x) {
                        wiped(self.nodes[x])
                    } else {
                        self.nodes[x]
                    },
            ),
        }
    }

    /// Scope `id` leaves the children of its parent.
    pub open spec fn detach(self, id: int) -> Self {
        match self.nodes[id].parent {
            Some(p) => ScopesView {
                nodes: self.nodes.update(
                    p as int,
                    ScopeView {
                        children: without_child(self.nodes[p as int].children, id),
                        ..self.nodes[p as int]
                    },
                ),
            },
            None => self,
        }
    }

    /// The tree after the disposal of `id`: its subtree is wiped and `id` is
    /// detached from its parent. Disposing what is not live changes nothing.
    pub open spec fn dispose(self, id: int) -> Self {
        if self.is_live(id) {
            self.wipe(id).detach(id)
        } else {
            self
        }
    }

    pub open spec fn fresh_scope(parent: Option<usize>) -> ScopeView<C> {
        ScopeView { parent, children: Seq::empty(), callbacks: Seq::empty(), disposed: false }
    }

    pub open spec fn create_root(self) -> Self {
        ScopesView { nodes: self.nodes.push(Self::fresh_scope(None)) }
    }

    /// A new scope below `parent`, where that is live.
    pub open spec fn create_child(self, parent: usize) -> Self {
        if self.is_live(parent as int) {
            ScopesView {
                nodes: self.nodes.update(
                    parent as int,
                    ScopeView {
                        children: self.nodes[parent as int].children.push(self.nodes.len() as usize),
                        ..self.nodes[parent as int]
                    },
                ).push(Self::fresh_scope(Some(parent))),
            }
        } else {
            self
        }
    }

    pub open spec fn register_cleanup(self, id: int, callback: C) -> Self {
        if self.is_live(id) {
            ScopesView {
                nodes: self.nodes.update(
                    id,
                    ScopeView {
                        callbacks: self.nodes[id].callbacks.push(callback),
                        ..self.nodes[id]
                    },
                ),
            }
        } else {
            self
        }
    }
}

/// A subtree holds no scope older than its root.
pub proof fn lemma_subtree_not_older<C>(s: ScopesView<C>, root: int, x: int)
    requires
        s.in_subtree(root, x),
    ensures
        root <= x < s.len(),
    decreases x,
{
    if x != root {
        lemma_subtree_not_older(s, root, s.nodes[x].parent->0 as int);
    }
}

/// What lies below a scope of a subtree lies in that subtree.
pub proof fn lemma_subtree_transitive<C>(s: ScopesView<C>, a: int, b: int, x: int)
    requires
        s.in_subtree(a, b),
        s.in_subtree(b, x),
    ensures
        s.in_subtree(a, x),
    decreases x,
{
    if x != b {
        lemma_subtree_transitive(s, a, b, s.nodes[x].parent->0 as int);
    }
}

/// A scope strictly below `root` lies in the subtree of a scope whose parent
/// is `root`.
pub proof fn lemma_subtree_branch<C>(s: ScopesView<C>, root: int, x: int) -> (b: int)
    requires
        s.in_subtree(root, x),
        x != root,
    ensures
        root < b < s.len(),
        s.parent_is(b, root),
        s.in_subtree(b, x),
    decreases x,
{
    let p = s.nodes[x].parent->0 as int;
    lemma_subtree_not_older(s, root, p);
    if p == root {
        x
    } else {
        let b = lemma_subtree_branch(s, root, p);
        assert(s.in_subtree(b, x));
        b
    }
}

/// Two scopes that both hold `x` in their subtrees lie one below the other.
pub proof fn lemma_subtrees_nest<C>(s: ScopesView<C>, a: int, b: int, x: int)
    requires
        s.in_subtree(a, x),
        s.in_subtree(b, x),
    ensures
        s.in_subtree(a, b) || s.in_subtree(b, a),
    decreases x,
{
    if x != a && x != b {
        lemma_subtrees_nest(s, a, b, s.nodes[x].parent->0 as int);
    }
}

/// The subtrees of two different children of one scope share no scope.
pub proof fn lemma_sibling_subtrees_disjoint<C>(s: ScopesView<C>, p: int, a: int, b: int, x: int)
    requires
        0 <= p < a < s.len(),
        p < b < s.len(),
        a != b,
        s.parent_is(a, p),
        s.parent_is(b, p),
        s.in_subtree(a, x),
    ensures
        !s.in_subtree(b, x),
{
    if s.in_subtree(b, x) {
        lemma_subtrees_nest(s, a, b, x);
        if s.in_subtree(a, b) {
            assert(s.in_subtree(a, p));
            lemma_subtree_not_older(s, a, p);
        } else {
            assert(s.in_subtree(b, p));
            lemma_subtree_not_older(s, b, p);
        }
    }
}

/// Below a disposed scope everything is disposed.
pub proof fn lemma_disposed_below<C>(s: ScopesView<C>, root: int, x: int)
    requires
        s.disposed_downward(),
        s.in_subtree(root, x),
        s.nodes[root].disposed,
    ensures
        s.nodes[x].disposed,
    decreases x,
{
    if x != root {
        lemma_disposed_below(s, root, s.nodes[x].parent->0 as int);
    }
}

/// Which scopes lie below which depends on the parent links alone.
pub proof fn lemma_subtree_by_parents<C>(s: ScopesView<C>, t: ScopesView<C>, root: int, x: int)
    requires
        s.len() == t.len(),
        forall|i: int| 0 <= i < s.len() ==> (#[trigger] s.nodes[i]).parent == t.nodes[i].parent,
    ensures
        s.in_subtree(root, x) == t.in_subtree(root, x),
    decreases x,
{
    if 0 <= x < s.len() && x != root {
        match s.nodes[x].parent {
            Some(p) => {
                if p < x {
                    lemma_subtree_by_parents(s, t, root, p as int);
                }
            },
            None => {},
        }
    }
}

/// What the disposal of `id` hands out depends on the subtree of `id` alone.
pub proof fn lemma_teardown_local<C>(s: ScopesView<C>, t: ScopesView<C>, id: int)
    requires
        s.links_ok(),
        s.len() == t.len(),
        forall|x: int| s.in_subtree(id, x) ==> #[trigger] s.nodes[x] == t.nodes[x],
    ensures
        s.teardown(id) == t.teardown(id),
    decreases s.len() - id, 1int, 0int,
{
    if 0 <= id < s.len() {
        assert(s.in_subtree(id, id));
        lemma_teardown_children_local(s, t, id, s.nodes[id].children.len() as int);
    }
}

pub proof fn lemma_teardown_children_local<C>(s: ScopesView<C>, t: ScopesView<C>, id: int, k: int)
    requires
        s.links_ok(),
        s.len() == t.len(),
        0 <= id < s.len(),
        forall|x: int| s.in_subtree(id, x) ==> #[trigger] s.nodes[x] == t.nodes[x],
    ensures
        s.teardown_children(id, k) == t.teardown_children(id, k),
    decreases s.len() - id, 0int, k,
{
    assert(s.in_subtree(id, id));
    if 0 < k <= s.nodes[id].children.len() {
        lemma_teardown_children_local(s, t, id, k - 1);
        let c = s.nodes[id].children[k - 1] as int;
        assert(id < c < s.len() && s.parent_is(c, id));
        assert(s.in_subtree(id, c));
        assert forall|x: int| s.in_subtree(c, x) implies #[trigger] s.nodes[x] == t.nodes[x] by {
            lemma_subtree_transitive(s, id, c, x);
        }
        lemma_teardown_local(s, t, c);
    }
}

/// A disposed scope hands out nothing: no callback runs twice.
pub proof fn lemma_disposed_hands_out_nothing<C>(s: ScopesView<C>, id: int)
    requires
        s.disposed_empty(),
        0 <= id < s.len() ==> s.nodes[id].disposed,
    ensures
        s.teardown(id) == Seq::<C>::empty(),
{
    if 0 <= id < s.len() {
        assert(s.nodes[id].callbacks.reverse() =~= Seq::<C>::empty());
        assert(s.teardown_children(id, 0) == Seq::<C>::empty());
        assert(s.teardown(id) =~= Seq::<C>::empty());
    }
}

/// Wiping a set of scopes that holds, with a scope, everything below it
/// keeps the shape of the tree.
pub proof fn lemma_wiped_keeps_shape<C>(s: ScopesView<C>, t: ScopesView<C>, gone: spec_fn(int) -> bool)
    requires
        s.shape(),
        s.wiped_to(t, gone),
        forall|c: int|
            0 <= c < s.len() ==> ((#[trigger] s.nodes[c]).parent matches Some(p) ==> gone(p as int)
                ==> gone(c)),
    ensures
        t.shape(),
{
    assert(t.links_ok()) by {
        assert forall|i: int, k: int| 0 <= i < t.len() && 0 <= k < t.nodes[i].children.len() implies {
            let c = #[trigger] t.nodes[i].children[k];
            i < c < t.len() && t.parent_is(c as int, i)
        } by {
            assert(t.nodes[i] == s.nodes[i]);
            let c = s.nodes[i].children[k];
            assert(i < c < s.len() && s.parent_is(c as int, i));
            assert(t.nodes[c as int].parent == s.nodes[c as int].parent);
        }
    }
    assert(t.children_sorted()) by {
        assert forall|i: int, k: int, l: int|
            0 <= i < t.len() && 0 <= k < l < t.nodes[i].children.len() implies #[trigger] t.nodes[i].children[k]
            < #[trigger] t.nodes[i].children[l] by {
            assert(t.nodes[i] == s.nodes[i]);
            assert(s.nodes[i].children[k] < s.nodes[i].children[l]);
        }
    }
    assert(t.parents_older()) by {
        assert forall|c: int| 0 <= c < t.len() implies ((#[trigger] t.nodes[c]).parent matches Some(
            p,
        ) ==> p < c) by {
            assert(t.nodes[c].parent == s.nodes[c].parent);
        }
    }
    assert(t.live_attached()) by {
        assert forall|c: int| 0 <= c < t.len() && !(#[trigger] t.nodes[c]).disposed implies (
        t.nodes[c].parent matches Some(p) ==> has_child(t.nodes[p as int].children, c)) by {
            assert(t.nodes[c] == s.nodes[c]);
            match s.nodes[c].parent {
                Some(p) => {
                    assert(p < c);
                    assert(!gone(p as int));
                    assert(t.nodes[p as int] == s.nodes[p as int]);
                },
                None => {},
            }
        }
    }
    assert(t.disposed_empty()) by {
        assert forall|i: int| 0 <= i < t.len() && (#[trigger] t.nodes[i]).disposed implies t.nodes[i].callbacks.len()
            == 0 && t.nodes[i].children.len() == 0 by {
            if !gone(i) {
                assert(t.nodes[i] == s.nodes[i]);
            }
        }
    }
    assert(t.disposed_downward()) by {
        assert forall|c: int| 0 <= c < t.len() implies ((#[trigger] t.nodes[c]).parent matches Some(
            p,
        ) ==> t.nodes[p as int].disposed ==> t.nodes[c].disposed) by {
            match s.nodes[c].parent {
                Some(p) => {
                    assert(p < c);
                    assert(t.nodes[c].parent == s.nodes[c].parent);
                    if !gone(p as int) {
                        assert(t.nodes[p as int] == s.nodes[p as int]);
                        assert(s.nodes[p as int].disposed ==> s.nodes[c].disposed);
                    }
                },
                None => {},
            }
        }
    }
}

/// Wiping the subtree of `id` keeps the shape of the tree.
pub proof fn lemma_wipe_keeps_shape<C>(s: ScopesView<C>, id: int)
    requires
        s.shape(),
    ensures
        s.wipe(id).shape(),
        s.wipe(id).len() == s.len(),
{
    let gone = |x: int| s.in_subtree(id, x);
    assert(s.wiped_to(s.wipe(id), gone));
    lemma_wiped_keeps_shape(s, s.wipe(id), gone);
}

/// A parent with callbacks and one child that has none below it: the child's
/// callbacks run first, each list from its last callback to its first.
pub proof fn lemma_child_runs_before_parent<C>(s: ScopesView<C>, a: int, b: int)
    requires
        s.links_ok(),
        0 <= a < s.len(),
        s.nodes[a].children.len() == 1,
        s.nodes[a].children[0] == b,
        0 <= b < s.len(),
        s.nodes[b].children.len() == 0,
    ensures
        s.teardown(a) == s.nodes[b].callbacks.reverse() + s.nodes[a].callbacks.reverse(),
{
    assert(a < b);
    assert(s.teardown_children(b, 0) == Seq::<C>::empty());
    assert(s.teardown(b) =~= s.nodes[b].callbacks.reverse());
    assert(s.teardown_children(a, 0) == Seq::<C>::empty());
    assert(s.teardown_children(a, 1) =~= s.teardown(b));
}

/// What the first `m` children of `p` hand out holds, in one piece, what
/// child `k` hands out; `post` is what follows it.
pub proof fn lemma_child_teardown_inside<C>(s: ScopesView<C>, p: int, k: int, m: int) -> (post: Seq<C>)
    requires
        s.links_ok(),
        0 <= p < s.len(),
        0 <= k < m <= s.nodes[p].children.len(),
    ensures
        s.teardown_children(p, m) == s.teardown_children(p, k) + s.teardown(
            s.nodes[p].children[k] as int,
        ) + post,
    decreases m,
{
    let child = s.nodes[p].children[m - 1] as int;
    assert(p < child < s.len());
    if m == k + 1 {
        let post = Seq::<C>::empty();
        assert(s.teardown_children(p, m) =~= s.teardown_children(p, k) + s.teardown(child) + post);
        post
    } else {
        let before = lemma_child_teardown_inside(s, p, k, m - 1);
        let post = before + s.teardown(child);
        assert(s.teardown_children(p, m) =~= s.teardown_children(p, k) + s.teardown(
            s.nodes[p].children[k] as int,
        ) + post);
        post
    }
}

/// Disposal hands out everything that an attached child hands out, in the
/// child's own order and in one piece, before any callback of the parent.
pub proof fn lemma_children_run_before_parent<C>(s: ScopesView<C>, p: int, k: int) -> (around: (
    Seq<C>,
    Seq<C>,
))
    requires
        s.links_ok(),
        0 <= p < s.len(),
        0 <= k < s.nodes[p].children.len(),
    ensures
        s.teardown(p) == around.0 + s.teardown(s.nodes[p].children[k] as int) + around.1
            + s.nodes[p].callbacks.reverse(),
{
    let post = lemma_child_teardown_inside(s, p, k, s.nodes[p].children.len() as int);
    (s.teardown_children(p, k), post)
}

/// Detaching a disposed scope from its parent, in a tree where it was the
/// only attached scope that is disposed, gives a well-formed tree.
pub proof fn lemma_detach_keeps_wf<C>(w: ScopesView<C>, id: int)
    requires
        w.shape(),
        0 <= id < w.len(),
        w.nodes[id].disposed,
        w.attached_live_except(id),
    ensures
        w.detach(id).wf(),
        w.detach(id).len() == w.len(),
{
    let t = w.detach(id);
    match w.nodes[id].parent {
        None => {
            assert(t.attached_live_except(-1)) by {
                assert forall|i: int, k: int|
                    0 <= i < t.len() && 0 <= k < t.nodes[i].children.len() implies {
                    let c = #[trigger] t.nodes[i].children[k];
                    c != -1 ==> !t.nodes[c as int].disposed
                } by {
                    let c = w.nodes[i].children[k];
                    assert(w.parent_is(c as int, i));
                }
            }
        },
        Some(p) => {
            let p = p as int;
            assert(p < id);
            let oc = w.nodes[p].children;
            if !has_child(oc, id) {
                assert(t.nodes =~= w.nodes);
                assert(t.attached_live_except(-1)) by {
                    assert forall|i: int, k: int|
                        0 <= i < t.len() && 0 <= k < t.nodes[i].children.len() implies {
                        let c = #[trigger] t.nodes[i].children[k];
                        c != -1 ==> !t.nodes[c as int].disposed
                    } by {
                        let c = w.nodes[i].children[k];
                        assert(w.parent_is(c as int, i));
                        if c == id {
                            assert(oc[k] == id);
                        }
                    }
                }
            } else {
                let slot = child_slot(oc, id);
                let nc = oc.remove(slot);
                assert(oc[slot] == id);
                assert(t.nodes[p].children == nc);
                assert forall|x: int| 0 <= x < t.len() implies (#[trigger] t.nodes[x]).parent
                    == w.nodes[x].parent && t.nodes[x].disposed == w.nodes[x].disposed
                    && t.nodes[x].callbacks == w.nodes[x].callbacks && (x != p
                    ==> t.nodes[x].children == w.nodes[x].children) by {}
                assert forall|k: int| 0 <= k < nc.len() implies #[trigger] nc[k] == oc[if k < slot {
                    k
                } else {
                    k + 1
                }] && nc[k] != id by {
                    let kk = if k < slot {
                        k
                    } else {
                        k + 1
                    };
                    if kk < slot {
                        assert(w.nodes[p].children[kk] < w.nodes[p].children[slot]);
                    } else {
                        assert(w.nodes[p].children[slot] < w.nodes[p].children[kk]);
                    }
                }
                assert(t.links_ok()) by {
                    assert forall|i: int, k: int|
                        0 <= i < t.len() && 0 <= k < t.nodes[i].children.len() implies {
                        let c = #[trigger] t.nodes[i].children[k];
                        i < c < t.len() && t.parent_is(c as int, i)
                    } by {
                        if i == p {
                            let kk = if k < slot {
                                k
                            } else {
                                k + 1
                            };
                            let c = w.nodes[p].children[kk];
                            assert(nc[k] == c);
                            assert(p < c < w.len() && w.parent_is(c as int, p));
                        } else {
                            let c = w.nodes[i].children[k];
                            assert(i < c < w.len() && w.parent_is(c as int, i));
                        }
                    }
                }
                assert(t.children_sorted()) by {
                    assert forall|i: int, k: int, l: int|
                        0 <= i < t.len() && 0 <= k < l < t.nodes[i].children.len() implies #[trigger] t.nodes[i].children[k]
                        < #[trigger] t.nodes[i].children[l] by {
                        if i == p {
                            let kk = if k < slot {
                                k
                            } else {
                                k + 1
                            };
                            let ll = if l < slot {
                                l
                            } else {
                                l + 1
                            };
                            assert(nc[k] == oc[kk] && nc[l] == oc[ll]);
                            assert(w.nodes[p].children[kk] < w.nodes[p].children[ll]);
                        } else {
                            assert(w.nodes[i].children[k] < w.nodes[i].children[l]);
                        }
                    }
                }
                assert(t.parents_older()) by {
                    assert forall|c: int| 0 <= c < t.len() implies ((#[trigger] t.nodes[c]).parent matches Some(
                        q,
                    ) ==> q < c) by {
                        assert(w.nodes[c].parent matches Some(q) ==> q < c);
                    }
                }
                assert(t.live_attached()) by {
                    assert forall|c: int| 0 <= c < t.len() && !(#[trigger] t.nodes[c]).disposed implies (
                    t.nodes[c].parent matches Some(q) ==> has_child(
                        t.nodes[q as int].children,
                        c,
                    )) by {
                        assert(!w.nodes[c].disposed);
                        match w.nodes[c].parent {
                            Some(q) => {
                                let wc = w.nodes[q as int].children;
                                assert(has_child(wc, c));
                                let k = choose|k: int| 0 <= k < wc.len() && #[trigger] wc[k] == c;
                                if q == p {
                                    let kn = if k < slot {
                                        k
                                    } else {
                                        k - 1
                                    };
                                    assert(nc[kn] == c);
                                } else {
                                    assert(t.nodes[q as int].children[k] == c);
                                }
                            },
                            None => {},
                        }
                    }
                }
                assert(t.disposed_empty()) by {
                    assert forall|i: int| 0 <= i < t.len() && (#[trigger] t.nodes[i]).disposed implies t.nodes[i].callbacks.len()
                        == 0 && t.nodes[i].children.len() == 0 by {
                        assert(w.nodes[i].disposed);
                    }
                }
                assert(t.disposed_downward()) by {
                    assert forall|c: int| 0 <= c < t.len() implies ((#[trigger] t.nodes[c]).parent matches Some(
                        q,
                    ) ==> t.nodes[q as int].disposed ==> t.nodes[c].disposed) by {
                        assert(w.nodes[c].parent matches Some(q) ==> w.nodes[q as int].disposed
                            ==> w.nodes[c].disposed);
                    }
                }
                assert(t.attached_live_except(-1)) by {
                    assert forall|i: int, k: int|
                        0 <= i < t.len() && 0 <= k < t.nodes[i].children.len() implies {
                        let c = #[trigger] t.nodes[i].children[k];
                        c != -1 ==> !t.nodes[c as int].disposed
                    } by {
                        if i == p {
                            let kk = if k < slot {
                                k
                            } else {
                                k + 1
                            };
                            let c = w.nodes[p].children[kk];
                            assert(nc[k] == c);
                            assert(c != id);
                            assert(!w.nodes[c as int].disposed);
                        } else {
                            let c = w.nodes[i].children[k];
                            assert(w.parent_is(c as int, i));
                            assert(c != id);
                            assert(!w.nodes[c as int].disposed);
                        }
                    }
                }
            }
        },
    }
}

/// Disposal keeps the tree well-formed.
pub proof fn lemma_dispose_keeps_wf<C>(s: ScopesView<C>, id: int)
    requires
        s.wf(),
    ensures
        s.dispose(id).wf(),
        s.dispose(id).len() == s.len(),
{
    if s.is_live(id) {
        let w = s.wipe(id);
        lemma_wipe_keeps_shape(s, id);
        assert(s.in_subtree(id, id));
        assert(w.attached_live_except(id)) by {
            assert forall|i: int, k: int|
                0 <= i < w.len() && 0 <= k < w.nodes[i].children.len() implies {
                let c = #[trigger] w.nodes[i].children[k];
                c != id ==> !w.nodes[c as int].disposed
            } by {
                assert(w.nodes[i] == s.nodes[i]);
                let c = s.nodes[i].children[k] as int;
                assert(i < c < s.len() && s.parent_is(c, i));
                assert(!s.nodes[c].disposed);
                if c != id && s.in_subtree(id, c) {
                    assert(s.in_subtree(id, i));
                }
            }
        }
        lemma_detach_keeps_wf(w, id);
    }
}

/// After the disposal of a scope, disposing it or anything below it again
/// hands out nothing and changes nothing: each cleanup callback leaves the
/// tree exactly once.
pub proof fn lemma_disposal_is_final<C>(s: ScopesView<C>, id: int, x: int)
    requires
        s.wf(),
        s.is_live(id),
        s.in_subtree(id, x),
    ensures
        !s.dispose(id).is_live(x),
        s.dispose(id).dispose(x) == s.dispose(id),
        s.dispose(id).teardown(x) == Seq::<C>::empty(),
{
    lemma_dispose_keeps_wf(s, id);
    lemma_subtree_not_older(s, id, x);
    let w = s.wipe(id);
    let t = s.dispose(id);
    assert(w.nodes[x] == wiped(s.nodes[x]));
    match w.nodes[id].parent {
        Some(p) => {
            assert(s.nodes[id].parent matches Some(q) ==> q < id);
            assert(p < id);
            assert(t.nodes[x] == w.nodes[x]);
        },
        None => {},
    }
    lemma_disposed_hands_out_nothing(t, x);
}

/// A new root keeps the tree well-formed.
pub proof fn lemma_create_root_keeps_wf<C>(s: ScopesView<C>)
    requires
        s.wf(),
        s.len() < usize::MAX,
    ensures
        s.create_root().wf(),
{
    let t = s.create_root();
    assert forall|x: int| 0 <= x < s.len() implies #[trigger] t.nodes[x] == s.nodes[x] by {}
    assert(t.links_ok()) by {
        assert forall|i: int, k: int| 0 <= i < t.len() && 0 <= k < t.nodes[i].children.len() implies {
            let c = #[trigger] t.nodes[i].children[k];
            i < c < t.len() && t.parent_is(c as int, i)
        } by {
            let c = s.nodes[i].children[k];
            assert(i < c < s.len() && s.parent_is(c as int, i));
        }
    }
    assert(t.children_sorted()) by {
        assert forall|i: int, k: int, l: int|
            0 <= i < t.len() && 0 <= k < l < t.nodes[i].children.len() implies #[trigger] t.nodes[i].children[k]
            < #[trigger] t.nodes[i].children[l] by {
            assert(s.nodes[i].children[k] < s.nodes[i].children[l]);
        }
    }
    assert(t.parents_older()) by {
        assert forall|c: int| 0 <= c < t.len() implies ((#[trigger] t.nodes[c]).parent matches Some(
            q,
        ) ==> q < c) by {
            if c < s.len() {
                assert(s.nodes[c].parent matches Some(q) ==> q < c);
            }
        }
    }
    assert(t.live_attached()) by {
        assert forall|c: int| 0 <= c < t.len() && !(#[trigger] t.nodes[c]).disposed implies (
        t.nodes[c].parent matches Some(q) ==> has_child(t.nodes[q as int].children, c)) by {
            if c < s.len() {
                assert(s.nodes[c].parent matches Some(q) ==> q < c && has_child(
                    s.nodes[q as int].children,
                    c,
                ));
            }
        }
    }
    assert(t.disposed_empty()) by {
        assert forall|i: int| 0 <= i < t.len() && (#[trigger] t.nodes[i]).disposed implies t.nodes[i].callbacks.len()
            == 0 && t.nodes[i].children.len() == 0 by {
            if i < s.len() {
                assert(s.nodes[i].disposed);
            }
        }
    }
    assert(t.disposed_downward()) by {
        assert forall|c: int| 0 <= c < t.len() implies ((#[trigger] t.nodes[c]).parent matches Some(
            q,
        ) ==> t.nodes[q as int].disposed ==> t.nodes[c].disposed) by {
            if c < s.len() {
                assert(s.nodes[c].parent matches Some(q) ==> q < c && (s.nodes[q as int].disposed
                    ==> s.nodes[c].disposed));
            }
        }
    }
    assert(t.attached_live_except(-1)) by {
        assert forall|i: int, k: int| 0 <= i < t.len() && 0 <= k < t.nodes[i].children.len() implies {
            let c = #[trigger] t.nodes[i].children[k];
            c != -1 ==> !t.nodes[c as int].disposed
        } by {
            let c = s.nodes[i].children[k];
            assert(i < c < s.len() && !s.nodes[c as int].disposed);
        }
    }
}

/// A new child keeps the tree well-formed.
pub proof fn lemma_create_child_keeps_wf<C>(s: ScopesView<C>, parent: usize)
    requires
        s.wf(),
        s.len() < usize::MAX,
    ensures
        s.create_child(parent).wf(),
{
    if s.is_live(parent as int) {
        let t = s.create_child(parent);
        let p = parent as int;
        let n = s.len();
        let oc = s.nodes[p].children;
        assert(t.nodes[p].children == oc.push(n as usize));
        assert forall|x: int| 0 <= x < s.len() implies (#[trigger] t.nodes[x]).parent
            == s.nodes[x].parent && t.nodes[x].disposed == s.nodes[x].disposed
            && t.nodes[x].callbacks == s.nodes[x].callbacks && (x != p ==> t.nodes[x].children
            == s.nodes[x].children) by {}
        assert forall|k: int| 0 <= k < oc.len() implies #[trigger] oc[k] < n by {
            assert(s.nodes[p].children[k] < s.len());
        }
        assert(t.links_ok()) by {
            assert forall|i: int, k: int|
                0 <= i < t.len() && 0 <= k < t.nodes[i].children.len() implies {
                let c = #[trigger] t.nodes[i].children[k];
                i < c < t.len() && t.parent_is(c as int, i)
            } by {
                if i == p && k == oc.len() {
                } else {
                    let c = s.nodes[i].children[k];
                    assert(i < c < s.len() && s.parent_is(c as int, i));
                }
            }
        }
        assert(t.children_sorted()) by {
            assert forall|i: int, k: int, l: int|
                0 <= i < t.len() && 0 <= k < l < t.nodes[i].children.len() implies #[trigger] t.nodes[i].children[k]
                < #[trigger] t.nodes[i].children[l] by {
                if i == p && l == oc.len() {
                    assert(oc[k] < n);
                } else {
                    assert(s.nodes[i].children[k] < s.nodes[i].children[l]);
                }
            }
        }
        assert(t.parents_older()) by {
            assert forall|c: int| 0 <= c < t.len() implies ((#[trigger] t.nodes[c]).parent matches Some(
                q,
            ) ==> q < c) by {
                if c < n {
                    assert(s.nodes[c].parent matches Some(q) ==> q < c);
                }
            }
        }
        assert(t.live_attached()) by {
            assert forall|c: int| 0 <= c < t.len() && !(#[trigger] t.nodes[c]).disposed implies (
            t.nodes[c].parent matches Some(q) ==> has_child(t.nodes[q as int].children, c)) by {
                if c < n {
                    match s.nodes[c].parent {
                        Some(q) => {
                            assert(q < c);
                            let sc = s.nodes[q as int].children;
                            assert(has_child(sc, c));
                            let k = choose|k: int| 0 <= k < sc.len() && #[trigger] sc[k] == c;
                            assert(t.nodes[q as int].children[k] == c);
                        },
                        None => {},
                    }
                } else {
                    assert(t.nodes[p].children[oc.len() as int] == c);
                }
            }
        }
        assert(t.disposed_empty()) by {
            assert forall|i: int| 0 <= i < t.len() && (#[trigger] t.nodes[i]).disposed implies t.nodes[i].callbacks.len()
                == 0 && t.nodes[i].children.len() == 0 by {
                if i < n {
                    assert(s.nodes[i].disposed);
                }
            }
        }
        assert(t.disposed_downward()) by {
            assert forall|c: int| 0 <= c < t.len() implies ((#[trigger] t.nodes[c]).parent matches Some(
                q,
            ) ==> t.nodes[q as int].disposed ==> t.nodes[c].disposed) by {
                if c < n {
                    assert(s.nodes[c].parent matches Some(q) ==> q < c && (
                    s.nodes[q as int].disposed ==> s.nodes[c].disposed));
                }
            }
        }
        assert(t.attached_live_except(-1)) by {
            assert forall|i: int, k: int|
                0 <= i < t.len() && 0 <= k < t.nodes[i].children.len() implies {
                let c = #[trigger] t.nodes[i].children[k];
                c != -1 ==> !t.nodes[c as int].disposed
            } by {
                if i == p && k == oc.len() {
                } else {
                    let c = s.nodes[i].children[k];
                    assert(i < c < s.len() && !s.nodes[c as int].disposed);
                }
            }
        }
    }
}

/// Registering a cleanup callback keeps the tree well-formed.
pub proof fn lemma_register_cleanup_keeps_wf<C>(s: ScopesView<C>, id: int, callback: C)
    requires
        s.wf(),
    ensures
        s.register_cleanup(id, callback).wf(),
{
    if s.is_live(id) {
        let t = s.register_cleanup(id, callback);
        assert forall|x: int| 0 <= x < s.len() implies (#[trigger] t.nodes[x]).parent
            == s.nodes[x].parent && t.nodes[x].disposed == s.nodes[x].disposed
            && t.nodes[x].children == s.nodes[x].children && (x != id ==> t.nodes[x].callbacks
            == s.nodes[x].callbacks) by {}
        assert(t.links_ok()) by {
            assert forall|i: int, k: int|
                0 <= i < t.len() && 0 <= k < t.nodes[i].children.len() implies {
                let c = #[trigger] t.nodes[i].children[k];
                i < c < t.len() && t.parent_is(c as int, i)
            } by {
                let c = s.nodes[i].children[k];
                assert(i < c < s.len() && s.parent_is(c as int, i));
            }
        }
        assert(t.children_sorted()) by {
            assert forall|i: int, k: int, l: int|
                0 <= i < t.len() && 0 <= k < l < t.nodes[i].children.len() implies #[trigger] t.nodes[i].children[k]
                < #[trigger] t.nodes[i].children[l] by {
                assert(s.nodes[i].children[k] < s.nodes[i].children[l]);
            }
        }
        assert(t.parents_older()) by {
            assert forall|c: int| 0 <= c < t.len() implies ((#[trigger] t.nodes[c]).parent matches Some(
                q,
            ) ==> q < c) by {
                assert(s.nodes[c].parent matches Some(q) ==> q < c);
            }
        }
        assert(t.live_attached()) by {
            assert forall|c: int| 0 <= c < t.len() && !(#[trigger] t.nodes[c]).disposed implies (
            t.nodes[c].parent matches Some(q) ==> has_child(t.nodes[q as int].children, c)) by {
                assert(s.nodes[c].parent matches Some(q) ==> q < c && has_child(
                    s.nodes[q as int].children,
                    c,
                ));
            }
        }
        assert(t.disposed_empty()) by {
            assert forall|i: int| 0 <= i < t.len() && (#[trigger] t.nodes[i]).disposed implies t.nodes[i].callbacks.len()
                == 0 && t.nodes[i].children.len() == 0 by {
                assert(s.nodes[i].disposed);
            }
        }
        assert(t.disposed_downward()) by {
            assert forall|c: int| 0 <= c < t.len() implies ((#[trigger] t.nodes[c]).parent matches Some(
                q,
            ) ==> t.nodes[q as int].disposed ==> t.nodes[c].disposed) by {
                assert(s.nodes[c].parent matches Some(q) ==> q < c && (s.nodes[q as int].disposed
                    ==> s.nodes[c].disposed));
            }
        }
        assert(t.attached_live_except(-1)) by {
            assert forall|i: int, k: int|
                0 <= i < t.len() && 0 <= k < t.nodes[i].children.len() implies {
                let c = #[trigger] t.nodes[i].children[k];
                c != -1 ==> !t.nodes[c as int].disposed
            } by {
                let c = s.nodes[i].children[k];
                assert(i < c < s.len() && !s.nodes[c as int].disposed);
            }
        }
    }
}

} // verus!
