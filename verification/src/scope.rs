//! Cancellation scopes: a tree of irreversible flags.

use vstd::prelude::*;

verus! {

/// What a tree of scopes is, as a mathematical value: for every node its
/// parent, if it has one, and whether it is cancelled.
pub struct TreeState {
    pub parents: Seq<Option<int>>,
    pub cancelled: Seq<bool>,
}

/// The node `n` is `a` itself or lies below it.
pub open spec fn below(parents: Seq<Option<int>>, n: int, a: int) -> bool
    decreases n,
{
    n == a || (0 <= n < parents.len() && match parents[n] {
        Some(p) => 0 <= p < n && below(parents, p, a),
        None => false,
    })
}

impl TreeState {
    pub open spec fn contains(self, n: int) -> bool {
        0 <= n < self.parents.len()
    }

    /// Every node came after its parent, and a node whose parent is cancelled
    /// is cancelled.
    pub open spec fn wf(self) -> bool {
        &&& self.cancelled.len() == self.parents.len()
        &&& forall|n: int|
            0 <= n < self.parents.len() ==> match #[trigger] self.parents[n] {
                Some(p) => 0 <= p < n && (self.cancelled[p] ==> self.cancelled[n]),
                None => true,
            }
    }

    pub open spec fn empty() -> Self {
        TreeState { parents: Seq::empty(), cancelled: Seq::empty() }
    }

    /// With one more node: a root, which is not cancelled.
    pub open spec fn with_root(self) -> Self {
        TreeState { parents: self.parents.push(None), cancelled: self.cancelled.push(false) }
    }

    /// With one more node below `parent`, born cancelled exactly when
    /// `parent` is cancelled.
    pub open spec fn with_child(self, parent: int) -> Self {
        TreeState {
            parents: self.parents.push(Some(parent)),
            cancelled: self.cancelled.push(self.cancelled[parent]),
        }
    }

    /// With each of `nodes` cancelled, and everything below them.
    pub open spec fn cancel_all(self, nodes: Set<int>) -> Self {
        TreeState {
            parents: self.parents,
            cancelled: Seq::new(
                self.cancelled.len(),
                |n: int|
                    self.cancelled[n] || exists|a: int|
                        nodes.contains(a) && #[trigger] below(self.parents, n, a),
            ),
        }
    }

    /// This tree is `earlier` after some more steps: the nodes of `earlier`
    /// are there with the parents they had, and what was cancelled is.
    pub open spec fn extends(self, earlier: Self) -> bool {
        &&& earlier.parents.len() <= self.parents.len()
        &&& forall|n: int|
            0 <= n < earlier.parents.len() ==> #[trigger] self.parents[n] == earlier.parents[n]
        &&& forall|n: int|
            0 <= n < earlier.parents.len() && earlier.cancelled[n] ==> #[trigger] self.cancelled[n]
    }

    /// With `node` cancelled, and everything below it.
    pub open spec fn cancel(self, node: int) -> Self {
        TreeState {
            parents: self.parents,
            cancelled: Seq::new(
                self.cancelled.len(),
                |n: int| self.cancelled[n] || below(self.parents, n, node),
            ),
        }
    }
}

/// A node below another came after it.
pub proof fn lemma_below_is_later(parents: Seq<Option<int>>, n: int, a: int)
    requires
        below(parents, n, a),
    ensures
        a <= n,
    decreases n,
{
    if n != a {
        lemma_below_is_later(parents, parents[n].unwrap(), a);
    }
}

/// Two different nodes with the same parent are not below one another.
pub proof fn lemma_siblings_are_apart(tree: TreeState, n: int, m: int, parent: int)
    requires
        tree.wf(),
        tree.contains(n),
        tree.contains(m),
        tree.parents[n] == Some(parent),
        tree.parents[m] == Some(parent),
        n != m,
    ensures
        !below(tree.parents, n, m),
{
    if below(tree.parents, parent, m) {
        lemma_below_is_later(tree.parents, parent, m);
    }
}

/// What lies below a node lies below everything that the node lies below.
pub proof fn lemma_below_is_transitive(parents: Seq<Option<int>>, n: int, m: int, a: int)
    requires
        below(parents, n, m),
        below(parents, m, a),
    ensures
        below(parents, n, a),
    decreases n,
{
    if n != m {
        lemma_below_is_transitive(parents, parents[n].unwrap(), m, a);
    }
}

/// Every step keeps a tree well formed, and keeps what was there: nodes stay
/// with their parents, and nothing is un-cancelled.
pub proof fn lemma_tree_only_grows(tree: TreeState, node: int)
    requires
        tree.wf(),
        tree.contains(node),
    ensures
        tree.with_root().wf(),
        tree.with_root().extends(tree),
        tree.with_child(node).wf(),
        tree.with_child(node).extends(tree),
        tree.cancel(node).wf(),
        tree.cancel(node).extends(tree),
{
    let after = tree.cancel(node);
    assert forall|n: int| 0 <= n < after.parents.len() implies match #[trigger] after.parents[n] {
        Some(p) => 0 <= p < n && (after.cancelled[p] ==> after.cancelled[n]),
        None => true,
    } by {
        assert(tree.parents[n] == after.parents[n]);
    }
    let child = tree.with_child(node);
    assert forall|n: int| 0 <= n < child.parents.len() implies match #[trigger] child.parents[n] {
        Some(p) => 0 <= p < n && (child.cancelled[p] ==> child.cancelled[n]),
        None => true,
    } by {
        if n < tree.parents.len() {
            assert(tree.parents[n] == child.parents[n]);
        }
    }
    let root = tree.with_root();
    assert forall|n: int| 0 <= n < root.parents.len() implies match #[trigger] root.parents[n] {
        Some(p) => 0 <= p < n && (root.cancelled[p] ==> root.cancelled[n]),
        None => true,
    } by {
        if n < tree.parents.len() {
            assert(tree.parents[n] == root.parents[n]);
        }
    }
}

/// Cancelling a scope reaches exactly the scopes below it: these are
/// cancelled from then on, and every other scope is as it was. A scope made
/// below a cancelled one is born cancelled.
pub proof fn lemma_cancel_reaches_what_is_below(tree: TreeState, node: int, n: int)
    requires
        tree.wf(),
        tree.contains(node),
        tree.contains(n),
    ensures
        below(tree.parents, n, node) ==> tree.cancel(node).cancelled[n],
        !below(tree.parents, n, node) ==> tree.cancel(node).cancelled[n] == tree.cancelled[n],
        tree.cancel(node).cancelled[node],
        tree.cancel(node).with_child(n).cancelled[tree.parents.len() as int] == tree.cancel(
            node,
        ).cancelled[n],
{
}

/// The parent of a node is not below the node.
pub proof fn lemma_parent_is_above(tree: TreeState, n: int, parent: int)
    requires
        tree.wf(),
        tree.contains(n),
        tree.parents[n] == Some(parent),
    ensures
        !below(tree.parents, parent, n),
{
    if below(tree.parents, parent, n) {
        lemma_below_is_later(tree.parents, parent, n);
    }
}

/// Cancelling no node changes nothing.
pub proof fn lemma_cancel_all_of_none(tree: TreeState)
    requires
        tree.wf(),
    ensures
        tree.cancel_all(Set::empty()) == tree,
{
    assert(tree.cancel_all(Set::empty()).cancelled =~= tree.cancelled);
}

/// Cancelling one node is cancelling the set that holds it alone, and
/// cancelling one more node after a set is cancelling the larger set.
pub proof fn lemma_cancel_all_one_more(tree: TreeState, nodes: Set<int>, node: int)
    ensures
        tree.cancel(node) == tree.cancel_all(set![node]),
        tree.cancel_all(nodes).cancel(node) == tree.cancel_all(nodes.insert(node)),
{
    assert(tree.cancel(node).cancelled =~= tree.cancel_all(set![node]).cancelled) by {
        assert forall|n: int| 0 <= n < tree.cancelled.len() implies tree.cancel(node).cancelled[n]
            == tree.cancel_all(set![node]).cancelled[n] by {
            if below(tree.parents, n, node) {
                assert(set![node].contains(node));
            }
        }
    }
    assert(tree.cancel_all(nodes).cancel(node).cancelled =~= tree.cancel_all(
        nodes.insert(node),
    ).cancelled) by {
        assert forall|n: int| 0 <= n < tree.cancelled.len() implies tree.cancel_all(nodes).cancel(
            node,
        ).cancelled[n] == tree.cancel_all(nodes.insert(node)).cancelled[n] by {
            if below(tree.parents, n, node) {
                assert(nodes.insert(node).contains(node));
            }
            if exists|a: int| nodes.contains(a) && #[trigger] below(tree.parents, n, a) {
                let a = choose|a: int| nodes.contains(a) && #[trigger] below(tree.parents, n, a);
                assert(nodes.insert(node).contains(a));
            }
        }
    }
}

/// Among the children of one node, cancelling some of them cancels exactly
/// those, and leaves the parent as it is.
pub proof fn lemma_cancel_all_among_children(tree: TreeState, parent: int, gone: Set<int>, n: int)
    requires
        tree.wf(),
        tree.contains(parent),
        tree.contains(n),
        tree.parents[n] == Some(parent),
        forall|a: int| gone.contains(a) ==> tree.contains(a) && #[trigger] tree.parents[a] == Some(parent),
    ensures
        tree.cancel_all(gone).cancelled[n] == (tree.cancelled[n] || gone.contains(n)),
        tree.cancel_all(gone).cancelled[parent] == tree.cancelled[parent],
{
    assert forall|a: int| gone.contains(a) implies !below(tree.parents, parent, a) && (a != n
        ==> !below(tree.parents, n, a)) by {
        lemma_parent_is_above(tree, a, parent);
        if a != n {
            lemma_siblings_are_apart(tree, n, a, parent);
        }
    }
    if gone.contains(n) {
        assert(below(tree.parents, n, n));
    }
}

/// A handle to one node of a [`CancellationTree`]. Two handles are equal
/// when they are handles to the same node.
#[derive(Clone, Copy, Debug, PartialEq, Eq, Structural)]
pub struct Scope {
    node: usize,
}

impl Scope {
    /// The node's place in the tree.
    pub closed spec fn node(self) -> int {
        self.node as int
    }
}

struct Node {
    parent: Option<usize>,
    cancelled: bool,
}

/// A tree of cancellation scopes.
///
/// Cancelling a scope cancels it and every scope below it, those that exist
/// and those made later. Nothing is ever un-cancelled.
pub struct CancellationTree {
    nodes: Vec<Node>,
}

impl View for CancellationTree {
    type V = TreeState;

    closed spec fn view(&self) -> TreeState {
        TreeState {
            parents: Seq::new(
                self.nodes@.len(),
                |n: int|
                    match self.nodes@[n].parent {
                        Some(p) => Some(p as int),
                        None => None,
                    },
            ),
            cancelled: Seq::new(self.nodes@.len(), |n: int| self.nodes@[n].cancelled),
        }
    }
}

impl CancellationTree {
    /// A tree without a scope.
    pub fn new() -> (tree: Self)
        ensures
            tree@ == TreeState::empty(),
            tree@.wf(),
    {
        let tree = CancellationTree { nodes: Vec::new() };
        proof {
            assert(tree@.parents =~= Seq::<Option<int>>::empty());
            assert(tree@.cancelled =~= Seq::<bool>::empty());
        }
        tree
    }

    /// Adds a root scope: no parent, not cancelled.
    pub fn root(&mut self) -> (scope: Scope)
        requires
            old(self)@.wf(),
        ensures
            final(self)@ == old(self)@.with_root(),
            final(self)@.wf(),
            scope.node() == old(self)@.parents.len(),
    {
        self.nodes.push(Node { parent: None, cancelled: false });
        proof {
            assert(self@.parents =~= old(self)@.with_root().parents);
            assert(self@.cancelled =~= old(self)@.with_root().cancelled);
        }
        Scope { node: self.nodes.len() - 1 }
    }

    /// Adds a scope below `parent`. It is born cancelled exactly when
    /// `parent` is cancelled already.
    pub fn child(&mut self, parent: Scope) -> (scope: Scope)
        requires
            old(self)@.wf(),
            old(self)@.contains(parent.node()),
        ensures
            final(self)@ == old(self)@.with_child(parent.node()),
            final(self)@.wf(),
            scope.node() == old(self)@.parents.len(),
    {
        let cancelled = self.nodes[parent.node].cancelled;
        self.nodes.push(Node { parent: Some(parent.node), cancelled });
        proof {
            assert(self@.parents =~= old(self)@.with_child(parent.node()).parents);
            assert(self@.cancelled =~= old(self)@.with_child(parent.node()).cancelled);
        }
        Scope { node: self.nodes.len() - 1 }
    }

    /// Cancels `scope` and every scope below it. There is no way back.
    pub fn cancel(&mut self, scope: Scope)
        requires
            old(self)@.wf(),
            old(self)@.contains(scope.node()),
        ensures
            final(self)@ == old(self)@.cancel(scope.node()),
            final(self)@.wf(),
    {
        let ghost before = self@;
        let n = self.nodes.len();
        let mut i: usize = 0;
        while i < n
            invariant
                before == old(self)@,
                before.wf(),
                i <= n,
                n == self.nodes@.len(),
                n == before.parents.len(),
                self@.parents == before.parents,
                forall|j: int|
                    0 <= j < i ==> (#[trigger] self.nodes@[j].cancelled <==> before.cancelled[j]
                        || below(before.parents, j, scope.node())),
                forall|j: int| i <= j < n ==> #[trigger] self.nodes@[j].cancelled == before.cancelled[j],
            decreases n - i,
        {
            let reached = i == scope.node || match self.nodes[i].parent {
                Some(p) => {
                    assert(before.parents[i as int] == Some(p as int));
                    self.nodes[p].cancelled
                },
                None => false,
            };
            assert(before.parents[i as int] == self@.parents[i as int]);
            if reached {
                let parent = self.nodes[i].parent;
                self.nodes.set(i, Node { parent, cancelled: true });
            }
            proof {
                assert(self@.parents =~= before.parents);
            }
            i += 1;
        }
        proof {
            assert(self@.cancelled =~= before.cancel(scope.node()).cancelled);
            let after = self@;
            assert forall|m: int| 0 <= m < after.parents.len() implies match #[trigger] after.parents[m] {
                Some(p) => 0 <= p < m && (after.cancelled[p] ==> after.cancelled[m]),
                None => true,
            } by {
                assert(before.parents[m] == after.parents[m]);
            }
        }
    }

    /// Whether `scope` is cancelled.
    #[must_use]
    pub fn is_cancelled(&self, scope: Scope) -> (cancelled: bool)
        requires
            self@.contains(scope.node()),
        ensures
            cancelled == self@.cancelled[scope.node()],
    {
        self.nodes[scope.node].cancelled
    }
}

} // verus!
