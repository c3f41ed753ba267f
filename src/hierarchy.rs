use vstd::prelude::*;
use crate::transform::{Transform, compose_spec, identity_spec};

verus! {

/// Why a structural edit was refused.
#[derive(Clone, Copy, Debug, PartialEq, Eq, Structural)]
pub enum HierarchyError {
    /// The new parent is the node itself or one of its descendants.
    CycleError,
    /// A node handle does not name a node of this hierarchy.
    UnknownNode,
    /// The parent and children tables disagree, or hold a handle out of
    /// range.
    CorruptHierarchyError,
}

/// Arena of scene nodes addressed by index, with the child-to-parent and
/// parent-to-children tables kept side by side.
pub struct Hierarchy {
    pub locals: Vec<Transform>,
    pub globals: Vec<Transform>,
    pub parents: Vec<Option<usize>>,
    pub children: Vec<Vec<usize>>,
    pub tree_dirty: Vec<bool>,
    pub local_changed: Vec<bool>,
}

impl Hierarchy {
    pub open spec fn len_spec(&self) -> nat {
        self.locals@.len()
    }

    pub open spec fn parent_of(&self, n: int) -> Option<usize> {
        self.parents@[n]
    }

    pub open spec fn kids(&self, n: int) -> Seq<usize> {
        self.children@[n]@
    }

    pub open spec fn dirty(&self, n: int) -> bool {
        self.tree_dirty@[n]
    }

    pub open spec fn changed(&self, n: int) -> bool {
        self.local_changed@[n]
    }

    /// Every table has one entry per node.
    pub open spec fn sized(&self) -> bool {
        &&& self.globals@.len() == self.len_spec()
        &&& self.parents@.len() == self.len_spec()
        &&& self.children@.len() == self.len_spec()
        &&& self.tree_dirty@.len() == self.len_spec()
        &&& self.local_changed@.len() == self.len_spec()
    }

    /// The tables are sized (and their length fits a handle), every handle in them is in range, no child is
    /// listed twice, and the two tables agree: `c` names `p` as its parent
    /// exactly when `p` lists `c` among its children.
    pub open spec fn wf(&self) -> bool {
        &&& self.sized()
        &&& self.len_spec() <= usize::MAX
        &&& forall|n: int| 0 <= n < self.len_spec() ==>
            (#[trigger] self.parent_of(n) matches Some(p) ==> p < self.len_spec())
        &&& forall|n: int| 0 <= n < self.len_spec() ==> (#[trigger] self.kids(n)).no_duplicates()
        &&& forall|n: int, k: int| 0 <= n < self.len_spec() && 0 <= k < self.kids(n).len()
            ==> #[trigger] self.kids(n)[k] < self.len_spec()
        &&& forall|p: usize, c: usize| p < self.len_spec() && c < self.len_spec() ==>
            (self.parent_of(c as int) == Some(p) <==> #[trigger] self.kids(p as int).contains(c))
    }

    /// A node that takes part in no parent/child relation.
    pub open spec fn unattached(&self, n: int) -> bool {
        self.parent_of(n) is None && self.kids(n).len() == 0
    }

    /// The defining equation of a global transform holds at `n`: a root sits
    /// at its local transform, any other node at its parent's global
    /// transform composed with its own local one.
    pub open spec fn consistent_at(&self, n: int) -> bool {
        match self.parent_of(n) {
            None => self.globals@[n] == self.locals@[n],
            Some(p) => self.globals@[n] == compose_spec(self.globals@[p as int], self.locals@[n]),
        }
    }

    /// The node reached from `n` by following `k` parent links, if any.
    pub open spec fn ancestor_at(&self, n: int, k: nat) -> Option<usize>
        decreases k,
    {
        if k == 0 {
            if 0 <= n < self.len_spec() { Some(n as usize) } else { None }
        } else {
            match self.ancestor_at(n, (k - 1) as nat) {
                Some(a) => if a < self.parents@.len() { self.parents@[a as int] } else { None },
                None => None,
            }
        }
    }

    /// `a` lies on the parent chain of `n` within `len` links (`n` itself
    /// included); a chain longer than the node count must repeat a node.
    pub open spec fn on_chain(&self, a: int, n: int) -> bool {
        exists|k: nat| k <= self.len_spec() && #[trigger] self.ancestor_at(n, k) == Some(a as usize)
    }

    /// `n` is reached again by following its own parent links.
    pub open spec fn in_cycle(&self, n: int) -> bool {
        exists|k: nat| 1 <= k <= self.len_spec() && #[trigger] self.ancestor_at(n, k) == Some(n as usize)
    }

    /// Following parent links from `n` leaves the hierarchy after finitely
    /// many steps.
    pub open spec fn chain_ends(&self, n: int) -> bool {
        exists|k: nat| (#[trigger] self.ancestor_at(n, k)) is None
    }

    /// Every parent chain ends at a root.
    pub open spec fn acyclic(&self) -> bool {
        forall|n: int| 0 <= n < self.len_spec() ==> #[trigger] self.chain_ends(n)
    }

    /// Between passes: every node whose flags are both clear satisfies its
    /// defining equation.
    pub open spec fn settled(&self) -> bool {
        forall|n: int| 0 <= n < self.len_spec() && !self.dirty(n) && !self.changed(n)
            ==> #[trigger] self.consistent_at(n)
    }

    /// A dirty node's children are dirty too.
    pub open spec fn dirty_closed(&self) -> bool {
        forall|p: int, k: int| 0 <= p < self.len_spec() && 0 <= k < self.kids(p).len() && self.dirty(p)
            ==> self.dirty(#[trigger] self.kids(p)[k] as int)
    }

    /// An empty hierarchy.
    pub fn new() -> (r: Hierarchy)
        ensures
            r.wf(),
            r.len_spec() == 0,
            r.settled(),
            r.acyclic(),
    {
        Hierarchy {
            locals: Vec::new(),
            globals: Vec::new(),
            parents: Vec::new(),
            children: Vec::new(),
            tree_dirty: Vec::new(),
            local_changed: Vec::new(),
        }
    }

    /// The number of nodes.
    pub fn len(&self) -> (r: usize)
        ensures
            r == self.len_spec(),
    {
        self.locals.len()
    }

    /// Creates an unattached node at `local`, flagged as changed so that the
    /// next pass gives it a global transform; returns its handle.
    pub fn add_node(&mut self, local: Transform) -> (r: usize)
        requires
            old(self).wf(),
            old(self).len_spec() < usize::MAX,
        ensures
            final(self).wf(),
            r == old(self).len_spec(),
            final(self).locals@ == old(self).locals@.push(local),
            final(self).globals@ == old(self).globals@.push(identity_spec()),
            final(self).parents@ == old(self).parents@.push(None),
            final(self).children@.len() == r + 1,
            forall|n: int| 0 <= n < r ==> #[trigger] final(self).kids(n) == old(self).kids(n),
            final(self).kids(r as int) == Seq::<usize>::empty(),
            final(self).tree_dirty@ == old(self).tree_dirty@.push(false),
            final(self).local_changed@ == old(self).local_changed@.push(true),
            old(self).settled() ==> final(self).settled(),
            old(self).acyclic() ==> final(self).acyclic(),
    {
        let r = self.locals.len();
        self.locals.push(local);
        self.globals.push(Transform::identity());
        self.parents.push(None);
        self.children.push(Vec::new());
        self.tree_dirty.push(false);
        self.local_changed.push(true);
        proof {
            assert forall|n: int| 0 <= n < self.len_spec() implies
                (#[trigger] self.parent_of(n) matches Some(p) ==> p < self.len_spec()) by {
                if n < r {
                    assert(old(self).parent_of(n) == self.parent_of(n));
                }
            }
            assert forall|n: int| 0 <= n < self.len_spec() implies (#[trigger] self.kids(n)).no_duplicates() by {
                if n < r {
                    assert(old(self).kids(n) == self.kids(n));
                }
            }
            assert forall|n: int, k: int| 0 <= n < self.len_spec() && 0 <= k < self.kids(n).len()
                implies #[trigger] self.kids(n)[k] < self.len_spec() by {
                assert(old(self).kids(n) == self.kids(n));
            }
            assert forall|p: usize, c: usize| p < self.len_spec() && c < self.len_spec() implies
                (self.parent_of(c as int) == Some(p) <==> #[trigger] self.kids(p as int).contains(c)) by {
                if p < r && c < r {
                    assert(self.kids(p as int) == old(self).kids(p as int));
                    assert(self.parent_of(c as int) == old(self).parent_of(c as int));
                } else if p == r {
                    assert(!self.kids(p as int).contains(c));
                } else {
                    assert(self.kids(p as int) == old(self).kids(p as int));
                    if old(self).kids(p as int).contains(c) {
                        let k = choose|k: int| 0 <= k < old(self).kids(p as int).len() && old(self).kids(p as int)[k] == c;
                        assert(old(self).kids(p as int)[k] < r);
                    }
                }
            }
            if old(self).settled() {
                assert forall|m: int| 0 <= m < self.len_spec() && !self.dirty(m) && !self.changed(m)
                    implies #[trigger] self.consistent_at(m) by {
                    assert(old(self).consistent_at(m));
                    if let Some(q) = old(self).parent_of(m) {
                        assert(q < r);
                    }
                }
            }
            if old(self).acyclic() {
                assert forall|m: int| 0 <= m < self.len_spec() implies #[trigger] self.chain_ends(m) by {
                    if m < r {
                        assert(old(self).chain_ends(m));
                        let k = choose|k: nat| (#[trigger] old(self).ancestor_at(m, k)) is None;
                        lemma_push_chain(*old(self), *self, m, k);
                    } else {
                        assert(self.ancestor_at(m, 0) == Some(r));
                        assert(self.ancestor_at(m, 1) is None);
                    }
                }
            }
        }
        r
    }

    /// The local transform of `n`.
    pub fn local(&self, n: usize) -> (r: Transform)
        requires
            n < self.len_spec(),
        ensures
            r == self.locals@[n as int],
    {
        self.locals[n]
    }

    /// The global transform of `n`, as of the last pass.
    pub fn global(&self, n: usize) -> (r: Transform)
        requires
            self.sized(),
            n < self.len_spec(),
        ensures
            r == self.globals@[n as int],
    {
        self.globals[n]
    }

    /// The parent of `n`, if any.
    pub fn parent(&self, n: usize) -> (r: Option<usize>)
        requires
            self.sized(),
            n < self.len_spec(),
        ensures
            r == self.parent_of(n as int),
    {
        self.parents[n]
    }

    /// Whether `n` is flagged for recomputation.
    pub fn is_tree_dirty(&self, n: usize) -> (r: bool)
        requires
            self.sized(),
            n < self.len_spec(),
        ensures
            r == self.dirty(n as int),
    {
        self.tree_dirty[n]
    }

    /// Whether `target` is reached from `from` by following between
    /// `min_k` and `len` parent links.
    pub fn chain_hits(&self, from: usize, target: usize, min_k: usize) -> (r: bool)
        requires
            self.wf(),
            from < self.len_spec(),
        ensures
            r == exists|k: nat| min_k <= k <= self.len_spec() && #[trigger] self.ancestor_at(from as int, k)
                == Some(target),
    {
        let n = self.parents.len();
        let mut cur: Option<usize> = Some(from);
        let mut k: usize = 0;
        while k < n
            invariant
                self.wf(),
                n == self.len_spec(),
                k <= n,
                cur == self.ancestor_at(from as int, k as nat),
                forall|j: nat| min_k <= j < k ==> #[trigger] self.ancestor_at(from as int, j) != Some(target),
            decreases n - k,
        {
            proof {
                lemma_chain_in_range(*self, from as int, k as nat);
            }
            match cur {
                None => {
                    proof {
                        assert forall|j: nat| min_k <= j <= self.len_spec() implies
                            #[trigger] self.ancestor_at(from as int, j) != Some(target) by {
                            if j >= k {
                                lemma_chain_stays_out(*self, from as int, k as nat, j);
                            }
                        }
                    }
                    return false;
                },
                Some(a) => {
                    if k >= min_k && a == target {
                        return true;
                    }
                    cur = self.parents[a];
                },
            }
            k = k + 1;
        }
        proof {
            assert forall|j: nat| min_k <= j <= self.len_spec() && j != k implies
                #[trigger] self.ancestor_at(from as int, j) != Some(target) by {}
        }
        k >= min_k && cur == Some(target)
    }

    /// Replaces the local transform of `n` and flags it as changed.
    pub fn set_local(&mut self, n: usize, local: Transform)
        requires
            old(self).wf(),
            n < old(self).len_spec(),
        ensures
            final(self).wf(),
            final(self).locals@ == old(self).locals@.update(n as int, local),
            final(self).local_changed@ == old(self).local_changed@.update(n as int, true),
            final(self).globals@ == old(self).globals@,
            final(self).parents@ == old(self).parents@,
            final(self).children@ == old(self).children@,
            final(self).tree_dirty@ == old(self).tree_dirty@,
            old(self).settled() ==> final(self).settled(),
            old(self).acyclic() ==> final(self).acyclic(),
    {
        self.locals.set(n, local);
        self.local_changed.set(n, true);
        proof {
            lemma_wf_same_structure(*old(self), *self);
            if old(self).acyclic() {
                assert forall|m: int| 0 <= m < self.len_spec() implies #[trigger] self.chain_ends(m) by {
                    assert(old(self).chain_ends(m));
                    let k = choose|k: nat| (#[trigger] old(self).ancestor_at(m, k)) is None;
                    lemma_same_chain(*old(self), *self, m, k);
                }
            }
            if old(self).settled() {
                assert forall|m: int| 0 <= m < self.len_spec() && !self.dirty(m) && !self.changed(m)
                    implies #[trigger] self.consistent_at(m) by {
                    assert(old(self).consistent_at(m));
                }
            }
        }
    }
}

/// Adding a root keeps the chains of the nodes already there.
pub proof fn lemma_push_chain(a: Hierarchy, b: Hierarchy, n: int, k: nat)
    requires
        a.wf(),
        0 <= n < a.len_spec(),
        b.len_spec() == a.len_spec() + 1,
        b.parents@ == a.parents@.push(None),
    ensures
        b.ancestor_at(n, k) == a.ancestor_at(n, k),
    decreases k,
{
    if k > 0 {
        lemma_push_chain(a, b, n, (k - 1) as nat);
        lemma_chain_in_range(a, n, (k - 1) as nat);
        if let Some(x) = a.ancestor_at(n, (k - 1) as nat) {
            assert(b.parents@[x as int] == a.parents@[x as int]);
        }
    }
}

/// Once a parent chain has left the hierarchy it stays out.
pub proof fn lemma_chain_stays_out(h: Hierarchy, n: int, k: nat, j: nat)
    requires
        h.ancestor_at(n, k) is None,
        k <= j,
    ensures
        h.ancestor_at(n, j) is None,
    decreases j - k,
{
    if k < j {
        lemma_chain_stays_out(h, n, k, (j - 1) as nat);
    }
}

/// Parent chains depend only on the parent table.
pub proof fn lemma_same_chain(a: Hierarchy, b: Hierarchy, n: int, k: nat)
    requires
        a.len_spec() == b.len_spec(),
        a.parents@ == b.parents@,
    ensures
        a.ancestor_at(n, k) == b.ancestor_at(n, k),
    decreases k,
{
    if k > 0 {
        lemma_same_chain(a, b, n, (k - 1) as nat);
    }
}

/// On a well-formed hierarchy every node of a chain is in range.
pub proof fn lemma_chain_in_range(h: Hierarchy, n: int, k: nat)
    requires
        h.wf(),
    ensures
        h.ancestor_at(n, k) matches Some(a) ==> a < h.len_spec(),
    decreases k,
{
    if k > 0 {
        lemma_chain_in_range(h, n, (k - 1) as nat);
        if let Some(a) = h.ancestor_at(n, (k - 1) as nat) {
            assert(h.parent_of(a as int) == h.parents@[a as int]);
        }
    }
}

/// Well-formedness depends only on the parent and children tables.
pub proof fn lemma_wf_same_structure(a: Hierarchy, b: Hierarchy)
    requires
        a.wf(),
        b.sized(),
        b.len_spec() == a.len_spec(),
        b.parents@ == a.parents@,
        b.children@ == a.children@,
    ensures
        b.wf(),
{
    assert forall|n: int| 0 <= n < b.len_spec() implies #[trigger] b.kids(n) == a.kids(n) by {}
    assert forall|n: int| 0 <= n < b.len_spec() implies
        (#[trigger] b.parent_of(n) matches Some(p) ==> p < b.len_spec()) by {
        assert(a.parent_of(n) == b.parent_of(n));
    }
    assert forall|n: int| 0 <= n < b.len_spec() implies (#[trigger] b.kids(n)).no_duplicates() by {
        assert(a.kids(n) == b.kids(n));
    }
    assert forall|n: int, k: int| 0 <= n < b.len_spec() && 0 <= k < b.kids(n).len()
        implies #[trigger] b.kids(n)[k] < b.len_spec() by {
        assert(a.kids(n) == b.kids(n));
    }
    assert forall|p: usize, c: usize| p < b.len_spec() && c < b.len_spec() implies
        (b.parent_of(c as int) == Some(p) <==> #[trigger] b.kids(p as int).contains(c)) by {
        assert(b.kids(p as int) == a.kids(p as int));
    }
}

} // verus!
