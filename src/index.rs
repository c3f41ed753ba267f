use vstd::prelude::*;
use crate::acyclic::lemma_reparent_keeps_acyclic;
use crate::hierarchy::{Hierarchy, HierarchyError};

verus! {

/// `s` without its occurrence of `x`, if it has one.
pub open spec fn without(s: Seq<usize>, x: usize) -> Seq<usize> {
    if s.contains(x) {
        s.remove(s.index_of(x))
    } else {
        s
    }
}

proof fn lemma_without(s: Seq<usize>, x: usize)
    requires
        s.no_duplicates(),
    ensures
        without(s, x).no_duplicates(),
        forall|y: usize| #[trigger] without(s, x).contains(y) <==> s.contains(y) && y != x,
        forall|k: int| 0 <= k < without(s, x).len() ==> s.contains(#[trigger] without(s, x)[k]),
{
    if s.contains(x) {
        let i = s.index_of(x);
        let r = s.remove(i);
        assert(s[i] == x);
        assert forall|y: usize| #[trigger] r.contains(y) <==> s.contains(y) && y != x by {
            if r.contains(y) {
                let j = choose|j: int| 0 <= j < r.len() && r[j] == y;
                if j < i {
                    assert(s[j] == y);
                } else {
                    assert(s[j + 1] == y);
                }
            }
            if s.contains(y) && y != x {
                let j = choose|j: int| 0 <= j < s.len() && s[j] == y;
                if j < i {
                    assert(r[j] == y);
                } else {
                    assert(j != i);
                    assert(r[j - 1] == y);
                }
            }
        }
        assert forall|k: int| 0 <= k < r.len() implies s.contains(#[trigger] r[k]) by {
            if k < i {
                assert(s[k] == r[k]);
            } else {
                assert(s[k + 1] == r[k]);
            }
        }
        assert forall|a: int, b: int| 0 <= a < r.len() && 0 <= b < r.len() && a != b implies r[a] != r[b] by {
            let a2 = if a < i { a } else { a + 1 };
            let b2 = if b < i { b } else { b + 1 };
            assert(r[a] == s[a2]);
            assert(r[b] == s[b2]);
        }
    }
}

impl Hierarchy {
    /// `after` is `self` with `node` moved under `new_parent` and flagged as
    /// changed.
    pub open spec fn reparented(&self, after: Hierarchy, node: usize, new_parent: usize) -> bool {
        &&& after.len_spec() == self.len_spec()
        &&& after.parents@ == self.parents@.update(node as int, Some(new_parent))
        &&& after.local_changed@ == self.local_changed@.update(node as int, true)
        &&& after.locals@ == self.locals@
        &&& after.globals@ == self.globals@
        &&& after.tree_dirty@ == self.tree_dirty@
        &&& forall|m: int| 0 <= m < self.len_spec() ==> #[trigger] after.kids(m) == if m == new_parent {
            without(self.kids(m), node).push(node)
        } else {
            without(self.kids(m), node)
        }
    }

    /// The roots, in handle order: the nodes without a parent, from which
    /// propagation starts.
    pub fn roots(&self) -> (r: Vec<usize>)
        requires
            self.wf(),
        ensures
            forall|j: int| 0 <= j < r@.len() ==> #[trigger] r@[j] < self.len_spec(),
            forall|j: int, k: int| 0 <= j < k < r@.len() ==> r@[j] < r@[k],
            forall|n: usize| n < self.len_spec() ==> (#[trigger] r@.contains(n) <==> self.parent_of(n as int) is None),
    {
        let n = self.len();
        let mut r: Vec<usize> = Vec::new();
        let mut i: usize = 0;
        while i < n
            invariant
                self.wf(),
                n == self.len_spec(),
                i <= n,
                forall|j: int| 0 <= j < r@.len() ==> #[trigger] r@[j] < i,
                forall|j: int, k: int| 0 <= j < k < r@.len() ==> r@[j] < r@[k],
                forall|m: usize| m < i ==> (#[trigger] r@.contains(m) <==> self.parent_of(m as int) is None),
            decreases n - i,
        {
            let ghost r0 = r@;
            if self.parents[i].is_none() {
                r.push(i);
                proof {
                    assert(r@[r@.len() - 1] == i);
                    assert forall|m: usize| m < i + 1 implies (#[trigger] r@.contains(m) <==> self.parent_of(m as int) is None) by {
                        if m < i {
                            if r0.contains(m) {
                                let j = choose|j: int| 0 <= j < r0.len() && r0[j] == m;
                                assert(r@[j] == m);
                            }
                            if r@.contains(m) {
                                let j = choose|j: int| 0 <= j < r@.len() && r@[j] == m;
                                assert(j < r0.len());
                                assert(r0[j] == m);
                            }
                        }
                    }
                }
            } else {
                proof {
                    assert(!r@.contains(i)) by {
                        if r@.contains(i) {
                            let j = choose|j: int| 0 <= j < r@.len() && r@[j] == i;
                            assert(r@[j] < i);
                        }
                    }
                }
            }
            i = i + 1;
        }
        r
    }

    /// Makes `new_parent` the parent of `node`: `node` leaves its old
    /// parent's children and goes last among `new_parent`'s, and it is
    /// flagged as changed.  Refused, with nothing changed, when a handle is
    /// unknown or when `new_parent` is `node` or one of its descendants.
    pub fn set_parent(&mut self, node: usize, new_parent: usize) -> (r: Result<(), HierarchyError>)
        requires
            old(self).wf(),
        ensures
            final(self).wf(),
            r == Err::<(), HierarchyError>(HierarchyError::UnknownNode) <==> (node >= old(self).len_spec()
                || new_parent >= old(self).len_spec()),
            r == Err::<(), HierarchyError>(HierarchyError::CycleError) <==> (node < old(self).len_spec()
                && new_parent < old(self).len_spec() && old(self).on_chain(node as int, new_parent as int)),
            r is Ok <==> (node < old(self).len_spec() && new_parent < old(self).len_spec() && !old(self).on_chain(
                node as int,
                new_parent as int,
            )),
            r is Err ==> *final(self) == *old(self),
            r is Ok ==> old(self).reparented(*final(self), node, new_parent),
            r is Ok && old(self).acyclic() ==> final(self).acyclic(),
            old(self).settled() ==> final(self).settled(),
    {
        let n = self.len();
        if node >= n || new_parent >= n {
            return Err(HierarchyError::UnknownNode);
        }
        if self.chain_hits(new_parent, node, 0) {
            return Err(HierarchyError::CycleError);
        }
        let ghost o = *self;
        assert(o.ancestor_at(new_parent as int, 0) == Some(new_parent));
        assert(node != new_parent);
        match self.parents[node] {
            Some(p) => {
                assert(o.parent_of(node as int) == Some(p));
                assert(p < n);
                assert(o.kids(p as int).contains(node));
                let len = self.children[p].len();
                let mut i: usize = 0;
                while i < len
                    invariant
                        o.wf(),
                        len == o.kids(p as int).len(),
                        self.children@ == o.children@,
                        p < n,
                        n == o.len_spec(),
                        o.kids(p as int).contains(node),
                        forall|j: int| 0 <= j < i ==> o.kids(p as int)[j] != node,
                        i <= len,
                    ensures
                        i < len && o.kids(p as int)[i as int] == node,
                    decreases len - i,
                {
                    if self.children[p][i] == node {
                        break;
                    }
                    i = i + 1;
                }
                proof {
                    let s = o.kids(p as int);
                    assert(s.no_duplicates());
                    assert(s[s.index_of(node)] == node);
                    assert(s.index_of(node) == i as int);
                }
                self.children[p].remove(i);
            },
            None => {},
        }
        self.children[new_parent].push(node);
        self.parents.set(node, Some(new_parent));
        self.local_changed.set(node, true);
        proof {
            assert forall|m: int| 0 <= m < o.len_spec() implies #[trigger] self.kids(m) == if m == new_parent {
                without(o.kids(m), node).push(node)
            } else {
                without(o.kids(m), node)
            } by {
                if o.parent_of(node as int) != Some(m as usize) {
                    assert(!o.kids(m).contains(node));
                }
            }
            assert forall|m: int, y: usize| 0 <= m < n implies (#[trigger] self.kids(m).contains(y) <==> (o.kids(
                m,
            ).contains(y) && y != node) || (m == new_parent && y == node)) by {
                lemma_without(o.kids(m), node);
                let w = without(o.kids(m), node);
                assert(w.contains(y) <==> o.kids(m).contains(y) && y != node);
                if m == new_parent {
                    assert(self.kids(m) == w.push(node));
                    if self.kids(m).contains(y) {
                        let j = choose|j: int| 0 <= j < self.kids(m).len() && self.kids(m)[j] == y;
                        if j < w.len() {
                            assert(w[j] == y);
                        }
                    }
                    if w.contains(y) {
                        let j = choose|j: int| 0 <= j < w.len() && w[j] == y;
                        assert(self.kids(m)[j] == y);
                    }
                    if y == node {
                        assert(self.kids(m)[w.len() as int] == y);
                    }
                } else {
                    assert(self.kids(m) == w);
                }
            }
            assert forall|m: int| 0 <= m < n implies (#[trigger] self.kids(m)).no_duplicates() by {
                lemma_without(o.kids(m), node);
                let w = without(o.kids(m), node);
                if m == new_parent {
                    assert(self.kids(m) == w.push(node));
                    assert(!w.contains(node));
                    assert forall|a: int, b: int| 0 <= a < self.kids(m).len() && 0 <= b < self.kids(m).len() && a != b
                        implies self.kids(m)[a] != self.kids(m)[b] by {
                        if a < w.len() && b < w.len() {
                            assert(self.kids(m)[a] == w[a]);
                            assert(self.kids(m)[b] == w[b]);
                        } else if a < w.len() {
                            assert(self.kids(m)[a] == w[a]);
                            assert(self.kids(m)[b] == node);
                            assert(w.contains(w[a]));
                        } else {
                            assert(self.kids(m)[b] == w[b]);
                            assert(self.kids(m)[a] == node);
                            assert(w.contains(w[b]));
                        }
                    }
                } else {
                    assert(self.kids(m) == w);
                }
            }
            assert forall|m: int| 0 <= m < n implies
                (#[trigger] self.parent_of(m) matches Some(q) ==> q < self.len_spec()) by {
                assert(o.parent_of(m) matches Some(q) ==> q < o.len_spec());
            }
            assert forall|m: int, k: int| 0 <= m < n && 0 <= k < self.kids(m).len()
                implies #[trigger] self.kids(m)[k] < self.len_spec() by {
                assert(self.kids(m).contains(self.kids(m)[k]));
                if self.kids(m)[k] != node {
                    assert(o.kids(m).contains(self.kids(m)[k]));
                    let j = choose|j: int| 0 <= j < o.kids(m).len() && o.kids(m)[j] == self.kids(m)[k];
                    assert(o.kids(m)[j] < n);
                }
            }
            assert forall|q: usize, c: usize| q < self.len_spec() && c < self.len_spec() implies
                (self.parent_of(c as int) == Some(q) <==> #[trigger] self.kids(q as int).contains(c)) by {
                assert(self.kids(q as int).contains(c) <==> (o.kids(q as int).contains(c) && c != node) || (
                q as int == new_parent as int && c == node));
                if c != node {
                    assert(self.parent_of(c as int) == o.parent_of(c as int));
                }
            }
            if o.settled() {
                assert forall|m: int| 0 <= m < n && !self.dirty(m) && !self.changed(m)
                    implies #[trigger] self.consistent_at(m) by {
                    assert(m != node);
                    assert(o.consistent_at(m));
                    assert(self.parent_of(m) == o.parent_of(m));
                }
            }
        }
        proof {
            if o.acyclic() {
                lemma_reparent_keeps_acyclic(o, *self, node, new_parent);
            }
        }
        Ok(())
    }

    /// Detaches `node` from its parent, if it has one: it leaves the
    /// parent's children, becomes a root with its subtree below it, and is
    /// flagged as changed.  Refused, with nothing changed, when the handle
    /// is unknown.
    pub fn remove_parent(&mut self, node: usize) -> (r: Result<(), HierarchyError>)
        requires
            old(self).wf(),
        ensures
            final(self).wf(),
            r is Err <==> node >= old(self).len_spec(),
            r is Err ==> r == Err::<(), HierarchyError>(HierarchyError::UnknownNode) && *final(self) == *old(self),
            r is Ok ==> {
                &&& final(self).len_spec() == old(self).len_spec()
                &&& final(self).parents@ == old(self).parents@.update(node as int, None)
                &&& final(self).local_changed@ == old(self).local_changed@.update(node as int, true)
                &&& final(self).locals@ == old(self).locals@
                &&& final(self).globals@ == old(self).globals@
                &&& final(self).tree_dirty@ == old(self).tree_dirty@
                &&& forall|m: int| 0 <= m < old(self).len_spec() ==> #[trigger] final(self).kids(m) == without(
                    old(self).kids(m),
                    node,
                )
            },
            old(self).settled() ==> final(self).settled(),
    {
        let n = self.len();
        if node >= n {
            return Err(HierarchyError::UnknownNode);
        }
        let ghost o = *self;
        match self.parents[node] {
            Some(p) => {
                assert(o.parent_of(node as int) == Some(p));
                assert(p < n);
                assert(o.kids(p as int).contains(node));
                let len = self.children[p].len();
                let mut i: usize = 0;
                while i < len
                    invariant
                        o.wf(),
                        len == o.kids(p as int).len(),
                        self.children@ == o.children@,
                        p < n,
                        n == o.len_spec(),
                        o.kids(p as int).contains(node),
                        forall|j: int| 0 <= j < i ==> o.kids(p as int)[j] != node,
                        i <= len,
                    ensures
                        i < len && o.kids(p as int)[i as int] == node,
                    decreases len - i,
                {
                    if self.children[p][i] == node {
                        break;
                    }
                    i = i + 1;
                }
                proof {
                    let s = o.kids(p as int);
                    assert(s.no_duplicates());
                    assert(s[s.index_of(node)] == node);
                    assert(s.index_of(node) == i as int);
                }
                self.children[p].remove(i);
            },
            None => {},
        }
        self.parents.set(node, None);
        self.local_changed.set(node, true);
        proof {
            assert forall|m: int| 0 <= m < o.len_spec() implies #[trigger] self.kids(m) == without(o.kids(m), node) by {
                if o.parent_of(node as int) != Some(m as usize) {
                    assert(!o.kids(m).contains(node));
                }
            }
            assert forall|m: int, y: usize| 0 <= m < n implies (#[trigger] self.kids(m).contains(y) <==> o.kids(
                m,
            ).contains(y) && y != node) by {
                lemma_without(o.kids(m), node);
                assert(self.kids(m) == without(o.kids(m), node));
            }
            assert forall|m: int| 0 <= m < n implies (#[trigger] self.kids(m)).no_duplicates() by {
                lemma_without(o.kids(m), node);
                assert(self.kids(m) == without(o.kids(m), node));
            }
            assert forall|m: int| 0 <= m < n implies
                (#[trigger] self.parent_of(m) matches Some(q) ==> q < self.len_spec()) by {
                assert(o.parent_of(m) matches Some(q) ==> q < o.len_spec());
            }
            assert forall|m: int, k: int| 0 <= m < n && 0 <= k < self.kids(m).len()
                implies #[trigger] self.kids(m)[k] < self.len_spec() by {
                assert(self.kids(m).contains(self.kids(m)[k]));
                if self.kids(m)[k] != node {
                    assert(o.kids(m).contains(self.kids(m)[k]));
                    let j = choose|j: int| 0 <= j < o.kids(m).len() && o.kids(m)[j] == self.kids(m)[k];
                    assert(o.kids(m)[j] < n);
                }
            }
            assert forall|q: usize, c: usize| q < self.len_spec() && c < self.len_spec() implies
                (self.parent_of(c as int) == Some(q) <==> #[trigger] self.kids(q as int).contains(c)) by {
                assert(self.kids(q as int).contains(c) <==> o.kids(q as int).contains(c) && c != node);
                if c != node {
                    assert(self.parent_of(c as int) == o.parent_of(c as int));
                }
            }
            if o.settled() {
                assert forall|m: int| 0 <= m < n && !self.dirty(m) && !self.changed(m)
                    implies #[trigger] self.consistent_at(m) by {
                    assert(m != node);
                    assert(o.consistent_at(m));
                    assert(self.parent_of(m) == o.parent_of(m));
                }
            }
        }
        Ok(())
    }

    /// Takes `node` out of its parent's hierarchy.  With `cascade` its
    /// subtree goes with it; otherwise its children become roots as well.
    /// Every node that becomes a root is flagged as changed.  Handles stay
    /// valid.  Refused, with nothing changed, when the handle is unknown.
    pub fn remove(&mut self, node: usize, cascade: bool) -> (r: Result<(), HierarchyError>)
        requires
            old(self).wf(),
        ensures
            final(self).wf(),
            r is Err <==> node >= old(self).len_spec(),
            r is Err ==> r == Err::<(), HierarchyError>(HierarchyError::UnknownNode) && *final(self) == *old(self),
            r is Ok ==> {
                &&& final(self).len_spec() == old(self).len_spec()
                &&& final(self).locals@ == old(self).locals@
                &&& final(self).globals@ == old(self).globals@
                &&& final(self).tree_dirty@ == old(self).tree_dirty@
                &&& final(self).parent_of(node as int) is None
                &&& final(self).changed(node as int)
                &&& cascade ==> final(self).kids(node as int) == without(old(self).kids(node as int), node)
                &&& !cascade ==> final(self).kids(node as int).len() == 0
                &&& !cascade ==> forall|c: usize| #[trigger] old(self).kids(node as int).contains(c)
                    ==> final(self).parent_of(c as int) is None && final(self).changed(c as int)
                &&& forall|m: usize| m < old(self).len_spec() && m != node && !(!cascade && old(self).kids(
                    node as int,
                ).contains(m)) ==> #[trigger] final(self).parent_of(m as int) == old(self).parent_of(m as int)
            },
            old(self).settled() ==> final(self).settled(),
    {
        let ghost o = *self;
        match self.remove_parent(node) {
            Err(e) => {
                return Err(e);
            },
            Ok(()) => {},
        }
        let ghost o1 = *self;
        proof {
            lemma_without(o.kids(node as int), node);
            assert(o1.kids(node as int) == without(o.kids(node as int), node));
            assert forall|m: usize| m < o.len_spec() && m != node implies #[trigger] o1.parent_of(m as int)
                == o.parent_of(m as int) by {}
        }
        if !cascade {
            while self.children[node].len() > 0
                invariant
                    o.wf(),
                    self.wf(),
                    node < self.len_spec(),
                    self.len_spec() == o.len_spec(),
                    self.locals@ == o.locals@,
                    self.globals@ == o.globals@,
                    self.tree_dirty@ == o.tree_dirty@,
                    self.parent_of(node as int) is None,
                    self.changed(node as int),
                    forall|c: usize| #[trigger] o.kids(node as int).contains(c) && !self.kids(node as int).contains(c)
                        ==> self.parent_of(c as int) is None && self.changed(c as int),
                    forall|c: usize| #[trigger] self.kids(node as int).contains(c) ==> o.kids(node as int).contains(c),
                    forall|m: usize| m < o.len_spec() && m != node && !o.kids(node as int).contains(m)
                        ==> #[trigger] self.parent_of(m as int) == o.parent_of(m as int),
                    o.settled() ==> self.settled(),
                decreases self.kids(node as int).len(),
            {
                let last = self.children[node].len() - 1;
                let c = self.children[node][last];
                let ghost s0 = *self;
                proof {
                    assert(s0.kids(node as int).contains(c));
                    assert(s0.kids(node as int)[last as int] < s0.len_spec());
                    assert(c != node) by {
                        if c == node {
                            assert(s0.parent_of(node as int) == Some(node));
                        }
                    }
                }
                let rc = self.remove_parent(c);
                proof {
                    assert(rc is Ok);
                    assert(self.parent_of(c as int) is None);
                    assert(self.changed(c as int));
                    lemma_without(s0.kids(node as int), c);
                    assert(self.kids(node as int) == without(s0.kids(node as int), c));
                    assert forall|x: usize| #[trigger] o.kids(node as int).contains(x) && !self.kids(node as int).contains(x)
                        implies self.parent_of(x as int) is None && self.changed(x as int) by {
                        if x != c {
                            let i = choose|i: int| 0 <= i < o.kids(node as int).len() && o.kids(node as int)[i] == x;
                            assert(o.kids(node as int)[i] < o.len_spec());
                            assert(!s0.kids(node as int).contains(x));
                            assert(s0.parent_of(x as int) is None && s0.changed(x as int));
                            assert(self.parents@[x as int] == s0.parents@[x as int]);
                            assert(self.local_changed@[x as int] == s0.local_changed@[x as int]);
                        }
                    }
                    assert forall|m: usize| m < o.len_spec() && m != node && !o.kids(node as int).contains(m)
                        implies #[trigger] self.parent_of(m as int) == o.parent_of(m as int) by {
                        assert(m != c);
                        assert(s0.parent_of(m as int) == o.parent_of(m as int));
                    }
                }
            }
        }
        Ok(())
    }
}

} // verus!
