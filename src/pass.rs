use vstd::prelude::*;
use crate::hierarchy::{Hierarchy, lemma_chain_stays_out, lemma_same_chain, lemma_wf_same_structure};
use crate::locality::lemma_marking_is_local;

verus! {

impl Hierarchy {
    /// Every node's change flag is clear.
    pub open spec fn unchanged(&self) -> bool {
        forall|n: int| 0 <= n < self.len_spec() ==> !#[trigger] self.changed(n)
    }

    /// One full pass: dirty marking, then propagation, then the leaf fast
    /// path.  Returns the nodes found to be their own ancestors, which were
    /// taken as roots for this pass.
    ///
    /// On a settled hierarchy without cycles every node ends consistent with
    /// both flags clear; a pass with nothing flagged changes nothing; an
    /// unattached node always ends at its local transform.
    #[verifier::rlimit(40)]
    pub fn run_pass(&mut self) -> (cycles: Vec<usize>)
        requires
            old(self).wf(),
        ensures
            final(self).wf(),
            final(self).locals@ == old(self).locals@,
            final(self).parents@ == old(self).parents@,
            final(self).children@ == old(self).children@,
            old(self).acyclic() && old(self).settled() ==> forall|n: int| 0 <= n < old(self).len_spec() ==> {
                &&& #[trigger] final(self).consistent_at(n)
                &&& !final(self).dirty(n)
                &&& !final(self).changed(n)
            },
            old(self).acyclic() ==> cycles@.len() == 0,
            old(self).quiet() && old(self).unchanged() ==> {
                &&& final(self).globals@ == old(self).globals@
                &&& final(self).tree_dirty@ == old(self).tree_dirty@
                &&& final(self).local_changed@ == old(self).local_changed@
            },
            old(self).settled() ==> forall|n: int| 0 <= n < old(self).len_spec() && old(self).unattached(n)
                ==> #[trigger] final(self).globals@[n] == final(self).locals@[n],
            final(self).quiet(),
            final(self).unchanged(),
            forall|j: int| 0 <= j < cycles@.len() ==> {
                &&& #[trigger] cycles@[j] < old(self).len_spec()
                &&& old(self).in_cycle(cycles@[j] as int)
                &&& final(self).globals@[cycles@[j] as int] == final(self).locals@[cycles@[j] as int]
            },
            forall|n: usize| n < old(self).len_spec() && old(self).in_cycle(n as int) ==> !#[trigger] final(self).dirty(
                n as int,
            ),
            forall|n: int| 0 <= n < old(self).len_spec() && !old(self).unattached(n) ==> !#[trigger] final(self).changed(n),
            forall|n: usize| n < old(self).len_spec() && old(self).in_cycle(n as int) && (old(self).dirty(n as int)
                || old(self).source(n as int)) ==> #[trigger] cycles@.contains(n),
            forall|x: usize| x < old(self).len_spec() && old(self).acyclic() && #[trigger] old(self).only_changed(x as int)
                ==> forall|n: int| 0 <= n < old(self).len_spec() && !old(self).in_subtree(x as int, n)
                ==> #[trigger] final(self).globals@[n] == old(self).globals@[n],
    {
        let ghost o = *self;
        let count = self.len();
        self.mark_dirty_trees();
        let ghost s1 = *self;
        let cycles = self.propagate_parent_transforms();
        let ghost s2 = *self;
        proof {
            assert forall|m: int, k: nat| #[trigger] s2.ancestor_at(m, k) == o.ancestor_at(m, k) by {
                lemma_same_chain(o, s2, m, k);
            }
            assert forall|m: int, k: nat| #[trigger] s1.ancestor_at(m, k) == o.ancestor_at(m, k) by {
                lemma_same_chain(o, s1, m, k);
            }
            assert forall|m: int| #[trigger] s1.in_cycle(m) == o.in_cycle(m) by {
                if s1.in_cycle(m) {
                    let k = choose|k: nat| 1 <= k <= s1.len_spec() && #[trigger] s1.ancestor_at(m, k) == Some(m as usize);
                    assert(o.ancestor_at(m, k) == s1.ancestor_at(m, k));
                }
                if o.in_cycle(m) {
                    let k = choose|k: nat| 1 <= k <= o.len_spec() && #[trigger] o.ancestor_at(m, k) == Some(m as usize);
                    assert(o.ancestor_at(m, k) == s1.ancestor_at(m, k));
                }
            }
            assert forall|m: int| 0 <= m < o.len_spec() implies #[trigger] s1.unattached(m) == o.unattached(m) by {
                assert(s1.kids(m) == o.kids(m));
            }
        }
        self.sync_simple_transforms();
        proof {
            assert forall|m: int| 0 <= m < o.len_spec() implies #[trigger] s2.unattached(m) == o.unattached(m) by {
                assert(s2.kids(m) == o.kids(m));
            }
            if o.acyclic() {
                assert(s1.acyclic()) by {
                    assert forall|m: int| 0 <= m < s1.len_spec() implies #[trigger] s1.chain_ends(m) by {
                        assert(o.chain_ends(m));
                        let k = choose|k: nat| (#[trigger] o.ancestor_at(m, k)) is None;
                        assert(s1.ancestor_at(m, k) is None);
                    }
                }
                if o.settled() {
                    assert forall|m: int| 0 <= m < o.len_spec() implies {
                        &&& #[trigger] self.consistent_at(m)
                        &&& !self.dirty(m)
                        &&& !self.changed(m)
                    } by {
                        assert(!s2.dirty(m));
                        assert(m < count);
                        assert((m as usize) as int == m);
                        assert(s1.parent_of(m) == o.parent_of(m));
                        assert(s1.changed(m) == (o.changed(m) && o.unattached(m)));
                        assert(s2.changed(m) == s1.changed(m));
                        if s1.changed(m) {
                            assert(s2.unattached(m));
                            assert(self.globals@[m] == self.locals@[m]);
                        } else if s1.dirty(m) {
                            assert(s2.consistent_at((m as usize) as int) || cycles@.contains(m as usize));
                            if cycles@.contains(m as usize) {
                                let j = choose|j: int| 0 <= j < cycles@.len() && cycles@[j] == m as usize;
                                assert(cycles@[j] == m as usize);
                            }
                        } else {
                            assert(s1.consistent_at(m));
                            assert(s2.consistent_at(m));
                        }
                        if let Some(p) = s2.parent_of(m) {
                            assert(p < o.len_spec());
                            assert(s2.parent_of((m as usize) as int) == Some(p));
                            assert(s2.kids(p as int).contains(m as usize));
                            assert(!o.unattached(p as int));
                            assert(self.globals@[p as int] == s2.globals@[p as int]);
                            assert(!o.unattached(m));
                        } else if s2.kids(m).len() > 0 {
                            assert(!o.unattached(m));
                        }
                    }
                }
            }
            if o.settled() {
                assert forall|m: int| 0 <= m < o.len_spec() && o.unattached(m)
                    implies #[trigger] self.globals@[m] == self.locals@[m] by {
                    assert(!o.source(m));
                    assert(s1.parent_of(m) is None);
                    assert(s1.changed(m) == (o.changed(m) && o.unattached(m)));
                    assert(s2.changed(m) == s1.changed(m));
                    assert(!s2.dirty(m));
                    if s1.dirty(m) {
                        assert(m < count);
                        assert((m as usize) as int == m);
                        assert(s2.consistent_at((m as usize) as int) || cycles@.contains(m as usize));
                        if cycles@.contains(m as usize) {
                            let j = choose|j: int| 0 <= j < cycles@.len() && cycles@[j] == m as usize;
                            assert(s1.in_cycle(m));
                            let k = choose|k: nat| 1 <= k <= s1.len_spec() && #[trigger] s1.ancestor_at(m, k)
                                == Some(m as usize);
                            assert(s1.ancestor_at(m, 0) == Some(m as usize));
                            assert(s1.ancestor_at(m, 1) is None);
                            lemma_chain_stays_out(s1, m, 1, k);
                        }
                        assert(s2.parent_of(m) is None);
                    } else {
                        assert(s2.globals@[m] == s1.globals@[m]);
                        if !o.changed(m) {
                            assert(o.consistent_at(m));
                        }
                    }
                }
            }
            assert forall|m: int| 0 <= m < o.len_spec() implies (!self.dirty(m) && !#[trigger] self.changed(m)) by {
                assert(!s2.dirty(m));
                assert(s1.changed(m) == (o.changed(m) && o.unattached(m)));
                assert(s2.changed(m) == s1.changed(m));
                assert(s2.unattached(m) == o.unattached(m));
            }
            assert forall|m: int| 0 <= m < self.len_spec() implies !#[trigger] self.dirty(m) by {
                assert(!s2.dirty(m));
            }
            assert forall|m: int| 0 <= m < self.len_spec() implies !#[trigger] self.source(m) by {
                assert(!self.changed(m));
            }
            assert forall|m: usize| m < o.len_spec() && o.in_cycle(m as int) implies !#[trigger] self.dirty(m as int) by {
                assert(s1.in_cycle(m as int));
                assert(!s2.dirty(m as int));
            }
            assert forall|x: usize| x < o.len_spec() && o.acyclic() && #[trigger] o.only_changed(x as int)
                implies forall|m: int| 0 <= m < o.len_spec() && !o.in_subtree(x as int, m)
                ==> #[trigger] self.globals@[m] == o.globals@[m] by {
                assert(o.ancestor_at(x as int, 0) == Some(x));
                if o.source(x as int) {
                    assert forall|m: int| 0 <= m < o.len_spec() implies (#[trigger] o.source(m) <==> m == x as int) by {
                        if m != x as int {
                            assert(!o.changed(m));
                        }
                    }
                    assert(o.only_source(x as int));
                    lemma_marking_is_local(o, s1, x);
                } else {
                    assert forall|m: int| 0 <= m < o.len_spec() implies !#[trigger] o.source(m) by {
                        if m != x as int {
                            assert(!o.changed(m));
                        }
                    }
                    assert(o.quiet());
                }
                assert forall|m: int| 0 <= m < o.len_spec() && !o.in_subtree(x as int, m)
                    implies #[trigger] self.globals@[m] == o.globals@[m] by {
                    assert(m != x as int);
                    assert(!o.changed(m));
                    assert(!o.dirty(m));
                    assert(!s1.dirty(m));
                    assert(s1.changed(m) == (o.changed(m) && o.unattached(m)));
                    assert(s2.changed(m) == s1.changed(m));
                }
            }
            assert forall|m: usize| m < o.len_spec() && o.in_cycle(m as int) && (o.dirty(m as int) || o.source(m as int))
                implies #[trigger] cycles@.contains(m) by {
                assert(s1.dirty(m as int));
                assert(s1.in_cycle(m as int));
            }
            assert forall|m: int| 0 <= m < o.len_spec() && !o.unattached(m) implies !#[trigger] self.changed(m) by {
                assert(s1.changed(m) == (o.changed(m) && o.unattached(m)));
                assert(s2.changed(m) == s1.changed(m));
            }
            if o.quiet() && o.unchanged() {
                assert forall|m: int| 0 <= m < o.len_spec() implies self.local_changed@[m] == o.local_changed@[m] by {
                    assert(!o.changed(m));
                    assert(s1.changed(m) == (o.changed(m) && o.unattached(m)));
                    assert(s2.changed(m) == s1.changed(m));
                    assert(self.changed(m) == (s2.changed(m) && !s2.unattached(m)));
                }
                assert(self.local_changed@ =~= o.local_changed@);
                assert(s1.tree_dirty@ == o.tree_dirty@);
                assert forall|m: int| 0 <= m < o.len_spec() implies self.globals@[m] == o.globals@[m]
                    && self.tree_dirty@[m] == o.tree_dirty@[m] by {
                    assert(!o.source(m));
                    assert(!o.dirty(m));
                    assert(!s1.dirty(m));
                    assert(!s2.dirty(m));
                    assert(s2.globals@[m] == s1.globals@[m]);
                    assert(s1.changed(m) == (o.changed(m) && o.unattached(m)));
                    assert(s2.changed(m) == s1.changed(m));
                }
                assert(self.globals@ =~= o.globals@);
                assert(self.tree_dirty@ =~= o.tree_dirty@);
            }
        }
        cycles
    }

    /// Leaf fast path: every unattached node whose local transform changed
    /// gets it as its global transform, and its change flag is consumed.
    /// Nodes of the hierarchy are not touched.
    pub fn sync_simple_transforms(&mut self)
        requires
            old(self).sized(),
        ensures
            final(self).sized(),
            old(self).wf() ==> final(self).wf(),
            final(self).locals@ == old(self).locals@,
            final(self).parents@ == old(self).parents@,
            final(self).children@ == old(self).children@,
            final(self).tree_dirty@ == old(self).tree_dirty@,
            forall|n: int| 0 <= n < old(self).len_spec() ==>
                (#[trigger] final(self).changed(n) <==> old(self).changed(n) && !old(self).unattached(n)),
            forall|n: int| 0 <= n < old(self).len_spec() ==> #[trigger] final(self).globals@[n] == if old(self).changed(n)
                && old(self).unattached(n) { old(self).locals@[n] } else { old(self).globals@[n] },
    {
        let ghost o = *self;
        let n = self.len();
        let mut i: usize = 0;
        while i < n
            invariant
                o.sized(),
                n == o.len_spec(),
                i <= n,
                self.sized(),
                self.len_spec() == o.len_spec(),
                self.locals@ == o.locals@,
                self.parents@ == o.parents@,
                self.children@ == o.children@,
                self.tree_dirty@ == o.tree_dirty@,
                forall|j: int| 0 <= j < n ==> #[trigger] self.changed(j)
                    == if j < i { o.changed(j) && !o.unattached(j) } else { o.changed(j) },
                forall|j: int| 0 <= j < n ==> #[trigger] self.globals@[j] == if j < i && o.changed(j)
                    && o.unattached(j) { o.locals@[j] } else { o.globals@[j] },
            decreases n - i,
        {
            let unattached = self.parents[i].is_none() && self.children[i].len() == 0;
            proof {
                assert(self.children@[i as int] == o.children@[i as int]);
                assert(self.kids(i as int) == o.kids(i as int));
                assert(self.parent_of(i as int) == o.parent_of(i as int));
                assert(unattached == o.unattached(i as int));
                assert(self.changed(i as int) == o.changed(i as int));
            }
            let ghost s0 = *self;
            if self.local_changed[i] && unattached {
                let l = self.locals[i];
                self.globals.set(i, l);
                self.local_changed.set(i, false);
            }
            proof {
                assert forall|j: int| 0 <= j < n implies #[trigger] self.changed(j)
                    == if j < i + 1 { o.changed(j) && !o.unattached(j) } else { o.changed(j) } by {
                    if j != i {
                        assert(self.changed(j) == s0.changed(j));
                    }
                }
                assert forall|j: int| 0 <= j < n implies #[trigger] self.globals@[j] == if j < i + 1
                    && o.changed(j) && o.unattached(j) { o.locals@[j] } else { o.globals@[j] } by {
                    if j != i {
                        assert(self.globals@[j] == s0.globals@[j]);
                    }
                }
            }
            i = i + 1;
        }
        proof {
            if o.wf() {
                lemma_wf_same_structure(o, *self);
            }
        }
    }
}

} // verus!
