use vstd::prelude::*;
use crate::hierarchy::{Hierarchy, lemma_same_chain, lemma_wf_same_structure};
use crate::acyclic::lemma_long_chain_meets_cycle;
use crate::locality::{lemma_cycle_not_grounded, lemma_grounded_child};
use crate::transform::compose_spec;

verus! {

/// Number of `true` entries of `s`.
pub open spec fn count_true(s: Seq<bool>) -> nat
    decreases s.len(),
{
    if s.len() == 0 {
        0
    } else {
        count_true(s.drop_last()) + if s.last() { 1nat } else { 0nat }
    }
}

pub proof fn lemma_count_clear(s: Seq<bool>, i: int)
    requires
        0 <= i < s.len(),
        s[i],
    ensures
        count_true(s.update(i, false)) + 1 == count_true(s),
    decreases s.len(),
{
    let t = s.update(i, false);
    if i == s.len() - 1 {
        assert(t.drop_last() =~= s.drop_last());
    } else {
        assert(t.drop_last() =~= s.drop_last().update(i, false));
        lemma_count_clear(s.drop_last(), i);
    }
}

/// Recomputing a dirty child `c` of the recomputed node `n`, and recording
/// it among the nodes whose children are still to be looked at, keeps the
/// pass invariant.
proof fn lemma_recompute_step(
    o: Hierarchy,
    s1: Hierarchy,
    s2: Hierarchy,
    st1: Seq<usize>,
    st2: Seq<usize>,
    cycles: Seq<usize>,
    n: usize,
    c: usize,
)
    requires
        o.wf(),
        s1.pass_inv(o, st1, cycles),
        n < s1.len_spec(),
        s1.cleared(o, n as int),
        st1.len() > 0,
        st1[st1.len() - 1] == n,
        o.kids(n as int).contains(c),
        s1.dirty(c as int),
        st2 == st1.drop_last().push(c).push(n),
        s2.locals == s1.locals,
        s2.parents == s1.parents,
        s2.children == s1.children,
        s2.local_changed == s1.local_changed,
        s2.globals@ == s1.globals@.update(c as int, compose_spec(s1.globals@[n as int], s1.locals@[c as int])),
        s2.tree_dirty@ == s1.tree_dirty@.update(c as int, false),
    ensures
        s2.pass_inv(o, st2, cycles),
        forall|m: int| 0 <= m < s2.len_spec() && #[trigger] s2.dirty(m) ==> s1.dirty(m),
{
    assert(c < o.len_spec());
    assert(o.parent_of(c as int) == Some(n));
    assert forall|x: usize| st1.contains(x) implies st2.contains(x) by {
        let j = choose|j: int| 0 <= j < st1.len() && st1[j] == x;
        if j == st1.len() - 1 {
            assert(st2[st2.len() - 1] == x);
        } else {
            assert(st2[j] == x);
        }
    }
    assert forall|j: int| 0 <= j < st2.len() implies #[trigger] st2[j] < s2.len_spec()
        && s2.cleared(o, st2[j] as int) by {
        if j < st1.len() - 1 {
            assert(st2[j] == st1[j]);
        } else if j == st1.len() - 1 {
            assert(st2[j] == c);
        } else {
            assert(st2[j] == st1[st1.len() - 1]);
        }
    }
    assert forall|m: int| 0 <= m < s2.len_spec() && #[trigger] s2.dirty(m) implies o.dirty(m) by {
        assert(s1.dirty(m));
    }
    assert forall|m: int| 0 <= m < s2.len_spec() && !o.dirty(m) implies #[trigger] s2.globals@[m] == o.globals@[m] by {
        assert(s1.globals@[m] == o.globals@[m]);
    }
    assert forall|m: usize| m < s2.len_spec() && #[trigger] s2.cleared(o, m as int) implies {
        ||| s2.consistent_at(m as int) && (s2.parent_of(m as int) matches Some(p) ==> !s2.dirty(p as int))
        ||| o.in_cycle(m as int) && s2.globals@[m as int] == s2.locals@[m as int] && cycles.contains(m)
    } by {
        if m != c {
            assert(s1.cleared(o, m as int));
            assert(s2.globals@[m as int] == s1.globals@[m as int]);
            if let Some(p) = s2.parent_of(m as int) {
                assert(o.parent_of(m as int) == s2.parent_of(m as int));
                assert(p < o.len_spec());
                if s1.consistent_at(m as int) && !s1.dirty(p as int) {
                    assert(p != c);
                    assert(s2.globals@[p as int] == s1.globals@[p as int]);
                }
            }
        } else {
            assert(n != c);
            assert(s2.globals@[n as int] == s1.globals@[n as int]);
            assert(s2.consistent_at(c as int));
        }
    }
    if cycles.len() == 0 {
        assert forall|m: usize| m < s2.len_spec() && #[trigger] s2.cleared(o, m as int) implies o.grounded(m as int) by {
            if m == c {
                assert(s1.cleared(o, n as int));
                lemma_grounded_child(o, c as int);
            } else {
                assert(s1.cleared(o, m as int));
            }
        }
    }
    assert forall|m: usize, i: int| m < s2.len_spec() && s2.cleared(o, m as int)
        && !st2.contains(m) && 0 <= i < s2.kids(m as int).len()
        implies !s2.dirty(#[trigger] s2.kids(m as int)[i] as int) by {
        assert(s2.kids(m as int) == s1.kids(m as int));
        assert(s1.kids(m as int) == o.kids(m as int));
        assert(o.kids(m as int)[i] < o.len_spec());
        if m != c {
            assert(s1.cleared(o, m as int));
            if st1.contains(m) {
                assert(st2.contains(m));
            }
            assert(!s1.dirty(s1.kids(m as int)[i] as int));
        } else {
            assert(st2[st2.len() - 2] == c);
        }
    }
    assert forall|j: int| 0 <= j < cycles.len() implies {
        &&& #[trigger] cycles[j] < s2.len_spec()
        &&& o.in_cycle(cycles[j] as int)
        &&& !s2.dirty(cycles[j] as int)
        &&& s2.globals@[cycles[j] as int] == s2.locals@[cycles[j] as int]
    } by {
        assert(!s1.dirty(cycles[j] as int));
    }
}

/// Recomputing a dirty node `i` whose parent, if any, is no longer dirty
/// keeps the pass invariant, with `i` left to look at.
proof fn lemma_top_step(o: Hierarchy, s1: Hierarchy, s2: Hierarchy, cycles: Seq<usize>, i: usize)
    requires
        o.wf(),
        s1.pass_inv(o, Seq::empty(), cycles),
        i < s1.len_spec(),
        s1.dirty(i as int),
        s1.parent_of(i as int) matches Some(p) ==> !s1.dirty(p as int),
        s2.locals == s1.locals,
        s2.parents == s1.parents,
        s2.children == s1.children,
        s2.local_changed == s1.local_changed,
        s2.globals@ == s1.globals@.update(i as int, match s1.parent_of(i as int) {
            None => s1.locals@[i as int],
            Some(p) => compose_spec(s1.globals@[p as int], s1.locals@[i as int]),
        }),
        s2.tree_dirty@ == s1.tree_dirty@.update(i as int, false),
    ensures
        s2.pass_inv(o, seq![i], cycles),
        forall|m: int| 0 <= m < s2.len_spec() && #[trigger] s2.dirty(m) ==> s1.dirty(m),
{
    let st2 = seq![i];
    assert(o.parent_of(i as int) == s1.parent_of(i as int));
    assert forall|m: int| 0 <= m < s2.len_spec() && #[trigger] s2.dirty(m) implies o.dirty(m) by {
        assert(s1.dirty(m));
    }
    assert forall|m: int| 0 <= m < s2.len_spec() && !o.dirty(m) implies #[trigger] s2.globals@[m] == o.globals@[m] by {
        assert(s1.globals@[m] == o.globals@[m]);
    }
    assert forall|m: usize| m < s2.len_spec() && #[trigger] s2.cleared(o, m as int) implies {
        ||| s2.consistent_at(m as int) && (s2.parent_of(m as int) matches Some(p) ==> !s2.dirty(p as int))
        ||| o.in_cycle(m as int) && s2.globals@[m as int] == s2.locals@[m as int] && cycles.contains(m)
    } by {
        assert(o.parent_of(m as int) == s2.parent_of(m as int));
        if m != i {
            assert(s1.cleared(o, m as int));
            assert(s2.globals@[m as int] == s1.globals@[m as int]);
            if let Some(p) = s2.parent_of(m as int) {
                assert(p < o.len_spec());
                if s1.consistent_at(m as int) && !s1.dirty(p as int) {
                    assert(p != i);
                    assert(s2.globals@[p as int] == s1.globals@[p as int]);
                }
            }
        } else {
            if let Some(p) = s2.parent_of(i as int) {
                assert(p < o.len_spec());
                assert(p != i);
                assert(s2.globals@[p as int] == s1.globals@[p as int]);
            }
            assert(s2.consistent_at(i as int));
        }
    }
    if cycles.len() == 0 {
        assert forall|m: usize| m < s2.len_spec() && #[trigger] s2.cleared(o, m as int) implies o.grounded(m as int) by {
            if m == i {
                if let Some(p) = o.parent_of(i as int) {
                    assert(p < o.len_spec());
                    if o.dirty(p as int) {
                        assert(s1.cleared(o, p as int));
                    }
                }
                lemma_grounded_child(o, i as int);
            } else {
                assert(s1.cleared(o, m as int));
            }
        }
    }
    assert forall|m: usize, k: int| m < s2.len_spec() && s2.cleared(o, m as int)
        && !st2.contains(m) && 0 <= k < s2.kids(m as int).len()
        implies !s2.dirty(#[trigger] s2.kids(m as int)[k] as int) by {
        assert(s2.kids(m as int) == s1.kids(m as int));
        assert(s1.kids(m as int) == o.kids(m as int));
        assert(o.kids(m as int)[k] < o.len_spec());
        if m != i {
            assert(s1.cleared(o, m as int));
            assert(!s1.dirty(s1.kids(m as int)[k] as int));
        } else {
            assert(st2[0] == i);
        }
    }
    assert forall|j: int| 0 <= j < cycles.len() implies {
        &&& #[trigger] cycles[j] < s2.len_spec()
        &&& o.in_cycle(cycles[j] as int)
        &&& !s2.dirty(cycles[j] as int)
        &&& s2.globals@[cycles[j] as int] == s2.locals@[cycles[j] as int]
    } by {
        assert(!s1.dirty(cycles[j] as int));
    }
}

/// Taking a dirty node `i` that is its own ancestor as a root keeps the pass
/// invariant, with `i` both reported and left to look at.
proof fn lemma_cycle_step(o: Hierarchy, s1: Hierarchy, s2: Hierarchy, cycles: Seq<usize>, i: usize)
    requires
        o.wf(),
        s1.pass_inv(o, cycles, cycles),
        i < s1.len_spec(),
        s1.dirty(i as int),
        o.in_cycle(i as int),
        s2.locals == s1.locals,
        s2.parents == s1.parents,
        s2.children == s1.children,
        s2.local_changed == s1.local_changed,
        s2.globals@ == s1.globals@.update(i as int, s1.locals@[i as int]),
        s2.tree_dirty@ == s1.tree_dirty@.update(i as int, false),
    ensures
        s2.pass_inv(o, cycles.push(i), cycles.push(i)),
        forall|m: int| 0 <= m < s2.len_spec() && #[trigger] s2.dirty(m) ==> s1.dirty(m),
{
    let c2 = cycles.push(i);
    assert(c2[c2.len() - 1] == i);
    assert forall|x: usize| cycles.contains(x) implies c2.contains(x) by {
        let j = choose|j: int| 0 <= j < cycles.len() && cycles[j] == x;
        assert(c2[j] == x);
    }
    assert forall|m: int| 0 <= m < s2.len_spec() && #[trigger] s2.dirty(m) implies o.dirty(m) by {
        assert(s1.dirty(m));
    }
    assert forall|m: int| 0 <= m < s2.len_spec() && !o.dirty(m) implies #[trigger] s2.globals@[m] == o.globals@[m] by {
        assert(s1.globals@[m] == o.globals@[m]);
    }
    assert forall|m: usize| m < s2.len_spec() && #[trigger] s2.cleared(o, m as int) implies {
        ||| s2.consistent_at(m as int) && (s2.parent_of(m as int) matches Some(p) ==> !s2.dirty(p as int))
        ||| o.in_cycle(m as int) && s2.globals@[m as int] == s2.locals@[m as int] && c2.contains(m)
    } by {
        assert(o.parent_of(m as int) == s2.parent_of(m as int));
        if m != i {
            assert(s1.cleared(o, m as int));
            assert(s2.globals@[m as int] == s1.globals@[m as int]);
            if let Some(p) = s2.parent_of(m as int) {
                assert(p < o.len_spec());
                if s1.consistent_at(m as int) && !s1.dirty(p as int) {
                    assert(p != i);
                    assert(s2.globals@[p as int] == s1.globals@[p as int]);
                }
            }
        }
    }
    assert forall|m: usize, k: int| m < s2.len_spec() && s2.cleared(o, m as int)
        && !c2.contains(m) && 0 <= k < s2.kids(m as int).len()
        implies !s2.dirty(#[trigger] s2.kids(m as int)[k] as int) by {
        assert(s2.kids(m as int) == s1.kids(m as int));
        assert(s1.kids(m as int) == o.kids(m as int));
        assert(o.kids(m as int)[k] < o.len_spec());
        if m != i {
            assert(s1.cleared(o, m as int));
            assert(!s1.dirty(s1.kids(m as int)[k] as int));
        }
    }
    assert forall|j: int| 0 <= j < c2.len() implies #[trigger] c2[j] < s2.len_spec()
        && s2.cleared(o, c2[j] as int) by {
        if j < cycles.len() {
            assert(c2[j] == cycles[j]);
        }
    }
    assert forall|j: int| 0 <= j < c2.len() implies {
        &&& #[trigger] c2[j] < s2.len_spec()
        &&& o.in_cycle(c2[j] as int)
        &&& !s2.dirty(c2[j] as int)
        &&& s2.globals@[c2[j] as int] == s2.locals@[c2[j] as int]
    } by {
        if j < cycles.len() {
            assert(c2[j] == cycles[j]);
            assert(!s1.dirty(cycles[j] as int));
        }
    }
}

/// If every dirty node has a dirty parent, every parent chain from a dirty
/// node stays among dirty nodes.
proof fn lemma_dirty_chain(o: Hierarchy, s: Hierarchy, n: usize, k: nat)
    requires
        o.wf(),
        s.len_spec() == o.len_spec(),
        s.sized(),
        0 <= n < o.len_spec(),
        s.dirty(n as int),
        forall|j: usize| j < s.len_spec() && #[trigger] s.dirty(j as int) ==>
            (o.parent_of(j as int) matches Some(p) && s.dirty(p as int)),
    ensures
        o.ancestor_at(n as int, k) matches Some(a) && a < o.len_spec() && s.dirty(a as int),
    decreases k,
{
    if k > 0 {
        lemma_dirty_chain(o, s, n, (k - 1) as nat);
        let a = o.ancestor_at(n as int, (k - 1) as nat).unwrap();
        assert(s.dirty(a as int));
        assert(a < o.parents@.len());
        assert(o.parent_of(a as int) == o.parents@[a as int]);
        let p = o.parent_of(a as int).unwrap();
        assert(o.ancestor_at(n as int, k) == Some(p));
        assert(p < o.len_spec());
    } else {
        assert(o.ancestor_at(n as int, k) == Some(n));
    }
}

/// Setting a `false` entry raises the count by one.
pub proof fn lemma_count_set(s: Seq<bool>, i: int)
    requires
        0 <= i < s.len(),
        !s[i],
    ensures
        count_true(s.update(i, true)) == count_true(s) + 1,
{
    lemma_count_clear(s.update(i, true), i);
    assert(s.update(i, true).update(i, false) =~= s);
}

/// The count never exceeds the length.
pub proof fn lemma_count_bound(s: Seq<bool>)
    ensures
        count_true(s) <= s.len(),
    decreases s.len(),
{
    if s.len() > 0 {
        lemma_count_bound(s.drop_last());
    }
}

impl Hierarchy {
    /// `n` was dirty when the pass began and has been recomputed since.
    pub open spec fn cleared(&self, o: Hierarchy, n: int) -> bool {
        o.dirty(n) && !self.dirty(n)
    }

    /// What a propagation pass keeps true of the state `self`, which started
    /// as `o`; `stack` holds the recomputed nodes whose children may still be
    /// dirty, `cycles` the nodes taken as roots because they are their own
    /// ancestors.
    pub open spec fn pass_inv(&self, o: Hierarchy, stack: Seq<usize>, cycles: Seq<usize>) -> bool {
        &&& self.sized()
        &&& self.len_spec() == o.len_spec()
        &&& self.locals@ == o.locals@
        &&& self.parents@ == o.parents@
        &&& self.children@ == o.children@
        &&& self.local_changed@ == o.local_changed@
        &&& forall|n: int| 0 <= n < self.len_spec() && #[trigger] self.dirty(n) ==> o.dirty(n)
        &&& forall|n: int| 0 <= n < self.len_spec() && !o.dirty(n) ==> #[trigger] self.globals@[n] == o.globals@[n]
        &&& forall|n: usize| n < self.len_spec() && #[trigger] self.cleared(o, n as int) ==> {
            ||| self.consistent_at(n as int) && (self.parent_of(n as int) matches Some(p) ==> !self.dirty(p as int))
            ||| o.in_cycle(n as int) && self.globals@[n as int] == self.locals@[n as int] && cycles.contains(n)
        }
        &&& forall|n: usize, k: int| n < self.len_spec() && self.cleared(o, n as int) && !stack.contains(n)
            && 0 <= k < self.kids(n as int).len() ==> !self.dirty(#[trigger] self.kids(n as int)[k] as int)
        &&& forall|j: int| 0 <= j < stack.len() ==> #[trigger] stack[j] < self.len_spec()
        &&& forall|j: int| 0 <= j < stack.len() ==> self.cleared(o, #[trigger] stack[j] as int)
        &&& cycles.len() == 0 ==> forall|n: usize| n < self.len_spec() && #[trigger] self.cleared(o, n as int)
            ==> o.grounded(n as int)
        &&& forall|j: int| 0 <= j < cycles.len() ==> {
            &&& #[trigger] cycles[j] < self.len_spec()
            &&& o.in_cycle(cycles[j] as int)
            &&& !self.dirty(cycles[j] as int)
            &&& self.globals@[cycles[j] as int] == self.locals@[cycles[j] as int]
        }
    }

    /// Recomputes the global transform of every dirty node, parents before
    /// children, and clears its dirty flag; returns the nodes that were found
    /// to be their own ancestors, which are taken as roots.
    ///
    /// A dirty node is started from once its parent, if any, is clean; from
    /// there its dirty descendants are recomputed top-down.  Clean subtrees
    /// are never entered.
    pub fn propagate_parent_transforms(&mut self) -> (cycles: Vec<usize>)
        requires
            old(self).wf(),
            old(self).dirty_closed(),
        ensures
            final(self).wf(),
            final(self).locals@ == old(self).locals@,
            final(self).parents@ == old(self).parents@,
            final(self).children@ == old(self).children@,
            final(self).local_changed@ == old(self).local_changed@,
            forall|n: int| 0 <= n < old(self).len_spec() && #[trigger] final(self).dirty(n) ==> old(self).dirty(n),
            forall|n: int| 0 <= n < old(self).len_spec() && !old(self).dirty(n)
                ==> #[trigger] final(self).globals@[n] == old(self).globals@[n],
            forall|n: usize| n < old(self).len_spec() && old(self).dirty(n as int) && !#[trigger] final(self).dirty(n as int)
                ==> final(self).consistent_at(n as int) || cycles@.contains(n),
            forall|j: int| 0 <= j < cycles@.len() ==> {
                &&& #[trigger] cycles@[j] < old(self).len_spec()
                &&& old(self).in_cycle(cycles@[j] as int)
                &&& !final(self).dirty(cycles@[j] as int)
                &&& final(self).globals@[cycles@[j] as int] == final(self).locals@[cycles@[j] as int]
            },
            old(self).acyclic() ==> cycles@.len() == 0,
            forall|n: int| 0 <= n < old(self).len_spec() ==> !#[trigger] final(self).dirty(n),
            forall|n: usize| n < old(self).len_spec() && old(self).in_cycle(n as int) ==> !#[trigger] final(self).dirty(
                n as int,
            ),
            forall|n: int| 0 <= n < old(self).len_spec() && !old(self).dirty(n) && old(self).consistent_at(n)
                ==> #[trigger] final(self).consistent_at(n),
            forall|n: usize| n < old(self).len_spec() && old(self).dirty(n as int) && old(self).in_cycle(n as int)
                ==> #[trigger] cycles@.contains(n),
    {
        let ghost o = *self;
        let n = self.len();
        let mut i: usize = 0;
        while i < n
            invariant
                o.wf(),
                o.dirty_closed(),
                n == o.len_spec(),
                i <= n,
                self.pass_inv(o, Seq::empty(), Seq::empty()),
                forall|j: usize| j < i && #[trigger] self.dirty(j as int) ==>
                    (o.parent_of(j as int) matches Some(p) && self.dirty(p as int)),
            decreases n - i,
        {
            if self.tree_dirty[i] {
                let top = match self.parents[i] {
                    None => true,
                    Some(p) => {
                        assert(o.parent_of(i as int) == self.parents@[i as int]);
                        !self.tree_dirty[p]
                    },
                };
                if top {
                    let g = match self.parents[i] {
                        None => self.locals[i],
                        Some(p) => self.globals[p].compose(&self.locals[i]),
                    };
                    let ghost s1 = *self;
                    self.globals.set(i, g);
                    self.tree_dirty.set(i, false);
                    proof {
                        lemma_top_step(o, s1, *self, Seq::empty(), i);
                    }
                    let mut stack: Vec<usize> = Vec::new();
                    stack.push(i);
                    assert(stack@ == seq![i]);
                    let ghost s2 = *self;
                    self.drain(&mut stack, Ghost(o), Ghost(Seq::empty()));
                    proof {
                        assert forall|j: usize| j < i + 1 && #[trigger] self.dirty(j as int) implies
                            (o.parent_of(j as int) matches Some(p) && self.dirty(p as int)) by {
                            assert(s2.dirty(j as int));
                            assert(s1.dirty(j as int));
                            let p = o.parent_of(j as int).unwrap();
                            assert(p < n);
                            if !self.dirty(p as int) {
                                assert(o.kids(p as int).contains(j));
                                let k = choose|k: int| 0 <= k < o.kids(p as int).len() && o.kids(p as int)[k] == j;
                                assert(self.kids(p as int) == o.kids(p as int));
                                assert(!self.dirty(self.kids(p as int)[k] as int));
                            }
                        }
                    }
                }
            }
            i = i + 1;
        }
        proof {
            if o.acyclic() {
                assert forall|m: int| 0 <= m < n implies !#[trigger] self.dirty(m) by {
                    if self.dirty(m) {
                        assert(o.chain_ends(m));
                        let k = choose|k: nat| (#[trigger] o.ancestor_at(m, k)) is None;
                        assert(self.dirty((m as usize) as int));
                        lemma_dirty_chain(o, *self, m as usize, k);
                    }
                }
            }
        }
        proof {
            assert forall|m: usize| m < n && o.dirty(m as int) && o.in_cycle(m as int) implies #[trigger] self.dirty(
                m as int,
            ) by {
                lemma_cycle_not_grounded(o, m as int);
                if !self.dirty(m as int) {
                    assert(self.cleared(o, m as int));
                    assert(Seq::<usize>::empty().len() == 0);
                    assert(o.grounded(m as int));
                }
            }
        }
        let ghost mid = *self;
        let mut cycles: Vec<usize> = Vec::new();
        let mut stack: Vec<usize> = Vec::new();
        let mut i: usize = 0;
        while i < n
            invariant
                o.wf(),
                o.dirty_closed(),
                n == o.len_spec(),
                i <= n,
                stack@ == cycles@,
                self.pass_inv(o, cycles@, cycles@),
                o.acyclic() ==> cycles@.len() == 0,
                o.acyclic() ==> forall|m: int| 0 <= m < n ==> !#[trigger] self.dirty(m),
                forall|j: usize| j < i && o.in_cycle(j as int) ==> !#[trigger] self.dirty(j as int),
                forall|j: usize| i <= j < n && o.dirty(j as int) && o.in_cycle(j as int) ==> #[trigger] self.dirty(
                    j as int,
                ),
                forall|j: usize| j < i && o.dirty(j as int) && o.in_cycle(j as int) ==> #[trigger] cycles@.contains(j),
                forall|m: int| 0 <= m < n && #[trigger] self.dirty(m) ==> mid.dirty(m),
            decreases n - i,
        {
            proof {
                lemma_wf_same_structure(o, *self);
                if o.acyclic() {
                    assert(!self.dirty(i as int));
                }
            }
            let ghost s0 = *self;
            let ghost c0 = cycles@;
            proof {
                if o.dirty(i as int) && o.in_cycle(i as int) {
                    let k = choose|k: nat| 1 <= k <= o.len_spec() && #[trigger] o.ancestor_at(i as int, k) == Some(i);
                    lemma_same_chain(o, *self, i as int, k);
                    assert(self.ancestor_at(i as int, k) == Some(i));
                }
            }
            if self.tree_dirty[i] && self.chain_hits(i, i, 1) {
                let g = self.locals[i];
                let ghost s1 = *self;
                proof {
                    let k = choose|k: nat| 1 <= k <= self.len_spec() && #[trigger] self.ancestor_at(i as int, k) == Some(i);
                    lemma_same_chain(o, *self, i as int, k);
                }
                self.globals.set(i, g);
                self.tree_dirty.set(i, false);
                proof {
                    lemma_cycle_step(o, s1, *self, cycles@, i);
                }
                cycles.push(i);
                stack.push(i);
            } else {
                proof {
                    if o.in_cycle(i as int) && self.dirty(i as int) {
                        let k = choose|k: nat| 1 <= k <= o.len_spec() && #[trigger] o.ancestor_at(i as int, k) == Some(i);
                        lemma_same_chain(o, *self, i as int, k);
                    }
                }
            }
            proof {
                assert forall|j: usize| j < i + 1 && o.in_cycle(j as int) implies !#[trigger] self.dirty(j as int) by {
                    if j < i {
                        assert(!s0.dirty(j as int));
                    }
                }
                assert forall|j: usize| j < i + 1 && o.dirty(j as int) && o.in_cycle(j as int)
                    implies #[trigger] cycles@.contains(j) by {
                    if j < i {
                        assert(c0.contains(j));
                        let q = choose|q: int| 0 <= q < c0.len() && c0[q] == j;
                        assert(cycles@[q] == j);
                    } else {
                        assert(cycles@[cycles@.len() - 1] == i);
                    }
                }
                assert forall|j: usize| i + 1 <= j < n && o.dirty(j as int) && o.in_cycle(j as int)
                    implies #[trigger] self.dirty(j as int) by {
                    assert(s0.dirty(j as int));
                }
                assert forall|m: int| 0 <= m < n && #[trigger] self.dirty(m) implies mid.dirty(m) by {
                    assert(s0.dirty(m));
                }
            }
            i = i + 1;
        }
        let ghost s3 = *self;
        self.drain(&mut stack, Ghost(o), Ghost(cycles@));
        proof {
            lemma_wf_same_structure(o, *self);
            assert forall|m: int| 0 <= m < n && #[trigger] self.dirty(m) implies mid.dirty(m) by {
                assert(s3.dirty(m));
            }
            assert forall|j: usize| j < n && #[trigger] self.dirty(j as int) implies
                (o.parent_of(j as int) matches Some(p) && self.dirty(p as int)) by {
                assert(mid.dirty(j as int));
                let p = o.parent_of(j as int).unwrap();
                assert(p < n);
                if !self.dirty(p as int) {
                    assert(mid.dirty(p as int));
                    assert(self.cleared(o, p as int));
                    assert(o.kids(p as int).contains(j));
                    let k = choose|k: int| 0 <= k < o.kids(p as int).len() && o.kids(p as int)[k] == j;
                    assert(self.kids(p as int) == o.kids(p as int));
                    assert(!Seq::<usize>::empty().contains(p));
                    assert(!self.dirty(self.kids(p as int)[k] as int));
                }
            }
            assert forall|m: int| 0 <= m < n implies !#[trigger] self.dirty(m) by {
                if self.dirty(m) {
                    assert(self.dirty((m as usize) as int));
                    lemma_dirty_chain(o, *self, m as usize, n as nat);
                    let i = lemma_long_chain_meets_cycle(o, m);
                    lemma_dirty_chain(o, *self, m as usize, i);
                    let a = o.ancestor_at(m, i).unwrap();
                    assert(o.in_cycle(a as int));
                    assert(!self.dirty(a as int));
                }
            }
            assert forall|m: int| 0 <= m < n && !o.dirty(m) && o.consistent_at(m)
                implies #[trigger] self.consistent_at(m) by {
                if let Some(p) = o.parent_of(m) {
                    assert(p < n);
                    assert(o.parent_of((m as usize) as int) == Some(p));
                    assert(o.kids(p as int).contains(m as usize));
                    let k = choose|k: int| 0 <= k < o.kids(p as int).len() && o.kids(p as int)[k] == m as usize;
                    assert(o.dirty(p as int) ==> o.dirty(o.kids(p as int)[k] as int));
                }
            }
            assert forall|m: usize| m < n && o.in_cycle(m as int) implies !#[trigger] self.dirty(m as int) by {
                if self.dirty(m as int) {
                    assert(s3.dirty(m as int));
                }
            }
            assert forall|m: usize| m < n && o.dirty(m as int) && !#[trigger] self.dirty(m as int)
                implies self.consistent_at(m as int) || cycles@.contains(m) by {
                assert(self.cleared(o, m as int));
            }
        }
        cycles
    }

    /// Recomputes, top-down, every dirty node below the nodes on `stack`.
    fn drain(&mut self, stack: &mut Vec<usize>, Ghost(o): Ghost<Hierarchy>, Ghost(cycles): Ghost<Seq<usize>>)
        requires
            o.wf(),
            o.dirty_closed(),
            old(self).pass_inv(o, old(stack)@, cycles),
        ensures
            final(self).pass_inv(o, Seq::empty(), cycles),
            forall|n: int| 0 <= n < o.len_spec() && #[trigger] final(self).dirty(n) ==> old(self).dirty(n),
    {
        let ghost start = *self;
        loop
            invariant
                o.wf(),
                o.dirty_closed(),
                self.pass_inv(o, stack@, cycles),
                forall|n: int| 0 <= n < o.len_spec() && #[trigger] self.dirty(n) ==> start.dirty(n),
            ensures
                stack@ == Seq::<usize>::empty(),
            decreases count_true(self.tree_dirty@), stack@.len(),
        {
            let ghost before = stack@;
            let n = match stack.pop() {
                Some(n) => n,
                None => {
                    assert(stack@ =~= Seq::<usize>::empty());
                    break;
                },
            };
            let ghost rest = stack@;
            let ghost count0 = count_true(self.tree_dirty@);
            assert(before =~= rest.push(n));
            assert(before[before.len() - 1] == n);
            assert(self.kids(n as int) == o.kids(n as int));
            let nk = self.children[n].len();
            let mut k: usize = 0;
            while k < nk
                invariant
                    o.wf(),
                    o.dirty_closed(),
                    n < self.len_spec(),
                    self.cleared(o, n as int),
                    nk == self.kids(n as int).len(),
                    self.kids(n as int) == o.kids(n as int),
                    k <= nk,
                    self.pass_inv(o, stack@.push(n), cycles),
                    rest.len() <= stack@.len(),
                    count_true(self.tree_dirty@) + (stack@.len() - rest.len()) == count0,
                    forall|j: int| 0 <= j < k ==> !self.dirty(#[trigger] self.kids(n as int)[j] as int),
                    forall|m: int| 0 <= m < o.len_spec() && #[trigger] self.dirty(m) ==> start.dirty(m),
                decreases nk - k,
            {
                let c = self.children[n][k];
                assert(o.kids(n as int)[k as int] < o.len_spec());
                if self.tree_dirty[c] {
                    let g = self.globals[n].compose(&self.locals[c]);
                    let ghost s1 = *self;
                    let ghost st1 = stack@.push(n);
                    proof {
                        lemma_count_clear(self.tree_dirty@, c as int);
                        assert(o.kids(n as int).contains(c));
                    }
                    self.globals.set(c, g);
                    self.tree_dirty.set(c, false);
                    let ghost sk = stack@;
                    stack.push(c);
                    assert(st1.drop_last() =~= sk);
                    assert(stack@.push(n) =~= st1.drop_last().push(c).push(n));
                    proof {
                        lemma_recompute_step(o, s1, *self, st1, stack@.push(n), cycles, n, c);
                    }
                }
                k = k + 1;
            }
            proof {
                let st = stack@.push(n);
                assert forall|m: usize, i: int| m < self.len_spec() && self.cleared(o, m as int)
                    && !stack@.contains(m) && 0 <= i < self.kids(m as int).len()
                    implies !self.dirty(#[trigger] self.kids(m as int)[i] as int) by {
                    if m != n {
                        if st.contains(m) {
                            let j = choose|j: int| 0 <= j < st.len() && st[j] == m;
                            assert(st[st.len() - 1] == n);
                            assert(j != st.len() - 1);
                            assert(st[j] == stack@[j]);
                            assert(stack@.contains(m));
                        }
                    }
                }
                assert forall|j: int| 0 <= j < stack@.len() implies #[trigger] stack@[j] < self.len_spec()
                    && self.cleared(o, stack@[j] as int) by {
                    assert(st[j] == stack@[j]);
                }
            }
        }
    }
}

} // verus!
