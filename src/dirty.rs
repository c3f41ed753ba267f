use vstd::prelude::*;
use crate::hierarchy::{Hierarchy, lemma_wf_same_structure};
use crate::propagate::{count_true, lemma_count_bound, lemma_count_set};

verus! {

/// Marking a clean child `c` of the dirty node `n` dirty, and recording it
/// among the nodes whose children are still to be looked at, keeps the walk
/// invariant.
proof fn lemma_mark_step(
    o: Hierarchy,
    s1: Hierarchy,
    s2: Hierarchy,
    st1: Seq<usize>,
    st2: Seq<usize>,
    n: usize,
    c: usize,
)
    requires
        o.wf(),
        s1.mark_inv(o, st1),
        n < s1.len_spec(),
        s1.dirty(n as int),
        st1.len() > 0,
        st1[st1.len() - 1] == n,
        o.kids(n as int).contains(c),
        !s1.dirty(c as int),
        st2 == st1.drop_last().push(c).push(n),
        s2.locals == s1.locals,
        s2.globals == s1.globals,
        s2.parents == s1.parents,
        s2.children == s1.children,
        s2.local_changed == s1.local_changed,
        s2.tree_dirty@ == s1.tree_dirty@.update(c as int, true),
    ensures
        s2.mark_inv(o, st2),
{
    assert(c < o.len_spec());
    assert(o.parent_of(c as int) == Some(n));
    assert forall|x: usize| st1.contains(x) implies st2.contains(x) by {
        let j = choose|j: int| 0 <= j < st1.len() && st1[j] == x;
        if j == st1.len() - 1 {
            assert(st2[st2.len() - 1] == x);
        } else {
            assert(st2[j] == x);
        }
    }
    assert forall|j: int| 0 <= j < st2.len() implies #[trigger] st2[j] < s2.len_spec()
        && s2.dirty(st2[j] as int) by {
        if j < st1.len() - 1 {
            assert(st2[j] == st1[j]);
        } else if j == st1.len() - 1 {
            assert(st2[j] == c);
        } else {
            assert(st2[j] == st1[st1.len() - 1]);
        }
    }
    assert forall|m: int| 0 <= m < s2.len_spec() implies
        (#[trigger] s2.changed(m) <==> o.changed(m) && o.unattached(m)) by {
        assert(s1.changed(m) == s2.changed(m));
    }
    assert forall|m: int| 0 <= m < s2.len_spec() && (o.dirty(m) || o.source(m)) implies #[trigger] s2.dirty(m) by {
        assert(s1.dirty(m));
    }
    assert forall|m: int| 0 <= m < s2.len_spec() && #[trigger] s2.dirty(m) implies {
        ||| o.dirty(m)
        ||| o.source(m)
        ||| s2.parent_of(m) matches Some(p) && s2.dirty(p as int)
    } by {
        if m == c {
            assert(n != c);
            assert(s2.parent_of(m) == Some(n));
            assert(s2.dirty(n as int));
        } else {
            assert(s1.dirty(m));
            if let Some(p) = s1.parent_of(m) {
                if s1.dirty(p as int) {
                    assert(o.parent_of(m) == s1.parent_of(m));
                    assert(p < o.len_spec());
                    assert(s2.dirty(p as int));
                }
            }
        }
    }
    assert forall|m: usize, i: int| m < s2.len_spec() && s2.dirty(m as int)
        && !st2.contains(m) && 0 <= i < s2.kids(m as int).len()
        implies s2.dirty(#[trigger] s2.kids(m as int)[i] as int) by {
        assert(s2.kids(m as int) == s1.kids(m as int));
        assert(s1.kids(m as int) == o.kids(m as int));
        assert(o.kids(m as int)[i] < o.len_spec());
        if m != c {
            assert(s1.dirty(m as int));
            if st1.contains(m) {
                assert(st2.contains(m));
            }
            assert(s1.dirty(s1.kids(m as int)[i] as int));
        } else {
            assert(st2[st2.len() - 2] == c);
        }
    }
}

impl Hierarchy {
    /// `n` starts a dirty walk: its own transform or membership changed and
    /// it takes part in the hierarchy.
    pub open spec fn source(&self, n: int) -> bool {
        self.changed(n) && !self.unattached(n)
    }

    /// `after` is what dirty marking makes of `self`.
    pub open spec fn marks(&self, after: Hierarchy) -> bool {
        &&& after.wf()
        &&& after.len_spec() == self.len_spec()
        &&& after.locals@ == self.locals@
        &&& after.globals@ == self.globals@
        &&& after.parents@ == self.parents@
        &&& after.children@ == self.children@
        &&& after.dirty_closed()
        &&& forall|n: int| 0 <= n < self.len_spec() ==>
            (#[trigger] after.changed(n) <==> self.changed(n) && self.unattached(n))
        &&& forall|n: int| 0 <= n < self.len_spec() && (self.dirty(n) || self.source(n)) ==> #[trigger] after.dirty(n)
        &&& forall|n: int| 0 <= n < self.len_spec() && #[trigger] after.dirty(n) ==> {
            ||| self.dirty(n)
            ||| self.source(n)
            ||| self.parent_of(n) matches Some(p) && after.dirty(p as int)
        }
    }

    /// No node is dirty and none starts a dirty walk.
    pub open spec fn quiet(&self) -> bool {
        &&& forall|n: int| 0 <= n < self.len_spec() ==> !#[trigger] self.dirty(n)
        &&& forall|n: int| 0 <= n < self.len_spec() ==> !#[trigger] self.source(n)
    }

    /// What the dirty walk keeps true of `self`, which started as `o`;
    /// `stack` holds the dirty nodes whose children may still be clean.
    pub open spec fn mark_inv(&self, o: Hierarchy, stack: Seq<usize>) -> bool {
        &&& self.sized()
        &&& self.len_spec() == o.len_spec()
        &&& self.locals@ == o.locals@
        &&& self.globals@ == o.globals@
        &&& self.parents@ == o.parents@
        &&& self.children@ == o.children@
        &&& forall|n: int| 0 <= n < self.len_spec() ==> (#[trigger] self.changed(n) <==> o.changed(n) && o.unattached(n))
        &&& forall|n: int| 0 <= n < self.len_spec() && (o.dirty(n) || o.source(n)) ==> #[trigger] self.dirty(n)
        &&& forall|n: int| 0 <= n < self.len_spec() && #[trigger] self.dirty(n) ==> {
            ||| o.dirty(n)
            ||| o.source(n)
            ||| self.parent_of(n) matches Some(p) && self.dirty(p as int)
        }
        &&& forall|n: usize, k: int| n < self.len_spec() && self.dirty(n as int) && !stack.contains(n)
            && 0 <= k < self.kids(n as int).len() ==> self.dirty(#[trigger] self.kids(n as int)[k] as int)
        &&& forall|j: int| 0 <= j < stack.len() ==> #[trigger] stack[j] < self.len_spec()
        &&& forall|j: int| 0 <= j < stack.len() ==> self.dirty(#[trigger] stack[j] as int)
    }
}

impl Hierarchy {
    /// Dirty marking: every node of the hierarchy whose local transform or
    /// membership changed is flagged dirty together with all of its
    /// descendants, and its change flag is consumed.  Nodes that are already
    /// dirty are not walked again.  Unattached nodes are left to the leaf
    /// fast path.
    pub fn mark_dirty_trees(&mut self)
        requires
            old(self).wf(),
        ensures
            old(self).marks(*final(self)),
            old(self).settled() ==> final(self).settled(),
            old(self).quiet() ==> final(self).tree_dirty@ == old(self).tree_dirty@,
    {
        let ghost o = *self;
        let n = self.len();
        let mut stack: Vec<usize> = Vec::new();
        let mut i: usize = 0;
        while i < n
            invariant
                o.wf(),
                n == o.len_spec(),
                i <= n,
                self.sized(),
                self.len_spec() == o.len_spec(),
                self.locals@ == o.locals@,
                self.globals@ == o.globals@,
                self.parents@ == o.parents@,
                self.children@ == o.children@,
                forall|j: int| 0 <= j < n ==> #[trigger] self.changed(j)
                    == if j < i { o.changed(j) && o.unattached(j) } else { o.changed(j) },
                forall|j: int| 0 <= j < n ==> #[trigger] self.dirty(j) == (o.dirty(j) || (j < i && o.source(j))),
                forall|j: usize| j < i && #[trigger] self.dirty(j as int) ==> stack@.contains(j),
                forall|j: int| 0 <= j < stack@.len() ==> #[trigger] stack@[j] < i,
                forall|j: int| 0 <= j < stack@.len() ==> self.dirty(#[trigger] stack@[j] as int),
            decreases n - i,
        {
            let attached = self.parents[i].is_some() || self.children[i].len() > 0;
            proof {
                assert(self.kids(i as int) == o.kids(i as int));
                assert(self.parent_of(i as int) == o.parent_of(i as int));
                assert(attached == !o.unattached(i as int));
                assert(self.changed(i as int) == o.changed(i as int));
                assert(self.dirty(i as int) == o.dirty(i as int));
            }
            let ghost s0 = *self;
            if self.local_changed[i] && attached {
                self.local_changed.set(i, false);
                self.tree_dirty.set(i, true);
            }
            proof {
                assert forall|j: int| 0 <= j < n implies #[trigger] self.changed(j)
                    == if j < i + 1 { o.changed(j) && o.unattached(j) } else { o.changed(j) } by {
                    if j != i {
                        assert(self.changed(j) == s0.changed(j));
                    }
                }
                assert forall|j: int| 0 <= j < n implies #[trigger] self.dirty(j)
                    == (o.dirty(j) || (j < i + 1 && o.source(j))) by {
                    if j != i {
                        assert(self.dirty(j) == s0.dirty(j));
                    }
                }
            }
            let ghost sk0 = stack@;
            if self.tree_dirty[i] {
                let ghost sk = stack@;
                stack.push(i);
                proof {
                    assert forall|x: usize| sk.contains(x) implies stack@.contains(x) by {
                        let j = choose|j: int| 0 <= j < sk.len() && sk[j] == x;
                        assert(stack@[j] == x);
                    }
                    assert(stack@[stack@.len() - 1] == i);
                }
            }
            proof {
                assert forall|j: usize| j < i + 1 && #[trigger] self.dirty(j as int) implies stack@.contains(j) by {
                    if j < i {
                        assert(s0.dirty(j as int));
                        assert(sk0.contains(j));
                        let q = choose|q: int| 0 <= q < sk0.len() && sk0[q] == j;
                        assert(stack@[q] == j);
                    } else {
                        assert(stack@[stack@.len() - 1] == i);
                    }
                }
            }
            i = i + 1;
        }
        proof {
            if o.quiet() {
                if stack@.len() > 0 {
                    assert(self.dirty(stack@[0] as int));
                    assert(!o.source(stack@[0] as int));
                }
                assert forall|j: int| 0 <= j < o.len_spec() implies self.tree_dirty@[j] == o.tree_dirty@[j] by {
                    assert(!o.source(j));
                    assert(self.dirty(j) == (o.dirty(j) || o.source(j)));
                }
                assert(self.tree_dirty@ =~= o.tree_dirty@);
            }
            assert forall|m: usize, k: int| m < self.len_spec() && self.dirty(m as int) && !stack@.contains(m)
                && 0 <= k < self.kids(m as int).len() implies self.dirty(#[trigger] self.kids(m as int)[k] as int) by {}
            assert(self.mark_inv(o, stack@));
        }
        loop
            invariant
                o.wf(),
                self.mark_inv(o, stack@),
                o.quiet() ==> stack@.len() == 0 && self.tree_dirty@ == o.tree_dirty@,
            ensures
                stack@ == Seq::<usize>::empty(),
            decreases o.len_spec() - count_true(self.tree_dirty@), stack@.len(),
        {
            proof {
                lemma_count_bound(self.tree_dirty@);
            }
            let ghost before = stack@;
            let p = match stack.pop() {
                Some(p) => p,
                None => {
                    assert(stack@ =~= Seq::<usize>::empty());
                    break;
                },
            };
            let ghost rest = stack@;
            let ghost count0 = count_true(self.tree_dirty@);
            assert(before =~= rest.push(p));
            assert(before[before.len() - 1] == p);
            assert(self.kids(p as int) == o.kids(p as int));
            let nk = self.children[p].len();
            let mut k: usize = 0;
            while k < nk
                invariant
                    o.wf(),
                    p < self.len_spec(),
                    self.dirty(p as int),
                    nk == self.kids(p as int).len(),
                    self.kids(p as int) == o.kids(p as int),
                    k <= nk,
                    self.mark_inv(o, stack@.push(p)),
                    rest.len() <= stack@.len(),
                    count_true(self.tree_dirty@) == count0 + (stack@.len() - rest.len()),
                    forall|j: int| 0 <= j < k ==> self.dirty(#[trigger] self.kids(p as int)[j] as int),
                decreases nk - k,
            {
                let c = self.children[p][k];
                assert(o.kids(p as int)[k as int] < o.len_spec());
                if !self.tree_dirty[c] {
                    let ghost s1 = *self;
                    let ghost st1 = stack@.push(p);
                    proof {
                        lemma_count_set(self.tree_dirty@, c as int);
                        assert(o.kids(p as int).contains(c));
                    }
                    self.tree_dirty.set(c, true);
                    let ghost sk = stack@;
                    stack.push(c);
                    assert(st1.drop_last() =~= sk);
                    assert(stack@.push(p) =~= st1.drop_last().push(c).push(p));
                    proof {
                        lemma_mark_step(o, s1, *self, st1, stack@.push(p), p, c);
                    }
                }
                k = k + 1;
            }
            proof {
                lemma_count_bound(self.tree_dirty@);
                let st = stack@.push(p);
                assert forall|m: usize, i: int| m < self.len_spec() && self.dirty(m as int)
                    && !stack@.contains(m) && 0 <= i < self.kids(m as int).len()
                    implies self.dirty(#[trigger] self.kids(m as int)[i] as int) by {
                    if m != p {
                        if st.contains(m) {
                            let j = choose|j: int| 0 <= j < st.len() && st[j] == m;
                            assert(st[st.len() - 1] == p);
                            assert(j != st.len() - 1);
                            assert(st[j] == stack@[j]);
                            assert(stack@.contains(m));
                        }
                    }
                }
                assert forall|j: int| 0 <= j < stack@.len() implies #[trigger] stack@[j] < self.len_spec()
                    && self.dirty(stack@[j] as int) by {
                    assert(st[j] == stack@[j]);
                }
            }
        }
        proof {
            lemma_wf_same_structure(o, *self);
            assert forall|q: int, k: int| 0 <= q < self.len_spec() && 0 <= k < self.kids(q).len() && self.dirty(q)
                implies self.dirty(#[trigger] self.kids(q)[k] as int) by {
                assert(self.dirty((q as usize) as int));
                assert(!Seq::<usize>::empty().contains(q as usize));
            }
            assert forall|m: int| 0 <= m < o.len_spec() && #[trigger] self.dirty(m) implies {
                ||| o.dirty(m)
                ||| o.source(m)
                ||| o.parent_of(m) matches Some(q) && self.dirty(q as int)
            } by {
                assert(o.parent_of(m) == self.parent_of(m));
            }
            if o.settled() {
                assert forall|m: int| 0 <= m < self.len_spec() && !self.dirty(m) && !self.changed(m)
                    implies #[trigger] self.consistent_at(m) by {
                    assert(o.consistent_at(m));
                    assert(o.parent_of(m) == self.parent_of(m));
                    if let Some(q) = o.parent_of(m) {
                        assert(q < o.len_spec());
                        assert(self.globals@[q as int] == o.globals@[q as int]);
                    }
                }
            }
        }
    }
}

} // verus!
