use vstd::prelude::*;
use crate::transform::Transform;
use crate::hierarchy::{Hierarchy, HierarchyError, lemma_chain_stays_out, lemma_same_chain, lemma_wf_same_structure};

verus! {

impl Hierarchy {
    /// `c` is listed among the first `k` children of `p`, or among the
    /// children of a node before `p`.
    pub open spec fn listed_before(&self, p: int, k: int, c: usize) -> bool {
        match self.parent_of(c as int) {
            Some(q) => (q < p && self.kids(q as int).contains(c)) || (q == p && self.kids(p).subrange(0, k).contains(c)),
            None => false,
        }
    }

    /// Whether the tables are well formed; a hierarchy edited behind the
    /// index's back may not be.
    pub fn validate(&self) -> (r: Result<(), HierarchyError>)
        ensures
            r is Ok <==> self.wf(),
            r is Err ==> r == Err::<(), HierarchyError>(HierarchyError::CorruptHierarchyError),
    {
        let n = self.locals.len();
        if self.globals.len() != n || self.parents.len() != n || self.children.len() != n
            || self.tree_dirty.len() != n || self.local_changed.len() != n {
            return Err(HierarchyError::CorruptHierarchyError);
        }
        let mut c: usize = 0;
        while c < n
            invariant
                self.sized(),
                n == self.len_spec(),
                c <= n,
                forall|j: int| 0 <= j < c ==> (#[trigger] self.parent_of(j) matches Some(q) ==> q < n),
            decreases n - c,
        {
            if let Some(q) = self.parents[c] {
                if q >= n {
                    assert(self.parent_of(c as int) == Some(q));
                    return Err(HierarchyError::CorruptHierarchyError);
                }
            }
            c = c + 1;
        }
        let mut seen: Vec<bool> = Vec::new();
        let mut j: usize = 0;
        while j < n
            invariant
                j <= n,
                seen@.len() == j,
                forall|i: int| 0 <= i < j ==> !#[trigger] seen@[i],
            decreases n - j,
        {
            seen.push(false);
            j = j + 1;
        }
        let mut p: usize = 0;
        while p < n
            invariant
                self.sized(),
                n == self.len_spec(),
                p <= n,
                seen@.len() == n,
                forall|j: int| 0 <= j < n ==> (#[trigger] self.parent_of(j) matches Some(q) ==> q < n),
                forall|q: int, k: int| 0 <= q < p && 0 <= k < self.kids(q).len() ==> #[trigger] self.kids(q)[k] < n
                    && self.parent_of(self.kids(q)[k] as int) == Some(q as usize),
                forall|q: int| 0 <= q < p ==> (#[trigger] self.kids(q)).no_duplicates(),
                forall|x: usize| x < n ==> (#[trigger] seen@[x as int] <==> self.listed_before(p as int, 0, x)),
            decreases n - p,
        {
            let len = self.children[p].len();
            let mut k: usize = 0;
            proof {
                assert forall|x: usize| x < n implies (#[trigger] seen@[x as int] <==> self.listed_before(
                    p as int,
                    0,
                    x,
                )) by {
                    assert(!self.kids(p as int).subrange(0, 0).contains(x));
                }
            }
            while k < len
                invariant
                    self.sized(),
                    n == self.len_spec(),
                    p < n,
                    len == self.kids(p as int).len(),
                    k <= len,
                    seen@.len() == n,
                    forall|j: int| 0 <= j < n ==> (#[trigger] self.parent_of(j) matches Some(q) ==> q < n),
                    forall|q: int, i: int| 0 <= q < p && 0 <= i < self.kids(q).len() ==> #[trigger] self.kids(q)[i] < n
                        && self.parent_of(self.kids(q)[i] as int) == Some(q as usize),
                    forall|q: int| 0 <= q < p ==> (#[trigger] self.kids(q)).no_duplicates(),
                    forall|i: int| 0 <= i < k ==> #[trigger] self.kids(p as int)[i] < n
                        && self.parent_of(self.kids(p as int)[i] as int) == Some(p),
                    self.kids(p as int).subrange(0, k as int).no_duplicates(),
                    forall|x: usize| x < n ==> (#[trigger] seen@[x as int] <==> self.listed_before(p as int, k as int, x)),
                decreases len - k,
            {
                let ch = self.children[p][k];
                if ch >= n {
                    return Err(HierarchyError::CorruptHierarchyError);
                }
                if self.parents[ch] != Some(p) {
                    proof {
                        assert(self.kids(p as int).contains(ch));
                    }
                    return Err(HierarchyError::CorruptHierarchyError);
                }
                if seen[ch] {
                    proof {
                        let sub = self.kids(p as int).subrange(0, k as int);
                        assert(self.listed_before(p as int, k as int, ch));
                        let i = choose|i: int| 0 <= i < sub.len() && sub[i] == ch;
                        assert(self.kids(p as int)[i] == self.kids(p as int)[k as int]);
                    }
                    return Err(HierarchyError::CorruptHierarchyError);
                }
                let ghost s0 = seen@;
                seen.set(ch, true);
                proof {
                    let sub = self.kids(p as int).subrange(0, k as int);
                    let sub1 = self.kids(p as int).subrange(0, k as int + 1);
                    assert(sub1 == sub.push(ch));
                    assert(!sub.contains(ch));
                    assert forall|x: usize| x < n implies (#[trigger] seen@[x as int] <==> self.listed_before(
                        p as int,
                        k as int + 1,
                        x,
                    )) by {
                        if x != ch {
                            assert(sub1.contains(x) <==> sub.contains(x)) by {
                                if sub1.contains(x) {
                                    let i = choose|i: int| 0 <= i < sub1.len() && sub1[i] == x;
                                    assert(sub[i] == x);
                                }
                                if sub.contains(x) {
                                    let i = choose|i: int| 0 <= i < sub.len() && sub[i] == x;
                                    assert(sub1[i] == x);
                                }
                            }
                        } else {
                            assert(sub1[k as int] == ch);
                        }
                    }
                    assert forall|a: int, b: int| 0 <= a < sub1.len() && 0 <= b < sub1.len() && a != b
                        implies sub1[a] != sub1[b] by {
                        if a < k && b < k {
                            assert(sub1[a] == sub[a] && sub1[b] == sub[b]);
                        } else if a < k {
                            assert(sub.contains(sub1[a]));
                        } else {
                            assert(sub.contains(sub1[b]));
                        }
                    }
                }
                k = k + 1;
            }
            proof {
                assert(self.kids(p as int).subrange(0, len as int) == self.kids(p as int));
                assert forall|x: usize| x < n implies (#[trigger] seen@[x as int] <==> self.listed_before(
                    p as int + 1,
                    0,
                    x,
                )) by {
                    assert(!self.kids(p as int + 1).subrange(0, 0).contains(x));
                }
            }
            p = p + 1;
        }
        proof {
            assert forall|y: usize| y < n implies (#[trigger] seen@[y as int] <==> (self.parent_of(y as int) matches Some(q)
                && self.kids(q as int).contains(y))) by {
                assert(!self.kids(n as int).subrange(0, 0).contains(y));
            }
        }
        let mut x: usize = 0;
        while x < n
            invariant
                self.sized(),
                n == self.len_spec(),
                x <= n,
                seen@.len() == n,
                forall|j: int| 0 <= j < n ==> (#[trigger] self.parent_of(j) matches Some(q) ==> q < n),
                forall|q: int, i: int| 0 <= q < n && 0 <= i < self.kids(q).len() ==> #[trigger] self.kids(q)[i] < n
                    && self.parent_of(self.kids(q)[i] as int) == Some(q as usize),
                forall|q: int| 0 <= q < n ==> (#[trigger] self.kids(q)).no_duplicates(),
                forall|y: usize| y < n ==> (#[trigger] seen@[y as int] <==> (self.parent_of(y as int) matches Some(q)
                    && self.kids(q as int).contains(y))),
                forall|y: usize| y < x ==> (#[trigger] self.parent_of(y as int) matches Some(q) ==> self.kids(
                    q as int,
                ).contains(y)),
            decreases n - x,
        {
            if self.parents[x].is_some() && !seen[x] {
                return Err(HierarchyError::CorruptHierarchyError);
            }
            x = x + 1;
        }
        proof {
            assert forall|q: usize, ch: usize| q < self.len_spec() && ch < self.len_spec() implies
                (self.parent_of(ch as int) == Some(q) <==> #[trigger] self.kids(q as int).contains(ch)) by {
                if self.kids(q as int).contains(ch) {
                    let i = choose|i: int| 0 <= i < self.kids(q as int).len() && self.kids(q as int)[i] == ch;
                    assert(self.parent_of(self.kids(q as int)[i] as int) == Some(q));
                }
            }
        }
        Ok(())
    }
}

impl Hierarchy {
    /// Whether every table has one entry per node, which is all the leaf
    /// fast path needs.
    pub fn tables_sized(&self) -> (r: bool)
        ensures
            r == self.sized(),
    {
        let n = self.locals.len();
        self.globals.len() == n && self.parents.len() == n && self.children.len() == n && self.tree_dirty.len() == n
            && self.local_changed.len() == n
    }

    /// Flags as changed every node that is its own ancestor, and returns
    /// those nodes in handle order.  A cycle closed behind the index's back
    /// carries no flag of its own; once flagged, the next pass reports each
    /// of its nodes and takes it as a root.  This walks every chain, so it
    /// costs up to the square of the node count.
    pub fn flag_cycles(&mut self) -> (r: Vec<usize>)
        requires
            old(self).wf(),
        ensures
            final(self).wf(),
            final(self).locals@ == old(self).locals@,
            final(self).globals@ == old(self).globals@,
            final(self).parents@ == old(self).parents@,
            final(self).children@ == old(self).children@,
            final(self).tree_dirty@ == old(self).tree_dirty@,
            forall|n: int| 0 <= n < old(self).len_spec() ==> (#[trigger] final(self).changed(n) <==> old(self).changed(n)
                || old(self).in_cycle(n)),
            forall|n: usize| n < old(self).len_spec() ==> (#[trigger] r@.contains(n) <==> old(self).in_cycle(n as int)),
            forall|n: usize| n < old(self).len_spec() && old(self).in_cycle(n as int) ==> #[trigger] final(self).source(
                n as int,
            ),
            old(self).settled() ==> final(self).settled(),
    {
        let ghost o = *self;
        let n = self.len();
        let mut r: Vec<usize> = Vec::new();
        let mut i: usize = 0;
        while i < n
            invariant
                o.wf(),
                n == o.len_spec(),
                i <= n,
                self.sized(),
                self.len_spec() == n,
                self.locals@ == o.locals@,
                self.globals@ == o.globals@,
                self.parents@ == o.parents@,
                self.children@ == o.children@,
                self.tree_dirty@ == o.tree_dirty@,
                forall|m: int| 0 <= m < n ==> (#[trigger] self.changed(m) <==> o.changed(m) || (m < i && o.in_cycle(m))),
                forall|m: usize| m < n ==> (#[trigger] r@.contains(m) <==> m < i && o.in_cycle(m as int)),
            decreases n - i,
        {
            proof {
                lemma_wf_same_structure(o, *self);
            }
            let hit = self.chain_hits(i, i, 1);
            proof {
                if o.in_cycle(i as int) {
                    let k = choose|k: nat| 1 <= k <= o.len_spec() && #[trigger] o.ancestor_at(i as int, k) == Some(i);
                    lemma_same_chain(o, *self, i as int, k);
                }
                if hit {
                    let k = choose|k: nat| 1 <= k <= self.len_spec() && #[trigger] self.ancestor_at(i as int, k) == Some(i);
                    lemma_same_chain(o, *self, i as int, k);
                }
            }
            let ghost s0 = *self;
            let ghost r0 = r@;
            if hit {
                self.local_changed.set(i, true);
                r.push(i);
            }
            proof {
                assert forall|m: int| 0 <= m < n implies (#[trigger] self.changed(m) <==> o.changed(m) || (m < i + 1
                    && o.in_cycle(m))) by {
                    if m != i {
                        assert(self.changed(m) == s0.changed(m));
                    }
                }
                assert forall|m: usize| m < n implies (#[trigger] r@.contains(m) <==> m < i + 1 && o.in_cycle(m as int)) by {
                    if r0.contains(m) {
                        let j = choose|j: int| 0 <= j < r0.len() && r0[j] == m;
                        assert(r@[j] == m);
                    }
                    if r@.contains(m) && m != i {
                        let j = choose|j: int| 0 <= j < r@.len() && r@[j] == m;
                        if hit {
                            assert(j < r0.len());
                        }
                        assert(r0[j] == m);
                    }
                    if m == i && hit {
                        assert(r@[r@.len() - 1] == m);
                    }
                }
            }
            i = i + 1;
        }
        proof {
            lemma_wf_same_structure(o, *self);
            assert forall|m: usize| m < n && o.in_cycle(m as int) implies #[trigger] self.source(m as int) by {
                assert(self.changed(m as int));
                let k = choose|k: nat| 1 <= k <= o.len_spec() && #[trigger] o.ancestor_at(m as int, k) == Some(m);
                if o.parent_of(m as int) is None {
                    assert(o.ancestor_at(m as int, 0) == Some(m));
                    assert(o.ancestor_at(m as int, 1) is None);
                    lemma_chain_stays_out(o, m as int, 1, k);
                }
                assert(self.parent_of(m as int) == o.parent_of(m as int));
            }
            if o.settled() {
                assert forall|m: int| 0 <= m < n && !self.dirty(m) && !self.changed(m)
                    implies #[trigger] self.consistent_at(m) by {
                    assert(o.consistent_at(m));
                }
            }
        }
        r
    }
}

impl Hierarchy {
    /// The parent that repair keeps for `n`: its recorded parent when that
    /// names a node, none otherwise.
    pub open spec fn healed_parent(&self, n: int) -> Option<usize> {
        if n < self.parents@.len() {
            match self.parents@[n] {
                Some(p) => if p < self.len_spec() { Some(p) } else { None },
                None => None,
            }
        } else {
            None
        }
    }

    /// Rebuilds the tables from the local transforms and the parent table:
    /// a parent handle out of range is dropped, so that node becomes a
    /// root; every node's children are listed anew, in handle order; every
    /// node is flagged as changed so that the next pass recomputes it.
    pub fn repair(&mut self)
        ensures
            final(self).wf(),
            final(self).locals@ == old(self).locals@,
            forall|n: int| 0 <= n < old(self).len_spec() ==> #[trigger] final(self).parent_of(n)
                == old(self).healed_parent(n),
            forall|n: int| 0 <= n < old(self).len_spec() ==> #[trigger] final(self).changed(n) && !final(self).dirty(n),
            final(self).settled(),
    {
        let ghost o = *self;
        let n = self.locals.len();
        let mut parents: Vec<Option<usize>> = Vec::new();
        let mut globals: Vec<Transform> = Vec::new();
        let mut children: Vec<Vec<usize>> = Vec::new();
        let mut dirty: Vec<bool> = Vec::new();
        let mut changed: Vec<bool> = Vec::new();
        let mut i: usize = 0;
        while i < n
            invariant
                n == o.len_spec(),
                *self == o,
                i <= n,
                parents@.len() == i,
                globals@.len() == i,
                children@.len() == i,
                dirty@.len() == i,
                changed@.len() == i,
                forall|m: int| 0 <= m < i ==> #[trigger] parents@[m] == o.healed_parent(m),
                forall|m: int| 0 <= m < i ==> (#[trigger] children@[m])@.len() == 0,
                forall|m: int| 0 <= m < i ==> !#[trigger] dirty@[m] && changed@[m],
            decreases n - i,
        {
            let p = if i < self.parents.len() {
                match self.parents[i] {
                    Some(q) => if q < n { Some(q) } else { None },
                    None => None,
                }
            } else {
                None
            };
            assert(p == o.healed_parent(i as int));
            parents.push(p);
            let g = if i < self.globals.len() { self.globals[i] } else { Transform::identity() };
            globals.push(g);
            children.push(Vec::new());
            dirty.push(false);
            changed.push(true);
            i = i + 1;
        }
        let mut c: usize = 0;
        while c < n
            invariant
                n == o.len_spec(),
                *self == o,
                c <= n,
                parents@.len() == n,
                globals@.len() == n,
                dirty@.len() == n,
                changed@.len() == n,
                forall|m: int| 0 <= m < n ==> !#[trigger] dirty@[m] && changed@[m],
                children@.len() == n,
                forall|m: int| 0 <= m < n ==> #[trigger] parents@[m] == o.healed_parent(m),
                forall|q: int, k: int| 0 <= q < n && 0 <= k < children@[q]@.len() ==> #[trigger] children@[q]@[k] < c
                    && parents@[children@[q]@[k] as int] == Some(q as usize),
                forall|q: int, a: int, b: int| 0 <= q < n && 0 <= a < b < children@[q]@.len() ==> #[trigger] children@[q]@[a]
                    < #[trigger] children@[q]@[b],
                forall|x: int| 0 <= x < c ==> (#[trigger] parents@[x] matches Some(q) ==> children@[q as int]@.contains(
                    x as usize,
                )),
            decreases n - c,
        {
            if let Some(q) = parents[c] {
                let ghost before = children@;
                children[q].push(c);
                proof {
                    assert forall|qq: int, k: int| 0 <= qq < n && 0 <= k < children@[qq]@.len() implies #[trigger] children@[qq]@[k]
                        < c + 1 && parents@[children@[qq]@[k] as int] == Some(qq as usize) by {
                        if qq != q as int || k < before[qq]@.len() {
                            assert(children@[qq]@[k] == before[qq]@[k]);
                        }
                    }
                    assert forall|qq: int, a: int, b: int| 0 <= qq < n && 0 <= a < b < children@[qq]@.len() implies #[trigger] children@[qq]@[a]
                        < #[trigger] children@[qq]@[b] by {
                        if qq == q as int {
                            assert(children@[qq]@[a] == before[qq]@[a]);
                            if b < before[qq]@.len() {
                                assert(children@[qq]@[b] == before[qq]@[b]);
                            }
                        }
                    }
                    assert forall|x: int| 0 <= x < c + 1 implies (#[trigger] parents@[x] matches Some(qq) ==> children@[qq as int]@.contains(
                        x as usize,
                    )) by {
                        if let Some(qq) = parents@[x] {
                            if x < c {
                                let j = choose|j: int| 0 <= j < before[qq as int]@.len() && before[qq as int]@[j] == x as usize;
                                assert(children@[qq as int]@[j] == x as usize);
                            } else {
                                assert(children@[q as int]@[children@[q as int]@.len() - 1] == c);
                            }
                        }
                    }
                }
            }
            c = c + 1;
        }
        self.parents = parents;
        self.globals = globals;
        self.children = children;
        self.tree_dirty = dirty;
        self.local_changed = changed;
        proof {
            assert forall|m: int| 0 <= m < n implies #[trigger] self.changed(m) && !self.dirty(m) by {
                assert(!self.tree_dirty@[m] && self.local_changed@[m]);
            }
            assert forall|m: int| 0 <= m < n implies (#[trigger] self.kids(m)).no_duplicates() by {
                assert forall|a: int, b: int| 0 <= a < self.kids(m).len() && 0 <= b < self.kids(m).len() && a != b
                    implies self.kids(m)[a] != self.kids(m)[b] by {
                    if a < b {
                        assert(self.children@[m]@[a] < self.children@[m]@[b]);
                    } else {
                        assert(self.children@[m]@[b] < self.children@[m]@[a]);
                    }
                }
            }
            assert forall|q: usize, x: usize| q < self.len_spec() && x < self.len_spec() implies
                (self.parent_of(x as int) == Some(q) <==> #[trigger] self.kids(q as int).contains(x)) by {
                if self.kids(q as int).contains(x) {
                    let k = choose|k: int| 0 <= k < self.kids(q as int).len() && self.kids(q as int)[k] == x;
                    assert(self.children@[q as int]@[k] == x);
                }
            }
            assert forall|m: int| 0 <= m < n implies (#[trigger] self.parent_of(m) matches Some(q) ==> q < n) by {}
            assert forall|m: int, k: int| 0 <= m < n && 0 <= k < self.kids(m).len() implies #[trigger] self.kids(m)[k] < n by {
                assert(self.children@[m]@[k] < n);
            }
        }
    }
}

} // verus!
