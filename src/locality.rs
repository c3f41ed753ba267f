use vstd::prelude::*;
use crate::hierarchy::{Hierarchy, lemma_chain_in_range, lemma_chain_stays_out};

verus! {

impl Hierarchy {
    /// Nothing is dirty and no node but `x` is flagged as changed.
    pub open spec fn only_changed(&self, x: int) -> bool {
        &&& forall|m: int| 0 <= m < self.len_spec() ==> !#[trigger] self.dirty(m)
        &&& forall|m: int| 0 <= m < self.len_spec() && m != x ==> !#[trigger] self.changed(m)
    }

    /// Nothing is dirty and `x` is the only node whose change starts a walk.
    pub open spec fn only_source(&self, x: int) -> bool {
        &&& forall|m: int| 0 <= m < self.len_spec() ==> !#[trigger] self.dirty(m)
        &&& forall|m: int| 0 <= m < self.len_spec() ==> (#[trigger] self.source(m) <==> m == x)
    }

    /// `n` lies in the subtree of `x`: `x` is `n` or one of its ancestors.
    pub open spec fn in_subtree(&self, x: int, n: int) -> bool {
        exists|k: nat| #[trigger] self.ancestor_at(n, k) == Some(x as usize)
    }
}

impl Hierarchy {
    /// Following parent links from `n` leaves the hierarchy or reaches a
    /// node that is not dirty.
    pub open spec fn grounded(&self, n: int) -> bool {
        exists|k: nat| match #[trigger] self.ancestor_at(n, k) {
            None => true,
            Some(a) => !self.dirty(a as int),
        }
    }
}

/// A node whose parent is clean or grounded, or which has none, is grounded.
pub proof fn lemma_grounded_child(h: Hierarchy, c: int)
    requires
        h.wf(),
        0 <= c < h.len_spec(),
        h.parent_of(c) matches Some(p) ==> !h.dirty(p as int) || h.grounded(p as int),
    ensures
        h.grounded(c),
{
    lemma_chain_shift(h, c, 0);
    match h.parent_of(c) {
        None => {
            assert(h.ancestor_at(c, 1) is None);
        },
        Some(p) => {
            assert(p < h.len_spec());
            if !h.dirty(p as int) {
                assert(h.ancestor_at(p as int, 0) == Some(p));
                assert(h.ancestor_at(c, 1) == Some(p));
            } else {
                let k = choose|k: nat| match #[trigger] h.ancestor_at(p as int, k) {
                    None => true,
                    Some(a) => !h.dirty(a as int),
                };
                lemma_chain_shift(h, c, k);
                assert(h.ancestor_at(c, k + 1) == h.ancestor_at(p as int, k));
            }
        },
    }
}

/// Following `a + b` links is following `a` links, then `b`.
pub proof fn lemma_chain_add(h: Hierarchy, n: int, a: nat, b: nat)
    requires
        h.wf(),
    ensures
        h.ancestor_at(n, a + b) == match h.ancestor_at(n, a) {
            Some(x) => h.ancestor_at(x as int, b),
            None => None,
        },
    decreases b,
{
    if b == 0 {
        lemma_chain_in_range(h, n, a);
        if let Some(x) = h.ancestor_at(n, a) {
            assert(h.ancestor_at(x as int, 0) == Some(x));
        }
    } else {
        lemma_chain_add(h, n, a, (b - 1) as nat);
        assert(((a + b) - 1) as nat == a + (b - 1) as nat);
        if let Some(x) = h.ancestor_at(n, a) {
        } else {
            lemma_chain_stays_out(h, n, a, a + b);
        }
    }
}

proof fn lemma_cycle_dirty_below(h: Hierarchy, n: int, p: nat, j: nat)
    requires
        h.wf(),
        h.dirty_closed(),
        0 <= n < h.len_spec(),
        h.dirty(n),
        1 <= p,
        h.ancestor_at(n, p) == Some(n as usize),
        j <= p,
    ensures
        h.ancestor_at(n, (p - j) as nat) matches Some(a) && a < h.len_spec() && h.dirty(a as int),
    decreases j,
{
    if j > 0 {
        lemma_cycle_dirty_below(h, n, p, (j - 1) as nat);
        let up = h.ancestor_at(n, (p - j + 1) as nat).unwrap();
        let lo = (p - j) as nat;
        if h.ancestor_at(n, lo) is None {
            lemma_chain_stays_out(h, n, lo, p);
        }
        lemma_chain_in_range(h, n, lo);
        let c = h.ancestor_at(n, lo).unwrap();
        assert(h.ancestor_at(n, (lo + 1) as nat) == h.parents@[c as int]);
        assert(h.parent_of(c as int) == Some(up));
        assert(h.kids(up as int).contains(c));
        let i = choose|i: int| 0 <= i < h.kids(up as int).len() && h.kids(up as int)[i] == c;
        assert(h.dirty(h.kids(up as int)[i] as int));
    } else {
        lemma_chain_in_range(h, n, p);
    }
}

proof fn lemma_cycle_dirty_all(h: Hierarchy, n: int, p: nat, k: nat)
    requires
        h.wf(),
        h.dirty_closed(),
        0 <= n < h.len_spec(),
        h.dirty(n),
        1 <= p,
        h.ancestor_at(n, p) == Some(n as usize),
    ensures
        h.ancestor_at(n, k) matches Some(a) && h.dirty(a as int),
    decreases k,
{
    if k <= p {
        lemma_cycle_dirty_below(h, n, p, (p - k) as nat);
    } else {
        lemma_cycle_dirty_all(h, n, p, (k - p) as nat);
        lemma_chain_add(h, n, p, (k - p) as nat);
    }
}

/// A dirty node on a cycle of a hierarchy whose dirty flags are closed
/// downward is not grounded: its chain runs round dirty nodes for ever.
pub proof fn lemma_cycle_not_grounded(h: Hierarchy, n: int)
    requires
        h.wf(),
        h.dirty_closed(),
        0 <= n < h.len_spec(),
        h.dirty(n),
        h.in_cycle(n),
    ensures
        !h.grounded(n),
{
    let p = choose|p: nat| 1 <= p <= h.len_spec() && #[trigger] h.ancestor_at(n, p) == Some(n as usize);
    assert forall|k: nat| !(match #[trigger] h.ancestor_at(n, k) {
        None => true,
        Some(a) => !h.dirty(a as int),
    }) by {
        lemma_cycle_dirty_all(h, n, p, k);
    }
}

/// Following `k + 1` links from `n` is following `k` links from its parent.
pub proof fn lemma_chain_shift(h: Hierarchy, n: int, k: nat)
    requires
        h.wf(),
        0 <= n < h.len_spec(),
    ensures
        h.ancestor_at(n, k + 1) == match h.parent_of(n) {
            Some(p) => h.ancestor_at(p as int, k),
            None => None,
        },
    decreases k,
{
    if k > 0 {
        lemma_chain_shift(h, n, (k - 1) as nat);
    } else {
        assert(h.ancestor_at(n, 0) == Some(n as usize));
        assert(h.parent_of(n) matches Some(p) ==> p < h.len_spec());
        if let Some(p) = h.parent_of(n) {
            assert(h.ancestor_at(p as int, 0) == Some(p));
        }
    }
}

proof fn lemma_dirty_reaches(before: Hierarchy, after: Hierarchy, x: usize, n: int, j: nat)
    requires
        before.wf(),
        before.marks(after),
        0 <= n < before.len_spec(),
        after.dirty(n),
        before.only_source(x as int),
        forall|i: nat| i < j ==> #[trigger] before.ancestor_at(n, i) != Some(x),
    ensures
        before.ancestor_at(n, j) matches Some(a) && a < before.len_spec() && after.dirty(a as int),
    decreases j,
{
    if j > 0 {
        lemma_dirty_reaches(before, after, x, n, (j - 1) as nat);
        let a = before.ancestor_at(n, (j - 1) as nat).unwrap();
        assert(before.ancestor_at(n, (j - 1) as nat) != Some(x));
        assert(!before.source(a as int));
        assert(before.parent_of(a as int) == before.parents@[a as int]);
        let p = before.parent_of(a as int).unwrap();
        assert(p < before.len_spec());
    } else {
        assert(n < before.len_spec());
    }
}

proof fn lemma_subtree_dirty(before: Hierarchy, after: Hierarchy, x: usize, n: int, k: nat)
    requires
        before.wf(),
        before.marks(after),
        0 <= n < before.len_spec(),
        before.source(x as int),
        before.ancestor_at(n, k) == Some(x),
    ensures
        after.dirty(n),
    decreases k,
{
    if k == 0 {
        assert(n == x as int);
    } else {
        lemma_chain_shift(before, n, (k - 1) as nat);
        let p = before.parent_of(n).unwrap();
        assert(p < before.len_spec());
        lemma_subtree_dirty(before, after, x, p as int, (k - 1) as nat);
        assert(before.parent_of((n as usize) as int) == Some(p));
        assert(before.kids(p as int).contains(n as usize));
        let i = choose|i: int| 0 <= i < before.kids(p as int).len() && before.kids(p as int)[i] == n as usize;
        assert(after.kids(p as int) == before.kids(p as int));
        assert(after.dirty(after.kids(p as int)[i] as int));
    }
}

/// Locality of dirty marking: on a hierarchy without cycles where nothing
/// is dirty and `x` is the only node whose change starts a walk, marking
/// leaves dirty exactly the nodes of the subtree of `x`, so propagation
/// recomputes those and keeps every other global transform.
pub proof fn lemma_marking_is_local(before: Hierarchy, after: Hierarchy, x: usize)
    requires
        before.wf(),
        before.acyclic(),
        before.marks(after),
        x < before.len_spec(),
        before.only_source(x as int),
    ensures
        forall|n: int| 0 <= n < before.len_spec() ==> (#[trigger] after.dirty(n) <==> before.in_subtree(x as int, n)),
{
    assert forall|n: int| 0 <= n < before.len_spec() implies (#[trigger] after.dirty(n) <==> before.in_subtree(
        x as int,
        n,
    )) by {
        assert(before.source(x as int));
        if after.dirty(n) {
            assert(before.chain_ends(n));
            let kk = choose|kk: nat| (#[trigger] before.ancestor_at(n, kk)) is None;
            if !(exists|i: nat| i < kk && #[trigger] before.ancestor_at(n, i) == Some(x)) {
                lemma_dirty_reaches(before, after, x, n, kk);
            }
            let i = choose|i: nat| i < kk && #[trigger] before.ancestor_at(n, i) == Some(x);
            assert(before.ancestor_at(n, i) == Some((x as int) as usize));
        }
        if before.in_subtree(x as int, n) {
            let k = choose|k: nat| #[trigger] before.ancestor_at(n, k) == Some((x as int) as usize);
            lemma_subtree_dirty(before, after, x, n, k);
        }
    }
}

/// Reparenting starts exactly one walk: moving `node` under `new_parent` in
/// a hierarchy with no flags set leaves `node` as the only flagged node of
/// the hierarchy.  So the next pass recomputes the subtree of `node`, under
/// its new parent, and keeps every other global transform.
pub proof fn lemma_reparent_flags_only_moved(before: Hierarchy, after: Hierarchy, node: usize, new_parent: usize)
    requires
        before.wf(),
        node < before.len_spec(),
        new_parent < before.len_spec(),
        forall|n: int| 0 <= n < before.len_spec() ==> !before.dirty(n) && !#[trigger] before.changed(n),
        before.reparented(after, node, new_parent),
    ensures
        after.only_source(node as int),
        after.parent_of(node as int) == Some(new_parent),
{
    let x = node as int;
    assert forall|m: int| 0 <= m < after.len_spec() implies !#[trigger] after.dirty(m) by {
        assert(!before.changed(m));
        assert(!before.dirty(m));
    }
    assert forall|m: int| 0 <= m < after.len_spec() implies (#[trigger] after.source(m) <==> m == x) by {
        assert(!before.changed(m));
        assert(!before.dirty(m));
        assert(after.local_changed@[m] == (m == node as int));
        if m == node {
            assert(after.parent_of(m) == Some(new_parent));
        }
    }
    assert(after.only_source(x));
}

} // verus!
