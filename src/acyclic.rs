use vstd::prelude::*;
use vstd::set_lib::{lemma_int_range, lemma_len_subset, set_int_range};
use crate::hierarchy::{Hierarchy, lemma_chain_in_range, lemma_chain_stays_out};
use crate::locality::lemma_chain_add;

verus! {

proof fn lemma_loop_never_ends(h: Hierarchy, a: int, p: nat, t: nat)
    requires
        h.wf(),
        0 <= a < h.len_spec(),
        1 <= p,
        h.ancestor_at(a, p) == Some(a as usize),
    ensures
        h.ancestor_at(a, t) is Some,
    decreases t,
{
    if t <= p {
        if h.ancestor_at(a, t) is None {
            lemma_chain_stays_out(h, a, t, p);
        }
    } else {
        lemma_loop_never_ends(h, a, p, (t - p) as nat);
        lemma_chain_add(h, a, p, (t - p) as nat);
    }
}

/// A chain that ends never visits a node twice.
proof fn lemma_chain_no_repeat(h: Hierarchy, n: int, i: nat, j: nat)
    requires
        h.wf(),
        h.chain_ends(n),
        i < j,
        h.ancestor_at(n, i) is Some,
    ensures
        h.ancestor_at(n, i) != h.ancestor_at(n, j),
{
    if h.ancestor_at(n, i) == h.ancestor_at(n, j) {
        let a = h.ancestor_at(n, i).unwrap();
        lemma_chain_in_range(h, n, i);
        lemma_chain_add(h, n, i, (j - i) as nat);
        let kk = choose|kk: nat| (#[trigger] h.ancestor_at(n, kk)) is None;
        if kk <= i {
            lemma_chain_stays_out(h, n, kk, i);
        } else {
            lemma_chain_add(h, n, i, (kk - i) as nat);
            lemma_loop_never_ends(h, a as int, (j - i) as nat, (kk - i) as nat);
        }
    }
}

/// On a hierarchy without cycles every chain leaves within `len` links.
pub proof fn lemma_chain_short(h: Hierarchy, n: int, k: nat)
    requires
        h.wf(),
        h.acyclic(),
        0 <= n < h.len_spec(),
        h.len_spec() <= k,
    ensures
        h.ancestor_at(n, k) is None,
{
    let len = h.len_spec();
    assert(h.chain_ends(n));
    if h.ancestor_at(n, len) is Some {
        let s = Seq::new(len + 1, |i: int| h.ancestor_at(n, i as nat).unwrap() as int);
        assert forall|i: int| 0 <= i <= len implies #[trigger] h.ancestor_at(n, i as nat) is Some by {
            if h.ancestor_at(n, i as nat) is None {
                lemma_chain_stays_out(h, n, i as nat, len);
            }
        }
        assert forall|a: int, b: int| 0 <= a < s.len() && 0 <= b < s.len() && a != b implies s[a] != s[b] by {
            if a < b {
                lemma_chain_no_repeat(h, n, a as nat, b as nat);
            } else {
                lemma_chain_no_repeat(h, n, b as nat, a as nat);
            }
        }
        s.unique_seq_to_set();
        assert forall|x: int| s.to_set().contains(x) implies set_int_range(0, len as int).contains(x) by {
            let i = choose|i: int| 0 <= i < s.len() && s[i] == x;
            lemma_chain_in_range(h, n, i as nat);
        }
        lemma_int_range(0, len as int);
        lemma_len_subset(s.to_set(), set_int_range(0, len as int));
    }
    lemma_chain_stays_out(h, n, len, k);
}

/// Chains after a reparenting agree with those before, up to `node`.
proof fn lemma_chain_agrees(before: Hierarchy, after: Hierarchy, node: usize, new_parent: usize, m: int, k: nat)
    requires
        before.wf(),
        node < before.len_spec(),
        before.reparented(after, node, new_parent),
        forall|j: nat| j < k ==> #[trigger] before.ancestor_at(m, j) != Some(node),
    ensures
        after.ancestor_at(m, k) == before.ancestor_at(m, k),
    decreases k,
{
    if k > 0 {
        lemma_chain_agrees(before, after, node, new_parent, m, (k - 1) as nat);
        assert(before.ancestor_at(m, (k - 1) as nat) != Some(node));
        assert(after.parents@.len() == before.parents@.len());
        if let Some(a) = before.ancestor_at(m, (k - 1) as nat) {
            if a < before.parents@.len() {
                assert(after.parents@[a as int] == before.parents@[a as int]);
            }
        }
    }
}

/// The first of the first `k` links of the chain of `m` that reaches
/// `node`, or `k` when none does.
proof fn first_hit(h: Hierarchy, m: int, node: usize, k: nat) -> (i: nat)
    ensures
        i <= k,
        i < k ==> h.ancestor_at(m, i) == Some(node),
        forall|j: nat| j < i ==> #[trigger] h.ancestor_at(m, j) != Some(node),
    decreases k,
{
    if k == 0 {
        0
    } else {
        let i = first_hit(h, m, node, (k - 1) as nat);
        if i < k - 1 {
            i
        } else if h.ancestor_at(m, (k - 1) as nat) == Some(node) {
            (k - 1) as nat
        } else {
            k
        }
    }
}

/// Reparenting keeps a hierarchy free of cycles: when `new_parent` is not
/// in the subtree of `node`, moving `node` under it closes no loop.
pub proof fn lemma_reparent_keeps_acyclic(before: Hierarchy, after: Hierarchy, node: usize, new_parent: usize)
    requires
        before.wf(),
        before.acyclic(),
        after.wf(),
        node < before.len_spec(),
        new_parent < before.len_spec(),
        !before.on_chain(node as int, new_parent as int),
        before.reparented(after, node, new_parent),
    ensures
        after.acyclic(),
{
    let len = before.len_spec();
    assert forall|j: nat| #[trigger] before.ancestor_at(new_parent as int, j) != Some(node) by {
        if j > len {
            lemma_chain_short(before, new_parent as int, j);
        }
    }
    lemma_chain_agrees(before, after, node, new_parent, new_parent as int, len);
    lemma_chain_short(before, new_parent as int, len);
    assert forall|m: int| 0 <= m < after.len_spec() implies #[trigger] after.chain_ends(m) by {
        lemma_chain_short(before, m, len);
        let i = first_hit(before, m, node, len + 1);
        lemma_chain_agrees(before, after, node, new_parent, m, i);
        if i == len + 1 {
            lemma_chain_agrees(before, after, node, new_parent, m, len);
            assert(after.ancestor_at(m, len) is None);
        } else {
            assert(after.ancestor_at(m, i) == Some(node));
            assert(after.ancestor_at(m, i + 1) == Some(new_parent));
            lemma_chain_add(after, m, i + 1, len);
            assert(after.ancestor_at(new_parent as int, 0) == Some(new_parent));
            assert(after.ancestor_at(m, i + 1 + len) is None);
        }
    }
}

/// A chain that stays in the hierarchy for `len` links runs into a node on
/// a cycle.
pub proof fn lemma_long_chain_meets_cycle(h: Hierarchy, n: int) -> (i: nat)
    requires
        h.wf(),
        0 <= n < h.len_spec(),
        h.ancestor_at(n, h.len_spec()) is Some,
    ensures
        i <= h.len_spec(),
        h.ancestor_at(n, i) matches Some(a) && h.in_cycle(a as int),
{
    let len = h.len_spec();
    assert forall|i: int| 0 <= i <= len implies #[trigger] h.ancestor_at(n, i as nat) is Some by {
        if h.ancestor_at(n, i as nat) is None {
            lemma_chain_stays_out(h, n, i as nat, len);
        }
    }
    if !(exists|i: nat, j: nat| #![trigger h.ancestor_at(n, i), h.ancestor_at(n, j)] i < j <= len
        && h.ancestor_at(n, i) == h.ancestor_at(n, j)) {
        let s = Seq::new(len + 1, |i: int| h.ancestor_at(n, i as nat).unwrap() as int);
        assert forall|a: int, b: int| 0 <= a < s.len() && 0 <= b < s.len() && a != b implies s[a] != s[b] by {
            assert(h.ancestor_at(n, a as nat) is Some);
            assert(h.ancestor_at(n, b as nat) is Some);
            if a < b {
                assert(h.ancestor_at(n, a as nat) != h.ancestor_at(n, b as nat));
            } else {
                assert(h.ancestor_at(n, b as nat) != h.ancestor_at(n, a as nat));
            }
        }
        s.unique_seq_to_set();
        assert forall|x: int| s.to_set().contains(x) implies set_int_range(0, len as int).contains(x) by {
            let i = choose|i: int| 0 <= i < s.len() && s[i] == x;
            lemma_chain_in_range(h, n, i as nat);
        }
        lemma_int_range(0, len as int);
        lemma_len_subset(s.to_set(), set_int_range(0, len as int));
    }
    let (i, j) = choose|i: nat, j: nat| #![trigger h.ancestor_at(n, i), h.ancestor_at(n, j)] i < j <= len
        && h.ancestor_at(n, i) == h.ancestor_at(n, j);
    assert(i < j <= len);
    if h.ancestor_at(n, i) is None {
        lemma_chain_stays_out(h, n, i, len);
    }
    let a = h.ancestor_at(n, i).unwrap();
    lemma_chain_in_range(h, n, i);
    lemma_chain_add(h, n, i, (j - i) as nat);
    assert(h.ancestor_at(a as int, (j - i) as nat) == Some(a));
    i
}

} // verus!
