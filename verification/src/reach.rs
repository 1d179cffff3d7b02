//! Reachability along parent links.
//!
//! The dependency structure over blocks is a partial map from a node to its
//! parent. These spec functions describe walking that map upward: reaching
//! one node from another in a fixed number of steps, and reaching a node
//! with no parent (a root) within a bounded number of steps. The lemmas
//! show how attaching one node under another preserves the guarantee that
//! every upward walk terminates, and that no node is ever its own ancestor.

use vstd::prelude::*;

verus! {

/// Walking up `k` parent links from `x` lands exactly on `y`.
pub open spec fn reaches(m: Map<int, int>, x: int, y: int, k: nat) -> bool
    decreases k,
{
    if k == 0 {
        x == y
    } else {
        m.contains_key(x) && reaches(m, m[x], y, (k - 1) as nat)
    }
}

/// `y` lies on the upward path that starts at `x` (possibly `x` itself).
pub open spec fn ancestor_or_self(m: Map<int, int>, x: int, y: int) -> bool {
    exists|k: nat| reaches(m, x, y, k)
}

/// The upward walk from `x` ends at a parentless node within `k` steps.
pub open spec fn rooted(m: Map<int, int>, x: int, k: nat) -> bool
    decreases k,
{
    if !m.contains_key(x) {
        true
    } else if k == 0 {
        false
    } else {
        rooted(m, m[x], (k - 1) as nat)
    }
}

/// The upward walk from `x` terminates within some bound.
pub open spec fn terminates(m: Map<int, int>, x: int) -> bool {
    exists|k: nat| rooted(m, x, k)
}

/// Every upward walk terminates: the map has no cycles among parent links.
pub open spec fn rooted_all(m: Map<int, int>) -> bool {
    forall|x: int| #[trigger] terminates(m, x)
}

/// An upward walk that starts inside `[0, n)` stays inside it when every
/// link of the map does.
pub proof fn lemma_reaches_in_range(m: Map<int, int>, x: int, y: int, k: nat, n: int)
    requires
        reaches(m, x, y, k),
        0 <= x < n,
        forall|i: int| #[trigger] m.contains_key(i) ==> 0 <= i < n && 0 <= m[i] < n,
    ensures
        0 <= y < n,
    decreases k,
{
    if k > 0 {
        lemma_reaches_in_range(m, m[x], y, (k - 1) as nat, n);
    }
}

/// Chaining two upward walks.
proof fn lemma_reaches_concat(m: Map<int, int>, a: int, b: int, c: int, i: nat, j: nat)
    requires
        reaches(m, a, b, i),
        reaches(m, b, c, j),
    ensures
        reaches(m, a, c, i + j),
    decreases i,
{
    if i > 0 {
        lemma_reaches_concat(m, m[a], b, c, (i - 1) as nat, j);
    }
}

/// A walk that terminates within `k` steps also terminates within any larger bound.
proof fn lemma_rooted_mono(m: Map<int, int>, x: int, k: nat, k2: nat)
    requires
        rooted(m, x, k),
        k <= k2,
    ensures
        rooted(m, x, k2),
    decreases k,
{
    if m.contains_key(x) {
        lemma_rooted_mono(m, m[x], (k - 1) as nat, (k2 - 1) as nat);
    }
}

/// A terminating upward walk ends at some parentless node.
pub proof fn lemma_rooted_ends_at_root(m: Map<int, int>, x: int, k: nat)
    requires
        rooted(m, x, k),
    ensures
        exists|r: int| #[trigger] ancestor_or_self(m, x, r) && !m.contains_key(r),
    decreases k,
{
    if !m.contains_key(x) {
        assert(reaches(m, x, x, 0));
        assert(ancestor_or_self(m, x, x));
    } else {
        lemma_rooted_ends_at_root(m, m[x], (k - 1) as nat);
        let r = choose|r: int| #[trigger] ancestor_or_self(m, m[x], r) && !m.contains_key(r);
        let j = choose|j: nat| reaches(m, m[x], r, j);
        assert(reaches(m, x, r, j + 1));
        assert(ancestor_or_self(m, x, r));
    }
}

/// If the upward walk from `p` never meets `c`, redirecting `c`'s parent
/// to `p` does not disturb the walk from `p`.
proof fn lemma_insert_keeps_avoiding_walk(m: Map<int, int>, c: int, p: int, x: int, k: nat)
    requires
        rooted(m, x, k),
        forall|j: nat| !reaches(m, x, c, j),
    ensures
        rooted(m.insert(c, p), x, k),
    decreases k,
{
    assert(!reaches(m, x, c, 0));
    if m.contains_key(x) {
        assert forall|j: nat| !reaches(m, m[x], c, j) by {
            if reaches(m, m[x], c, j) {
                assert(reaches(m, x, c, j + 1));
            }
        }
        lemma_insert_keeps_avoiding_walk(m, c, p, m[x], (k - 1) as nat);
    }
}

/// If the walk from `p` terminates in the updated map, then after setting
/// `c`'s parent to `p` every walk that terminated before still terminates.
proof fn lemma_insert_rooted_step(m: Map<int, int>, c: int, p: int, kp: nat, x: int, k: nat)
    requires
        rooted(m.insert(c, p), p, kp),
        rooted(m, x, k),
    ensures
        rooted(m.insert(c, p), x, k + kp + 1),
    decreases k,
{
    let m2 = m.insert(c, p);
    if x == c {
        assert(rooted(m2, p, kp));
        assert(rooted(m2, c, kp + 1));
        lemma_rooted_mono(m2, c, (kp + 1) as nat, (k + kp + 1) as nat);
    } else if !m.contains_key(x) {
        assert(!m2.contains_key(x));
    } else {
        lemma_insert_rooted_step(m, c, p, kp, m[x], (k - 1) as nat);
        assert(m2[x] == m[x]);
    }
}

/// Attaching `c` under `p` keeps every upward walk terminating, provided the
/// walk up from `p` never passes through `c`.
pub proof fn lemma_insert_preserves_rooted_all(m: Map<int, int>, c: int, p: int)
    requires
        rooted_all(m),
        forall|j: nat| !reaches(m, p, c, j),
    ensures
        rooted_all(m.insert(c, p)),
{
    let m2 = m.insert(c, p);
    assert(terminates(m, p));
    let kp = choose|kp: nat| rooted(m, p, kp);
    lemma_insert_keeps_avoiding_walk(m, c, p, p, kp);
    assert(rooted(m2, p, kp));
    assert forall|x: int| #[trigger] terminates(m2, x) by {
        assert(terminates(m, x));
        let k = choose|k: nat| rooted(m, x, k);
        lemma_insert_rooted_step(m, c, p, kp, x, k);
        assert(rooted(m2, x, (k + kp + 1) as nat));
    }
}

/// On a cyclic node the upward walk never terminates.
proof fn lemma_cycle_never_rooted(m: Map<int, int>, x: int, k: nat, j: nat)
    requires
        reaches(m, x, x, k),
        k >= 1,
    ensures
        !rooted(m, x, j),
    decreases j,
{
    assert(m.contains_key(x));
    if rooted(m, x, j) {
        assert(j > 0);
        assert(rooted(m, m[x], (j - 1) as nat));
        assert(reaches(m, m[x], x, (k - 1) as nat));
        assert(reaches(m, m[x], m[x], 0));
        assert(reaches(m, x, m[x], 1));
        lemma_reaches_concat(m, m[x], x, m[x], (k - 1) as nat, 1);
        assert(reaches(m, m[x], m[x], k));
        lemma_cycle_never_rooted(m, m[x], k, (j - 1) as nat);
    }
}

/// Where every upward walk terminates, no node is its own proper ancestor.
pub proof fn lemma_rooted_all_acyclic(m: Map<int, int>)
    requires
        rooted_all(m),
    ensures
        forall|x: int, k: nat| k >= 1 ==> !#[trigger] reaches(m, x, x, k),
{
    assert forall|x: int, k: nat| k >= 1 implies !#[trigger] reaches(m, x, x, k) by {
        if reaches(m, x, x, k) {
            assert(terminates(m, x));
            let j = choose|j: nat| rooted(m, x, j);
            lemma_cycle_never_rooted(m, x, k, j);
        }
    }
}

} // verus!
