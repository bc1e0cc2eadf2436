//! Orthogonally connected regions of cells and the flood fill that finds them.

use vstd::prelude::*;

use crate::grid::{col, lemma_cell_coords, lemma_idx_coords, ortho_delta, row, Grid};

verus! {

/// Cells `a` and `b` share a side.
pub open spec fn adjacent(g: &Grid, a: int, b: int) -> bool {
    let w = g.w as int;
    &&& 0 <= a < g.size()
    &&& 0 <= b < g.size()
    &&& ((col(w, a) == col(w, b) && (row(w, a) - row(w, b) == 1 || row(w, b) - row(w, a) == 1)) || (
    row(w, a) == row(w, b) && (col(w, a) - col(w, b) == 1 || col(w, b) - col(w, a) == 1)))
}

/// `p` walks from cell to side-sharing cell, only over cells in `keep`.
pub open spec fn is_path(g: &Grid, keep: Seq<bool>, p: Seq<int>) -> bool {
    &&& p.len() > 0
    &&& forall|i: int| 0 <= i < p.len() ==> 0 <= #[trigger] p[i] < g.size() && keep[p[i]]
    &&& forall|i: int| 0 <= i < p.len() - 1 ==> adjacent(g, #[trigger] p[i], p[i + 1])
}

/// `b` can be reached from `a` over side-sharing cells of `keep`.
pub open spec fn connected(g: &Grid, keep: Seq<bool>, a: int, b: int) -> bool {
    exists|p: Seq<int>| #[trigger] is_path(g, keep, p) && p[0] == a && p.last() == b
}

/// Number of indices below `n` that satisfy `f`.
pub open spec fn count_pred(n: int, f: spec_fn(int) -> bool) -> nat
    decreases n,
{
    if n <= 0 {
        0
    } else {
        count_pred(n - 1, f) + if f(n - 1) {
            1nat
        } else {
            0nat
        }
    }
}

/// Number of cells in the region of `c`.
pub open spec fn region_size(g: &Grid, keep: Seq<bool>, c: int) -> nat {
    count_pred(g.size(), |j: int| connected(g, keep, c, j))
}

/// Size of the largest region among the cells `0..k`.
pub open spec fn largest_upto(g: &Grid, keep: Seq<bool>, k: int) -> nat
    decreases k,
{
    if k <= 0 {
        0
    } else {
        let prev = largest_upto(g, keep, k - 1);
        if keep[k - 1] && region_size(g, keep, k - 1) > prev {
            region_size(g, keep, k - 1)
        } else {
            prev
        }
    }
}

/// Size of the largest region of `keep` cells.
pub open spec fn largest_region_size(g: &Grid, keep: Seq<bool>) -> nat {
    largest_upto(g, keep, g.size())
}

/// Number of entries equal to `v`.
pub open spec fn count_eq(s: Seq<usize>, v: usize) -> nat
    decreases s.len(),
{
    if s.len() == 0 {
        0
    } else {
        count_eq(s.drop_last(), v) + if s.last() == v {
            1nat
        } else {
            0nat
        }
    }
}

/// Labelled cells are kept, and the labelled cells are closed under sides:
/// a kept neighbour of a labelled cell is labelled too.
pub open spec fn labels_closed(g: &Grid, keep: Seq<bool>, labels: Seq<usize>) -> bool {
    &&& forall|i: int| 0 <= i < labels.len() && labels[i] != usize::MAX ==> #[trigger] keep[i]
    &&& forall|a: int, b: int|
        adjacent(g, a, b) && keep[b] && #[trigger] labels[a] != usize::MAX ==> #[trigger] labels[b]
            != usize::MAX
}

// ---------------------------------------------------------------------------
// Lemmas
// ---------------------------------------------------------------------------

pub proof fn lemma_adjacent_symmetric(g: &Grid, a: int, b: int)
    ensures
        adjacent(g, a, b) == adjacent(g, b, a),
{
}

/// The orthogonal table lists exactly the side-sharing cells.
pub proof fn lemma_on_adjacent(g: &Grid, a: int, k: int)
    requires
        g.wf(),
        0 <= a < g.size(),
        0 <= k < 4,
    ensures
        g.on(a, k) matches Some(b) ==> adjacent(g, a, b as int),
{
    let w = g.w as int;
    let h = g.h as int;
    lemma_cell_coords(w, h, a);
    let d = ortho_delta(k);
    let x = col(w, a) + d.0;
    let y = row(w, a) + d.1;
    if 0 <= x < w && 0 <= y < h {
        lemma_idx_coords(w, h, x, y);
    }
}

pub proof fn lemma_adjacent_on(g: &Grid, a: int, b: int)
    requires
        g.wf(),
        adjacent(g, a, b),
    ensures
        exists|k: int| 0 <= k < 4 && #[trigger] g.on(a, k) == Some(b as usize),
{
    let w = g.w as int;
    let h = g.h as int;
    lemma_cell_coords(w, h, a);
    lemma_cell_coords(w, h, b);
    let (xa, ya, xb, yb) = (col(w, a), row(w, a), col(w, b), row(w, b));
    let k = if xa == xb && ya - yb == 1 {
        0int
    } else if ya == yb && xb - xa == 1 {
        1int
    } else if xa == xb && yb - ya == 1 {
        2int
    } else {
        3int
    };
    assert(g.on(a, k) == Some(b as usize));
}

pub proof fn lemma_connected_refl(g: &Grid, keep: Seq<bool>, a: int)
    requires
        0 <= a < g.size(),
        keep.len() == g.size(),
        keep[a],
    ensures
        connected(g, keep, a, a),
{
    let p = seq![a];
    assert(is_path(g, keep, p));
    assert(p[0] == a && p.last() == a);
}

pub proof fn lemma_connected_step(g: &Grid, keep: Seq<bool>, a: int, b: int, c: int)
    requires
        connected(g, keep, a, b),
        adjacent(g, b, c),
        keep[c],
    ensures
        connected(g, keep, a, c),
{
    let p = choose|p: Seq<int>| is_path(g, keep, p) && p[0] == a && p.last() == b;
    let q = p.push(c);
    assert forall|i: int| 0 <= i < q.len() - 1 implies adjacent(g, #[trigger] q[i], q[i + 1]) by {
        if i < p.len() - 1 {
            assert(q[i] == p[i] && q[i + 1] == p[i + 1]);
        }
    }
    assert forall|i: int| 0 <= i < q.len() implies 0 <= #[trigger] q[i] < g.size() && keep[q[i]] by {
        if i < p.len() {
            assert(q[i] == p[i]);
        }
    }
    assert(is_path(g, keep, q));
    assert(q[0] == a && q.last() == c);
}

pub proof fn lemma_connected_symmetric(g: &Grid, keep: Seq<bool>, a: int, b: int)
    requires
        connected(g, keep, a, b),
    ensures
        connected(g, keep, b, a),
{
    let p = choose|p: Seq<int>| is_path(g, keep, p) && p[0] == a && p.last() == b;
    let q = p.reverse();
    assert forall|i: int| 0 <= i < q.len() - 1 implies adjacent(g, #[trigger] q[i], q[i + 1]) by {
        let j = p.len() - 2 - i;
        assert(q[i] == p[j + 1] && q[i + 1] == p[j]);
        assert(adjacent(g, p[j], p[j + 1]));
        lemma_adjacent_symmetric(g, p[j], p[j + 1]);
    }
    assert forall|i: int| 0 <= i < q.len() implies 0 <= #[trigger] q[i] < g.size() && keep[q[i]] by {
        assert(q[i] == p[p.len() - 1 - i]);
    }
    assert(is_path(g, keep, q));
    assert(q[0] == b && q.last() == a);
}

pub proof fn lemma_connected_trans(g: &Grid, keep: Seq<bool>, a: int, b: int, c: int)
    requires
        connected(g, keep, a, b),
        connected(g, keep, b, c),
    ensures
        connected(g, keep, a, c),
{
    let p = choose|p: Seq<int>| is_path(g, keep, p) && p[0] == a && p.last() == b;
    let q = choose|q: Seq<int>| is_path(g, keep, q) && q[0] == b && q.last() == c;
    let r = p + q.drop_first();
    assert forall|i: int| 0 <= i < r.len() implies 0 <= #[trigger] r[i] < g.size() && keep[r[i]] by {
        if i >= p.len() {
            assert(r[i] == q[i - p.len() + 1]);
        }
    }
    assert forall|i: int| 0 <= i < r.len() - 1 implies adjacent(g, #[trigger] r[i], r[i + 1]) by {
        if i < p.len() - 1 {
            assert(r[i] == p[i] && r[i + 1] == p[i + 1]);
        } else if i == p.len() - 1 {
            assert(r[i] == b && r[i + 1] == q[1]);
            assert(adjacent(g, q[0], q[1]));
        } else {
            let j = i - p.len() + 1;
            assert(r[i] == q[j] && r[i + 1] == q[j + 1]);
        }
    }
    if q.len() == 1 {
        assert(r =~= p);
    } else {
        assert(r.last() == q.last());
    }
    assert(is_path(g, keep, r));
    assert(r[0] == a && r.last() == c);
}

/// Reachability only grows with the set of cells that may be walked on.
pub proof fn lemma_connected_mono(g: &Grid, keep: Seq<bool>, more: Seq<bool>, a: int, b: int)
    requires
        connected(g, keep, a, b),
        keep.len() == g.size(),
        more.len() == g.size(),
        forall|i: int| 0 <= i < keep.len() && #[trigger] keep[i] ==> more[i],
    ensures
        connected(g, more, a, b),
{
    let p = choose|p: Seq<int>| is_path(g, keep, p) && p[0] == a && p.last() == b;
    assert forall|i: int| 0 <= i < p.len() implies 0 <= #[trigger] p[i] < g.size() && more[p[i]] by {
        assert(keep[p[i]]);
    }
    assert(is_path(g, more, p));
}

/// A walk from `a` only passes cells reachable from `a`, so keeping just
/// those cells keeps every walk from `a`.
pub proof fn lemma_connected_within(g: &Grid, keep: Seq<bool>, less: Seq<bool>, a: int, b: int)
    requires
        connected(g, keep, a, b),
        keep.len() == g.size(),
        less.len() == g.size(),
        forall|i: int| 0 <= i < keep.len() && keep[i] && #[trigger] connected(g, keep, a, i) ==> less[i],
    ensures
        connected(g, less, a, b),
{
    let p = choose|p: Seq<int>| is_path(g, keep, p) && p[0] == a && p.last() == b;
    assert forall|i: int| 0 <= i < p.len() implies 0 <= #[trigger] p[i] < g.size() && less[p[i]] by {
        let q = p.take(i + 1);
        assert(is_path(g, keep, q)) by {
            assert forall|j: int| 0 <= j < q.len() - 1 implies adjacent(g, #[trigger] q[j], q[j + 1]) by {
                assert(q[j] == p[j] && q[j + 1] == p[j + 1]);
            }
        }
        assert(q[0] == a && q.last() == p[i]);
        assert(connected(g, keep, a, p[i]));
    }
    assert(is_path(g, less, p));
}

/// Connected cells are kept cells on the board.
pub proof fn lemma_connected_ends(g: &Grid, keep: Seq<bool>, a: int, b: int)
    requires
        connected(g, keep, a, b),
    ensures
        0 <= a < g.size(),
        0 <= b < g.size(),
        keep[a],
        keep[b],
{
    let p = choose|p: Seq<int>| is_path(g, keep, p) && p[0] == a && p.last() == b;
    assert(0 <= p[0] < g.size() && keep[p[0]]);
    assert(0 <= p[p.len() - 1] < g.size() && keep[p[p.len() - 1]]);
}

/// In closed labels, every cell reachable from a labelled cell is labelled,
/// and when the labels only grew from closed old labels, every cell reachable
/// from a newly labelled cell is newly labelled.
proof fn lemma_closed_reach(
    g: &Grid,
    keep: Seq<bool>,
    old_labels: Seq<usize>,
    labels: Seq<usize>,
    lab: usize,
    p: Seq<int>,
)
    requires
        g.wf(),
        keep.len() == g.size(),
        labels.len() == g.size(),
        old_labels.len() == g.size(),
        labels_closed(g, keep, labels),
        labels_closed(g, keep, old_labels),
        lab != usize::MAX,
        forall|i: int| 0 <= i < g.size() && labels[i] != lab ==> labels[i] == old_labels[i],
        forall|i: int| 0 <= i < g.size() && labels[i] == lab ==> old_labels[i] == usize::MAX,
        is_path(g, keep, p),
        labels[p[0]] == lab,
    ensures
        labels[p.last()] == lab,
    decreases p.len(),
{
    if p.len() > 1 {
        let q = p.drop_last();
        assert(is_path(g, keep, q)) by {
            assert forall|i: int| 0 <= i < q.len() - 1 implies adjacent(g, #[trigger] q[i], q[i + 1]) by {
                assert(adjacent(g, p[i], p[i + 1]));
            }
            assert forall|i: int| 0 <= i < q.len() implies 0 <= #[trigger] q[i] < g.size() && keep[q[i]] by {
                assert(q[i] == p[i]);
            }
        }
        lemma_closed_reach(g, keep, old_labels, labels, lab, q);
        let a = p[p.len() - 2];
        let b = p.last();
        assert(q.last() == a);
        assert(adjacent(g, a, b));
        assert(keep[b]);
        assert(labels[b] != usize::MAX);
        if labels[b] != lab {
            assert(old_labels[b] != usize::MAX);
            lemma_adjacent_symmetric(g, a, b);
            assert(keep[a]);
            assert(old_labels[a] != usize::MAX);
            assert(false);
        }
    }
}

pub proof fn lemma_count_eq_update(s: Seq<usize>, i: int, v: usize)
    requires
        0 <= i < s.len(),
        s[i] != v,
    ensures
        count_eq(s.update(i, v), v) == count_eq(s, v) + 1,
    decreases s.len(),
{
    let t = s.update(i, v);
    if i < s.len() - 1 {
        assert(t.drop_last() =~= s.drop_last().update(i, v));
        lemma_count_eq_update(s.drop_last(), i, v);
    } else {
        assert(t.drop_last() =~= s.drop_last());
    }
}

pub proof fn lemma_count_eq_bound(s: Seq<usize>, v: usize)
    ensures
        count_eq(s, v) <= s.len(),
    decreases s.len(),
{
    if s.len() > 0 {
        lemma_count_eq_bound(s.drop_last(), v);
    }
}

/// Counting entries equal to `v` is counting a predicate that matches them.
pub proof fn lemma_count_eq_pred(s: Seq<usize>, v: usize, f: spec_fn(int) -> bool)
    requires
        forall|j: int| 0 <= j < s.len() ==> (s[j] == v) == #[trigger] f(j),
    ensures
        count_eq(s, v) == count_pred(s.len() as int, f),
    decreases s.len(),
{
    if s.len() > 0 {
        let t = s.drop_last();
        assert forall|j: int| 0 <= j < t.len() implies (t[j] == v) == f(j) by {
            assert(t[j] == s[j]);
        }
        lemma_count_eq_pred(t, v, f);
    }
}

pub proof fn lemma_count_pred_ext(n: int, f: spec_fn(int) -> bool, f2: spec_fn(int) -> bool)
    requires
        forall|j: int| 0 <= j < n ==> #[trigger] f(j) == f2(j),
    ensures
        count_pred(n, f) == count_pred(n, f2),
    decreases n,
{
    if n > 0 {
        lemma_count_pred_ext(n - 1, f, f2);
    }
}

pub proof fn lemma_count_pred_bound(n: int, f: spec_fn(int) -> bool)
    requires
        n >= 0,
    ensures
        count_pred(n, f) <= n,
    decreases n,
{
    if n > 0 {
        lemma_count_pred_bound(n - 1, f);
    }
}

/// Connected cells have regions of the same size.
pub proof fn lemma_region_size_connected(g: &Grid, keep: Seq<bool>, a: int, b: int)
    requires
        connected(g, keep, a, b),
    ensures
        region_size(g, keep, a) == region_size(g, keep, b),
{
    assert forall|j: int| 0 <= j < g.size() implies connected(g, keep, a, j) == connected(
        g,
        keep,
        b,
        j,
    ) by {
        lemma_connected_symmetric(g, keep, a, b);
        if connected(g, keep, a, j) {
            lemma_connected_trans(g, keep, b, a, j);
        }
        if connected(g, keep, b, j) {
            lemma_connected_trans(g, keep, a, b, j);
        }
    }
    lemma_count_pred_ext(
        g.size(),
        |j: int| connected(g, keep, a, j),
        |j: int| connected(g, keep, b, j),
    );
}

// ---------------------------------------------------------------------------
// Flood fill
// ---------------------------------------------------------------------------

/// Label every unlabelled cell reachable from `start` over `keep` cells with
/// `lab`. Returns how many cells were labelled.
pub fn fill(g: &Grid, keep: &Vec<bool>, start: usize, labels: &mut Vec<usize>, lab: usize) -> (count:
    usize)
    requires
        g.wf(),
        keep@.len() == g.size(),
        old(labels)@.len() == g.size(),
        start < g.size(),
        keep@[start as int],
        old(labels)@[start as int] == usize::MAX,
        lab != usize::MAX,
        forall|i: int| 0 <= i < g.size() ==> #[trigger] old(labels)@[i] != lab,
        labels_closed(g, keep@, old(labels)@),
    ensures
        final(labels)@.len() == g.size(),
        labels_closed(g, keep@, final(labels)@),
        forall|i: int|
            0 <= i < g.size() ==> #[trigger] final(labels)@[i] == if connected(
                g,
                keep@,
                start as int,
                i,
            ) {
                lab
            } else {
                old(labels)@[i]
            },
        forall|i: int|
            0 <= i < g.size() && connected(g, keep@, start as int, i) ==> #[trigger] old(labels)@[i]
                == usize::MAX,
        count == count_eq(final(labels)@, lab),
        count == region_size(g, keep@, start as int),
{
    let ghost old_labels = labels@;
    let ghost n = g.size();
    let ghost kp = keep@;
    let ghost st = start as int;
    proof {
        lemma_count_eq_update(labels@, start as int, lab);
        lemma_connected_refl(g, kp, st);
    }
    labels.set(start, lab);
    proof {
        // before the first label, `lab` did not occur
        assert(count_eq(old_labels, lab) == 0) by {
            lemma_count_eq_zero(old_labels, lab);
        }
    }
    let mut stack: Vec<usize> = Vec::new();
    stack.push(start);
    let mut count: usize = 0;
    proof {
        assert(stack@[0] == start);
        assert forall|a: int, b: int|
            adjacent(g, a, b) && kp[b] && #[trigger] labels@[a] != usize::MAX && !stack@.contains(
                a as usize,
            ) implies #[trigger] labels@[b] != usize::MAX by {
            if a != st {
                assert(old_labels[a] != usize::MAX);
                assert(old_labels[b] != usize::MAX);
            } else {
                assert(stack@.contains(start));
            }
        }
        assert forall|i: int|
            0 <= i < n && #[trigger] labels@[i] == lab implies old_labels[i] == usize::MAX
                && connected(g, kp, st, i) by {
            if i != st {
                assert(labels@[i] == old_labels[i]);
            }
        }
        lemma_count_eq_bound(labels@, lab);
    }
    while stack.len() > 0
        invariant
            g.wf(),
            kp == keep@,
            n == g.size(),
            kp.len() == n,
            st < n,
            lab != usize::MAX,
            labels@.len() == n,
            labels@[st] == lab,
            old_labels.len() == n,
            labels_closed(g, kp, old_labels),
            forall|i: int| 0 <= i < n ==> #[trigger] old_labels[i] != lab,
            forall|i: int| 0 <= i < n && labels@[i] != lab ==> labels@[i] == #[trigger] old_labels[i],
            forall|i: int|
                0 <= i < n && #[trigger] labels@[i] == lab ==> old_labels[i] == usize::MAX && connected(
                    g,
                    kp,
                    st,
                    i,
                ),
            forall|j: int|
                0 <= j < stack@.len() ==> #[trigger] stack@[j] < n && labels@[stack@[j] as int]
                    == lab,
            forall|j1: int, j2: int| 0 <= j1 < j2 < stack@.len() ==> stack@[j1] != stack@[j2],
            forall|i: int| 0 <= i < n && labels@[i] != usize::MAX ==> #[trigger] kp[i],
            forall|a: int, b: int|
                adjacent(g, a, b) && kp[b] && #[trigger] labels@[a] != usize::MAX && !stack@.contains(
                    a as usize,
                ) ==> #[trigger] labels@[b] != usize::MAX,
            count + stack@.len() == count_eq(labels@, lab),
            count_eq(labels@, lab) <= n,
        decreases n - count,
    {
        let ghost stack_full = stack@;
        let c = stack.pop().unwrap();
        let nbs = g.ortho(c);
        proof {
            assert(stack_full == stack@.push(c));
            assert forall|a: int, b: int|
                adjacent(g, a, b) && kp[b] && #[trigger] labels@[a] != usize::MAX && a != c
                    && !stack@.contains(a as usize) implies #[trigger] labels@[b] != usize::MAX by {
                if stack_full.contains(a as usize) {
                    let j = choose|j: int| 0 <= j < stack_full.len() && stack_full[j] == a as usize;
                    if j < stack@.len() {
                        assert(stack@[j] == a as usize);
                    }
                }
            }
            lemma_count_eq_bound(labels@, lab);
            assert(!stack@.contains(c)) by {
                if stack@.contains(c) {
                    let j = choose|j: int| 0 <= j < stack@.len() && stack@[j] == c;
                    assert(stack@.push(c)[j] == stack@.push(c)[stack@.len() as int]);
                }
            }
        }
        let mut k: usize = 0;
        while k < 4
            invariant
                g.wf(),
                kp == keep@,
                n == g.size(),
                kp.len() == n,
                st < n,
                c < n,
                lab != usize::MAX,
                labels@[c as int] == lab,
                !stack@.contains(c),
                forall|j: int| 0 <= j < 4 ==> #[trigger] nbs@[j] == g.on(c as int, j),
                k <= 4,
                labels@.len() == n,
                labels@[st] == lab,
                old_labels.len() == n,
                labels_closed(g, kp, old_labels),
                forall|i: int| 0 <= i < n ==> #[trigger] old_labels[i] != lab,
                forall|i: int| 0 <= i < n && labels@[i] != lab ==> labels@[i] == #[trigger] old_labels[i],
                forall|i: int|
                    0 <= i < n && #[trigger] labels@[i] == lab ==> old_labels[i] == usize::MAX && connected(
                        g,
                        kp,
                        st,
                        i,
                    ),
                forall|j: int|
                    0 <= j < stack@.len() ==> #[trigger] stack@[j] < n && labels@[stack@[j] as int]
                        == lab,
                forall|j1: int, j2: int| 0 <= j1 < j2 < stack@.len() ==> stack@[j1] != stack@[j2],
                forall|i: int| 0 <= i < n && labels@[i] != usize::MAX ==> #[trigger] kp[i],
                forall|a: int, b: int|
                    adjacent(g, a, b) && kp[b] && #[trigger] labels@[a] != usize::MAX && a != c
                        && !stack@.contains(a as usize) ==> #[trigger] labels@[b] != usize::MAX,
                forall|j: int|
                    0 <= j < k ==> (#[trigger] g.on(c as int, j) matches Some(b) ==> (kp[b as int]
                        ==> labels@[b as int] != usize::MAX)),
                count + 1 + stack@.len() == count_eq(labels@, lab),
                count_eq(labels@, lab) <= n,
            decreases 4 - k,
        {
            if let Some(nb) = nbs[k] {
                proof {
                    lemma_on_adjacent(g, c as int, k as int);
                }
                if labels[nb] == usize::MAX && keep[nb] {
                    proof {
                        lemma_count_eq_update(labels@, nb as int, lab);
                        lemma_connected_step(g, kp, st, c as int, nb as int);
                        assert(!stack@.contains(nb)) by {
                            if stack@.contains(nb) {
                                let j = choose|j: int| 0 <= j < stack@.len() && stack@[j] == nb;
                            }
                        }
                    }
                    let ghost before = labels@;
                    let ghost stack_before = stack@;
                    labels.set(nb, lab);
                    stack.push(nb);
                    proof {
                        assert forall|j: int|
                            0 <= j < k + 1 implies (#[trigger] g.on(c as int, j) matches Some(b) ==> (
                            kp[b as int] ==> labels@[b as int] != usize::MAX)) by {
                            lemma_on_adjacent(g, c as int, j);
                            if j < k {
                                if let Some(b) = g.on(c as int, j) {
                                    if kp[b as int] {
                                        assert(before[b as int] != usize::MAX);
                                        if b != nb {
                                            assert(labels@[b as int] == before[b as int]);
                                        }
                                    }
                                }
                            } else {
                                assert(nbs@[k as int] == g.on(c as int, k as int));
                                assert(g.on(c as int, j) == Some(nb));
                            }
                        }
                        lemma_count_eq_bound(labels@, lab);
                        assert forall|j: int| 0 <= j < stack@.len() implies #[trigger] stack@[j] < n
                            && labels@[stack@[j] as int] == lab by {
                            if j < stack_before.len() {
                                assert(stack@[j] == stack_before[j]);
                            }
                        }
                        assert forall|a: int, b: int|
                            adjacent(g, a, b) && kp[b] && #[trigger] labels@[a] != usize::MAX && a
                                != c && !stack@.contains(a as usize) implies #[trigger] labels@[b]
                            != usize::MAX by {
                            if a != nb {
                                assert(before[a] != usize::MAX);
                                if stack_before.contains(a as usize) {
                                    let j = choose|j: int| 0 <= j < stack_before.len() && stack_before[j] == a as usize;
                                    assert(stack@[j] == a as usize);
                                }
                            } else {
                                assert(stack@[stack@.len() - 1] == nb);
                            }
                        }
                    }
                }
            }
            k = k + 1;
        }
        proof {
            assert forall|a: int, b: int|
                adjacent(g, a, b) && kp[b] && #[trigger] labels@[a] != usize::MAX
                    && !stack@.contains(a as usize) implies #[trigger] labels@[b] != usize::MAX by {
                if a == c {
                    lemma_adjacent_on(g, a, b);
                    let j = choose|j: int| 0 <= j < 4 && #[trigger] g.on(a, j) == Some(b as usize);
                }
            }
        }
        count = count + 1;
    }
    proof {
        assert(labels_closed(g, kp, labels@));
        assert forall|i: int| 0 <= i < n implies #[trigger] labels@[i] == if connected(g, kp, st, i) {
            lab
        } else {
            old_labels[i]
        } by {
            if connected(g, kp, st, i) {
                let p = choose|p: Seq<int>| is_path(g, kp, p) && p[0] == st && p.last() == i;
                lemma_closed_reach(g, kp, old_labels, labels@, lab, p);
            }
        }
        lemma_count_eq_pred(labels@, lab, |j: int| connected(g, kp, st, j));
    }
    count
}

proof fn lemma_count_eq_zero(s: Seq<usize>, v: usize)
    requires
        forall|i: int| 0 <= i < s.len() ==> #[trigger] s[i] != v,
    ensures
        count_eq(s, v) == 0,
    decreases s.len(),
{
    if s.len() > 0 {
        let t = s.drop_last();
        assert forall|i: int| 0 <= i < t.len() implies #[trigger] t[i] != v by {
            assert(t[i] == s[i]);
        }
        lemma_count_eq_zero(t, v);
    }
}

} // verus!
