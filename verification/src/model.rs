//! Core Tapa model: cell states and clue encoding.
//!
//! Tapa rules implemented here:
//!   * a clue cell is never black;
//!   * the black cells around a clue form runs; read around the clue starting
//!     from any position, the run lengths must match the clue numbers in order;
//!   * all black cells are orthogonally connected;
//!   * no 2x2 block of cells is completely black.

use vstd::prelude::*;
use vstd::slice::slice_to_vec;
use vstd::string::StringExecFns;

pub use crate::grid::Grid;
pub use crate::rules::{
    largest_blank_region, largest_clueless_region, line_cells, live_errors, validate,
    wall_component, LiveErrors,
};
use crate::grid::lemma_cell_coords;

verus! {

pub const UNKNOWN: u8 = 0;

pub const BLACK: u8 = 1;

pub const WHITE: u8 = 2;

// ---------------------------------------------------------------------------
// Neighbour masks and their runs
// ---------------------------------------------------------------------------

/// Bit `k` of an eight-bit neighbour mask: neighbour `k` is black.
pub open spec fn bit(m: u8, k: u8) -> bool {
    (m >> k) & 1u8 == 1u8
}

/// The eight bits of `m` read cyclically, starting just after position `start`.
pub open spec fn bits_after(m: u8, start: int) -> Seq<bool> {
    Seq::new(8, |j: int| bit(m, ((start + 1 + j) % 8) as u8))
}

/// Position of the first white (zero) bit at or after `k`, or 8 when there is none.
pub open spec fn first_white_from(m: u8, k: int) -> int
    decreases 8 - k,
{
    if k >= 8 {
        8
    } else if !bit(m, k as u8) {
        k
    } else {
        first_white_from(m, k + 1)
    }
}

/// Run-length scan of a linear sequence of cells: the lengths of the black
/// runs that have been closed by a white cell, and the length of the run that
/// is still open at the end.
pub open spec fn runs_scan(bits: Seq<bool>) -> (Seq<u8>, nat)
    decreases bits.len(),
{
    if bits.len() == 0 {
        (Seq::empty(), 0)
    } else {
        let prev = runs_scan(bits.drop_last());
        if bits.last() {
            (prev.0, prev.1 + 1)
        } else if prev.1 > 0 {
            (prev.0.push(prev.1 as u8), 0)
        } else {
            (prev.0, 0)
        }
    }
}

/// The black runs of a neighbour mask, read cyclically starting just after
/// its first white neighbour.
pub open spec fn mask_runs(m: u8) -> Seq<u8> {
    if m == 0 {
        Seq::empty()
    } else if m == 0xFF {
        seq![8u8]
    } else {
        runs_scan(bits_after(m, first_white_from(m, 0))).0
    }
}

/// `clue` read from offset `s` equals `runs`.
pub open spec fn rotation_matches(runs: Seq<u8>, clue: Seq<u8>, s: int) -> bool {
    forall|k: int| 0 <= k < clue.len() ==> #[trigger] clue[(s + k) % (clue.len() as int)] == runs[k]
}

/// `runs` equals `clue` up to a cyclic rotation.
pub open spec fn is_rotation_of(runs: Seq<u8>, clue: Seq<u8>) -> bool {
    &&& runs.len() == clue.len()
    &&& (clue.len() == 0 || exists|s: int| 0 <= s < clue.len() && rotation_matches(runs, clue, s))
}

/// Mask `m` satisfies `clue`: its runs are the clue numbers up to rotation.
/// The clue without numbers allows exactly the mask with no black neighbour.
pub open spec fn clue_allows(clue: Seq<u8>, m: u8) -> bool {
    is_rotation_of(mask_runs(m), clue)
}

pub open spec fn seq_sum(s: Seq<u8>) -> int
    decreases s.len(),
{
    if s.len() == 0 {
        0
    } else {
        seq_sum(s.drop_last()) + s.last()
    }
}

/// A legal clue: at least one number, every number in 1..=8, and unless there
/// is only one run, the runs plus one separator each fit on the eight cells.
pub open spec fn valid_clue(c: Seq<u8>) -> bool {
    &&& c.len() > 0
    &&& forall|i: int| 0 <= i < c.len() ==> 1 <= #[trigger] c[i] <= 8
    &&& (c.len() == 1 || seq_sum(c) + c.len() <= 8)
}

/// A clue the generator is willing to place: legal, and never a single `8`.
pub open spec fn showable_clue(c: Seq<u8>) -> bool {
    valid_clue(c) && c != seq![8u8]
}

/// The text of a clue: its numbers as digits, or `-` when it has none.
pub open spec fn clue_chars(c: Seq<u8>) -> Seq<char> {
    if c.len() == 0 {
        seq!['-']
    } else {
        c.map_values(|n: u8| (48 + n) as char)
    }
}

pub proof fn lemma_bit_test(m: u8, i: u8)
    requires
        i < 8,
    ensures
        (m & (1u8 << i) != 0) == bit(m, i),
{
    assert((m & (1u8 << i) != 0) == ((m >> i) & 1u8 == 1u8)) by (bit_vector)
        requires
            i < 8,
    ;
}

proof fn lemma_full_mask(m: u8)
    ensures
        (forall|k: u8| k < 8 ==> bit(m, k)) ==> m == 0xFF,
        (forall|k: u8| k < 8 ==> !bit(m, k)) ==> m == 0,
{
    assert(bit(m, 0) && bit(m, 1) && bit(m, 2) && bit(m, 3) && bit(m, 4) && bit(m, 5) && bit(m, 6)
        && bit(m, 7) ==> m == 0xFF) by (bit_vector);
    assert(!bit(m, 0) && !bit(m, 1) && !bit(m, 2) && !bit(m, 3) && !bit(m, 4) && !bit(m, 5)
        && !bit(m, 6) && !bit(m, 7) ==> m == 0) by (bit_vector);
    if forall|k: u8| k < 8 ==> bit(m, k) {
        assert(bit(m, 0) && bit(m, 1) && bit(m, 2) && bit(m, 3));
        assert(bit(m, 4) && bit(m, 5) && bit(m, 6) && bit(m, 7));
    }
    if forall|k: u8| k < 8 ==> !bit(m, k) {
        assert(!bit(m, 0) && !bit(m, 1) && !bit(m, 2) && !bit(m, 3));
        assert(!bit(m, 4) && !bit(m, 5) && !bit(m, 6) && !bit(m, 7));
    }
}

proof fn lemma_first_white(m: u8, k: int)
    requires
        0 <= k <= 8,
    ensures
        k <= first_white_from(m, k) <= 8,
        first_white_from(m, k) < 8 ==> !bit(m, first_white_from(m, k) as u8),
        forall|j: int| k <= j < first_white_from(m, k) ==> #[trigger] bit(m, j as u8),
    decreases 8 - k,
{
    if k < 8 && bit(m, k as u8) {
        lemma_first_white(m, k + 1);
    }
}

/// A mask with a white bit has its first white bit below 8.
proof fn lemma_first_white_lt8(m: u8)
    requires
        m != 0xFF,
    ensures
        0 <= first_white_from(m, 0) < 8,
        !bit(m, first_white_from(m, 0) as u8),
        forall|j: int| 0 <= j < first_white_from(m, 0) ==> #[trigger] bit(m, j as u8),
{
    lemma_first_white(m, 0);
    lemma_full_mask(m);
    if first_white_from(m, 0) == 8 {
        assert forall|k: u8| k < 8 implies bit(m, k) by {
            assert(bit(m, (k as int) as u8));
        }
    }
}

proof fn lemma_scan_bounds(bits: Seq<bool>)
    requires
        bits.len() <= 8,
    ensures
        runs_scan(bits).1 <= bits.len(),
        runs_scan(bits).0.len() <= bits.len(),
        forall|i: int|
            0 <= i < runs_scan(bits).0.len() ==> 1 <= #[trigger] runs_scan(bits).0[i] <= bits.len(),
        seq_sum(runs_scan(bits).0) + runs_scan(bits).0.len() + runs_scan(bits).1 <= bits.len(),
        bits.len() > 0 && !bits.last() ==> runs_scan(bits).1 == 0,
        (exists|i: int| 0 <= i < bits.len() && bits[i]) ==> runs_scan(bits).0.len() > 0
            || runs_scan(bits).1 > 0,
    decreases bits.len(),
{
    if bits.len() > 0 {
        let prev = bits.drop_last();
        lemma_scan_bounds(prev);
        let p = runs_scan(prev);
        if !bits.last() && p.1 > 0 {
            let r = p.0.push(p.1 as u8);
            assert(r.drop_last() =~= p.0);
        }
        if exists|i: int| 0 <= i < bits.len() && bits[i] {
            let i = choose|i: int| 0 <= i < bits.len() && bits[i];
            if i < bits.len() - 1 {
                assert(prev[i]);
            }
        }
    }
}

/// How many of the cells of `s` are set.
pub open spec fn count_true(s: Seq<bool>) -> nat
    decreases s.len(),
{
    if s.len() == 0 {
        0
    } else {
        count_true(s.drop_last()) + if s.last() {
            1nat
        } else {
            0nat
        }
    }
}

/// How many neighbours mask `m` marks black.
pub open spec fn black_bits(m: u8) -> nat {
    count_true(Seq::new(8, |j: int| bit(m, j as u8)))
}

/// The runs closed by a scan and the one still open cover every set cell.
proof fn lemma_scan_sum(bits: Seq<bool>)
    requires
        bits.len() <= 8,
    ensures
        seq_sum(runs_scan(bits).0) + runs_scan(bits).1 == count_true(bits),
    decreases bits.len(),
{
    if bits.len() > 0 {
        let prev = bits.drop_last();
        lemma_scan_sum(prev);
        lemma_scan_bounds(prev);
        let p = runs_scan(prev);
        if !bits.last() && p.1 > 0 {
            let r = p.0.push(p.1 as u8);
            assert(r.drop_last() =~= p.0);
        }
    }
}

/// The count of eight cells, written out.
proof fn lemma_count8(s: Seq<bool>)
    requires
        s.len() == 8,
    ensures
        count_true(s) == (if s[0] { 1int } else { 0 }) + (if s[1] { 1int } else { 0 }) + (if s[2] { 1int } else { 0 })
            + (if s[3] { 1int } else { 0 }) + (if s[4] { 1int } else { 0 }) + (if s[5] { 1int } else { 0 }) + (if s[6] {
            1int
        } else {
            0
        }) + (if s[7] { 1int } else { 0 }),
{
    reveal_with_fuel(count_true, 9);
    assert(s.drop_last().drop_last().drop_last().drop_last().drop_last().drop_last().drop_last().drop_last()
        =~= Seq::<bool>::empty());
}

/// Reading the eight bits from any starting point counts the same.
#[verifier::spinoff_prover]
proof fn lemma_count_rotated(m: u8, start: int)
    requires
        0 <= start < 8,
    ensures
        count_true(bits_after(m, start)) == black_bits(m),
{
    let a = bits_after(m, start);
    let b = Seq::new(8, |j: int| bit(m, j as u8));
    lemma_count8(a);
    lemma_count8(b);
    assert forall|j: int| 0 <= j < 8 implies #[trigger] a[j] == b[(start + 1 + j) % 8] by {}
    let t = (start + 1) % 8;
    assert(a[0] == b[t] && a[1] == b[(t + 1) % 8] && a[2] == b[(t + 2) % 8] && a[3] == b[(t + 3) % 8]);
    assert(a[4] == b[(t + 4) % 8] && a[5] == b[(t + 5) % 8] && a[6] == b[(t + 6) % 8] && a[7] == b[(t + 7) % 8]);
}

/// A scan that starts after a white cell splits there: the runs of the
/// first part, then those of the second.
proof fn lemma_scan_append(a: Seq<bool>, b: Seq<bool>)
    requires
        a.len() == 0 || !a.last(),
    ensures
        runs_scan(a + b).0 == runs_scan(a).0 + runs_scan(b).0,
        runs_scan(a + b).1 == runs_scan(b).1,
    decreases b.len(),
{
    if b.len() == 0 {
        assert(a + b =~= a);
        assert(runs_scan(a).0 + runs_scan(b).0 =~= runs_scan(a).0);
        if a.len() > 0 {
            assert(runs_scan(a).1 == 0);
        }
    } else {
        assert((a + b).drop_last() =~= a + b.drop_last());
        assert((a + b).last() == b.last());
        lemma_scan_append(a, b.drop_last());
        let pa = runs_scan(a).0;
        let pb = runs_scan(b.drop_last());
        if !b.last() && pb.1 > 0 {
            assert((pa + pb.0).push(pb.1 as u8) =~= pa + pb.0.push(pb.1 as u8));
        }
    }
}

/// Two halves swapped are a rotation of each other.
#[verifier::spinoff_prover]
proof fn lemma_swap_is_rotation(x: Seq<u8>, y: Seq<u8>)
    ensures
        is_rotation_of(y + x, x + y),
{
    let c = x + y;
    let r = y + x;
    let n = c.len() as int;
    if x.len() == 0 || y.len() == 0 {
        assert(r =~= c);
        if n > 0 {
            assert(rotation_matches(r, c, 0)) by {
                assert forall|k: int| 0 <= k < n implies #[trigger] c[(0 + k) % n] == r[k] by {
                    assert((0 + k) % n == k) by (nonlinear_arith)
                        requires
                            0 <= k < n,
                    ;
                }
            }
        }
    } else {
        let sh = x.len() as int;
        assert(rotation_matches(r, c, sh)) by {
            assert forall|k: int| 0 <= k < n implies #[trigger] c[(sh + k) % n] == r[k] by {
                if k < y.len() {
                    assert((sh + k) % n == sh + k) by (nonlinear_arith)
                        requires
                            0 <= sh + k < n,
                    ;
                } else {
                    assert((sh + k) % n == k - y.len()) by (nonlinear_arith)
                        requires
                            n <= sh + k < 2 * n,
                            n == sh + y.len(),
                    ;
                }
            }
        }
    }
}

/// The eight bits rotated one place: neighbour `k` moves to `k + 1`.
pub open spec fn rotate_mask(m: u8) -> u8 {
    (m << 1u8) | (m >> 7u8)
}

proof fn lemma_rotate_bits(m: u8)
    ensures
        forall|k: int| 0 <= k < 8 ==> #[trigger] bit(rotate_mask(m), k as u8) == bit(m, ((k + 7) % 8) as u8),
{
    assert(bit(rotate_mask(m), 0) == bit(m, 7)) by (bit_vector);
    assert(bit(rotate_mask(m), 1) == bit(m, 0)) by (bit_vector);
    assert(bit(rotate_mask(m), 2) == bit(m, 1)) by (bit_vector);
    assert(bit(rotate_mask(m), 3) == bit(m, 2)) by (bit_vector);
    assert(bit(rotate_mask(m), 4) == bit(m, 3)) by (bit_vector);
    assert(bit(rotate_mask(m), 5) == bit(m, 4)) by (bit_vector);
    assert(bit(rotate_mask(m), 6) == bit(m, 5)) by (bit_vector);
    assert(bit(rotate_mask(m), 7) == bit(m, 6)) by (bit_vector);
    assert forall|k: int| 0 <= k < 8 implies #[trigger] bit(rotate_mask(m), k as u8) == bit(m, ((k + 7) % 8) as u8) by {
        if k == 0 {
        } else if k == 1 {
        } else if k == 2 {
        } else if k == 3 {
        } else if k == 4 {
        } else if k == 5 {
        } else if k == 6 {
        } else {
        }
    }
}

/// The runs read after one white neighbour are a rotation of those read
/// after another.
#[verifier::spinoff_prover]
proof fn lemma_runs_from_any_white(m: u8, w1: int, w2: int)
    requires
        0 <= w1 < 8,
        0 <= w2 < 8,
        !bit(m, w1 as u8),
        !bit(m, w2 as u8),
    ensures
        is_rotation_of(runs_scan(bits_after(m, w2)).0, runs_scan(bits_after(m, w1)).0),
{
    let a = bits_after(m, w1);
    let d = (w2 - w1 + 8) % 8;
    let p = a.subrange(0, d);
    let q = a.subrange(d, 8);
    assert(a =~= p + q);
    assert(a[7] == bit(m, ((w1 + 8) % 8) as u8));
    assert((w1 + 8) % 8 == w1);
    assert(bits_after(m, w2) =~= q + p) by {
        assert forall|j: int| 0 <= j < 8 implies #[trigger] bits_after(m, w2)[j] == (q + p)[j] by {
            if j < 8 - d {
                assert((w2 + 1 + j) % 8 == (w1 + 1 + (d + j)) % 8);
            } else {
                assert((w2 + 1 + j) % 8 == (w1 + 1 + (j - (8 - d))) % 8);
            }
        }
    }
    if d > 0 {
        assert(p.last() == a[d - 1]);
        assert((w1 + 1 + (d - 1)) % 8 == w2);
    }
    lemma_scan_append(p, q);
    assert(q.len() > 0 && q.last() == a[7]);
    lemma_scan_append(q, p);
    lemma_swap_is_rotation(runs_scan(p).0, runs_scan(q).0);
}

/// Reading the turned ring after neighbour `v` reads the ring after the
/// neighbour before `v`.
proof fn lemma_turned_reading(m: u8, v: int)
    requires
        0 <= v < 8,
    ensures
        bits_after(rotate_mask(m), v) == bits_after(m, (v + 7) % 8),
        bit(rotate_mask(m), v as u8) == bit(m, ((v + 7) % 8) as u8),
{
    let r = rotate_mask(m);
    let w2 = (v + 7) % 8;
    lemma_rotate_bits(m);
    assert forall|j: int| 0 <= j < 8 implies #[trigger] bits_after(r, v)[j] == bits_after(m, w2)[j] by {
        let k = (v + 1 + j) % 8;
        assert(bit(r, k as u8) == bit(m, ((k + 7) % 8) as u8));
        assert((k + 7) % 8 == (w2 + 1 + j) % 8);
    }
    assert(bits_after(r, v) =~= bits_after(m, w2));
}

/// Turning a ring of neighbours one place turns its runs: the runs of the
/// rotated mask are a rotation of the runs of the mask.
#[verifier::spinoff_prover]
pub proof fn law_runs_turn_with_the_ring(m: u8)
    ensures
        is_rotation_of(mask_runs(rotate_mask(m)), mask_runs(m)),
{
    let r = rotate_mask(m);
    assert(m == 0 ==> rotate_mask(m) == 0) by (bit_vector);
    assert(m == 0xFF ==> rotate_mask(m) == 0xFF) by (bit_vector);
    assert(m != 0 && m != 0xFF ==> rotate_mask(m) != 0 && rotate_mask(m) != 0xFF) by (bit_vector);
    if m == 0 || m == 0xFF {
        lemma_swap_is_rotation(mask_runs(m), Seq::empty());
        assert(Seq::<u8>::empty() + mask_runs(m) =~= mask_runs(m));
        assert(mask_runs(m) + Seq::<u8>::empty() =~= mask_runs(m));
    } else {
        let w1 = first_white_from(m, 0);
        let v = first_white_from(r, 0);
        lemma_first_white_lt8(m);
        lemma_first_white_lt8(r);
        lemma_turned_reading(m, v);
        lemma_runs_from_any_white(m, w1, (v + 7) % 8);
    }
}

proof fn lemma_seq_sum_append(a: Seq<u8>, b: Seq<u8>)
    ensures
        seq_sum(a + b) == seq_sum(a) + seq_sum(b),
    decreases b.len(),
{
    if b.len() > 0 {
        assert((a + b).drop_last() =~= a + b.drop_last());
        lemma_seq_sum_append(a, b.drop_last());
    }
}

/// A rotation of a legal clue is legal.
#[verifier::spinoff_prover]
proof fn lemma_rotation_keeps_valid(runs: Seq<u8>, clue: Seq<u8>)
    requires
        is_rotation_of(runs, clue),
        valid_clue(runs),
    ensures
        valid_clue(clue),
{
    let n = clue.len() as int;
    let sh = choose|sh: int| 0 <= sh < n && rotation_matches(runs, clue, sh);
    assert forall|i: int| 0 <= i < n implies 1 <= #[trigger] clue[i] <= 8 by {
        let k = (i - sh + n) % n;
        assert(0 <= k < n);
        assert((sh + k) % n == i) by (nonlinear_arith)
            requires
                0 <= sh < n,
                0 <= i < n,
                k == (i - sh + n) % n,
        ;
        assert(clue[(sh + k) % n] == runs[k]);
    }
    if n > 1 {
        let x = clue.subrange(0, sh);
        let y = clue.subrange(sh, n);
        assert(clue =~= x + y);
        assert(runs =~= y + x) by {
            assert forall|k: int| 0 <= k < n implies #[trigger] runs[k] == (y + x)[k] by {
                assert(clue[(sh + k) % n] == runs[k]);
                if k < n - sh {
                    assert((sh + k) % n == sh + k) by (nonlinear_arith)
                        requires
                            0 <= sh + k < n,
                    ;
                } else {
                    assert((sh + k) % n == k - (n - sh)) by (nonlinear_arith)
                        requires
                            n <= sh + k < 2 * n,
                    ;
                }
            }
        }
        lemma_seq_sum_append(x, y);
        lemma_seq_sum_append(y, x);
    }
}

/// A clue with numbers that some ring of neighbours meets is a legal clue.
pub proof fn law_a_clue_some_ring_meets_is_valid(clue: Seq<u8>, m: u8)
    requires
        clue.len() > 0,
        clue_allows(clue, m),
    ensures
        valid_clue(clue),
{
    lemma_mask_runs_valid(m);
    lemma_rotation_keeps_valid(mask_runs(m), clue);
}

/// `k` black cells.
pub open spec fn black_cells(k: nat) -> Seq<bool> {
    Seq::new(k, |i: int| true)
}

/// `k` white cells.
pub open spec fn white_cells(k: nat) -> Seq<bool> {
    Seq::new(k, |i: int| false)
}

/// The runs of a clue laid out in order, each followed by one white cell.
pub open spec fn clue_pattern(c: Seq<u8>) -> Seq<bool>
    decreases c.len(),
{
    if c.len() == 0 {
        Seq::empty()
    } else {
        clue_pattern(c.drop_last()) + black_cells(c.last() as nat) + seq![false]
    }
}

/// The mask whose bit `k` is cell `k` of `b`.
pub open spec fn mask_from(b: Seq<bool>) -> u8 {
    mask_of_bits(b[0], b[1], b[2], b[3], b[4], b[5], b[6], b[7])
}

pub open spec fn mask_of_bits(b0: bool, b1: bool, b2: bool, b3: bool, b4: bool, b5: bool, b6: bool, b7: bool) -> u8 {
    (if b0 { 1u8 } else { 0u8 }) | (if b1 { 2u8 } else { 0u8 }) | (if b2 { 4u8 } else { 0u8 }) | (if b3 {
        8u8
    } else {
        0u8
    }) | (if b4 { 16u8 } else { 0u8 }) | (if b5 { 32u8 } else { 0u8 }) | (if b6 { 64u8 } else { 0u8 }) | (if b7 {
        128u8
    } else {
        0u8
    })
}

proof fn lemma_mask_of_bits(b0: bool, b1: bool, b2: bool, b3: bool, b4: bool, b5: bool, b6: bool, b7: bool)
    by (bit_vector)
    ensures
        bit(mask_of_bits(b0, b1, b2, b3, b4, b5, b6, b7), 0) == b0,
        bit(mask_of_bits(b0, b1, b2, b3, b4, b5, b6, b7), 1) == b1,
        bit(mask_of_bits(b0, b1, b2, b3, b4, b5, b6, b7), 2) == b2,
        bit(mask_of_bits(b0, b1, b2, b3, b4, b5, b6, b7), 3) == b3,
        bit(mask_of_bits(b0, b1, b2, b3, b4, b5, b6, b7), 4) == b4,
        bit(mask_of_bits(b0, b1, b2, b3, b4, b5, b6, b7), 5) == b5,
        bit(mask_of_bits(b0, b1, b2, b3, b4, b5, b6, b7), 6) == b6,
        bit(mask_of_bits(b0, b1, b2, b3, b4, b5, b6, b7), 7) == b7,
{
}

proof fn lemma_mask_from(b: Seq<bool>)
    requires
        b.len() == 8,
    ensures
        forall|k: int| 0 <= k < 8 ==> #[trigger] bit(mask_from(b), k as u8) == b[k],
{
    lemma_mask_of_bits(b[0], b[1], b[2], b[3], b[4], b[5], b[6], b[7]);
    assert forall|k: int| 0 <= k < 8 implies #[trigger] bit(mask_from(b), k as u8) == b[k] by {
        if k == 0 {
        } else if k == 1 {
        } else if k == 2 {
        } else if k == 3 {
        } else if k == 4 {
        } else if k == 5 {
        } else if k == 6 {
        } else {
        }
    }
}

proof fn lemma_scan_black_cells(k: nat)
    ensures
        runs_scan(black_cells(k)) == (Seq::<u8>::empty(), k),
    decreases k,
{
    if k > 0 {
        assert(black_cells(k).drop_last() =~= black_cells((k - 1) as nat));
        lemma_scan_black_cells((k - 1) as nat);
    } else {
        assert(black_cells(k) =~= Seq::<bool>::empty());
    }
}

proof fn lemma_scan_white_cells(k: nat)
    ensures
        runs_scan(white_cells(k)) == (Seq::<u8>::empty(), 0nat),
    decreases k,
{
    if k > 0 {
        assert(white_cells(k).drop_last() =~= white_cells((k - 1) as nat));
        lemma_scan_white_cells((k - 1) as nat);
    } else {
        assert(white_cells(k) =~= Seq::<bool>::empty());
    }
}

/// The pattern of a clue reads back as the clue.
proof fn lemma_scan_pattern(c: Seq<u8>)
    requires
        forall|i: int| 0 <= i < c.len() ==> 1 <= #[trigger] c[i] <= 8,
    ensures
        runs_scan(clue_pattern(c)).0 == c,
        clue_pattern(c).len() == seq_sum(c) + c.len(),
        c.len() > 0 ==> !clue_pattern(c).last() && clue_pattern(c)[0],
    decreases c.len(),
{
    if c.len() > 0 {
        let c0 = c.drop_last();
        let k = c.last();
        assert(forall|i: int| 0 <= i < c0.len() ==> c0[i] == c[i]);
        lemma_scan_pattern(c0);
        let blk = black_cells(k as nat) + seq![false];
        assert(clue_pattern(c) == clue_pattern(c0) + blk);
        lemma_scan_black_cells(k as nat);
        assert(blk.drop_last() =~= black_cells(k as nat));
        assert(runs_scan(blk).0 =~= seq![k]);
        lemma_scan_append(clue_pattern(c0), blk);
        assert(c0 + seq![k] =~= c);
        if c0.len() == 0 {
            assert(clue_pattern(c0) =~= Seq::<bool>::empty());
            assert(clue_pattern(c)[0] == blk[0]);
        } else {
            assert(clue_pattern(c)[0] == clue_pattern(c0)[0]);
        }
    } else {
        assert(clue_pattern(c) =~= Seq::<bool>::empty());
    }
}

/// Every legal clue is met by some ring of neighbours.
pub proof fn law_a_valid_clue_has_a_ring(clue: Seq<u8>)
    requires
        valid_clue(clue),
    ensures
        exists|m: u8| clue_allows(clue, m),
{
    lemma_sum_at_least_len(clue);
    if clue.len() == 1 && clue[0] == 8 {
        let m = 0xFFu8;
        assert(clue =~= seq![8u8]);
        lemma_swap_is_rotation(mask_runs(m), Seq::empty());
        assert(Seq::<u8>::empty() + mask_runs(m) =~= mask_runs(m));
        assert(mask_runs(m) + Seq::<u8>::empty() =~= mask_runs(m));
        assert(clue_allows(clue, m));
    } else {
        lemma_scan_pattern(clue);
        let pat = clue_pattern(clue);
        if clue.len() == 1 {
            reveal_with_fuel(seq_sum, 2);
            assert(clue.drop_last() =~= Seq::<u8>::empty());
        }
        assert(pat.len() <= 8);
        let bits = pat + white_cells((8 - pat.len()) as nat);
        assert(bits.len() == 8);
        assert(!bits[7]) by {
            if pat.len() < 8 {
                assert(bits[7] == white_cells((8 - pat.len()) as nat)[7 - pat.len()]);
            } else {
                assert(bits[7] == pat.last());
            }
        }
        assert(bits[0]);
        lemma_scan_white_cells((8 - pat.len()) as nat);
        lemma_scan_append(pat, white_cells((8 - pat.len()) as nat));
        assert(runs_scan(bits).0 =~= clue);
        let m = mask_from(bits);
        lemma_mask_from(bits);
        assert(bit(m, 0int as u8) == bits[0]);
        assert(bit(m, 7int as u8) == bits[7]);
        assert(bit(m, 0u8) && !bit(m, 7u8));
        assert(bit(m, 0u8) ==> m != 0) by (bit_vector);
        assert(!bit(m, 7u8) ==> m != 0xFF) by (bit_vector);
        assert(bits_after(m, 7) =~= bits) by {
            assert forall|j: int| 0 <= j < 8 implies #[trigger] bits_after(m, 7)[j] == bits[j] by {
                assert((7 + 1 + j) % 8 == j);
            }
        }
        let w1 = first_white_from(m, 0);
        lemma_first_white_lt8(m);
        lemma_runs_from_any_white(m, 7, w1);
        assert(clue_allows(clue, m));
    }
}

/// A clue with numbers is legal exactly when some ring of neighbours meets
/// it, that is, exactly when it has a mask.
pub proof fn law_valid_exactly_when_a_ring_meets_it(clue: Seq<u8>)
    requires
        clue.len() > 0,
    ensures
        valid_clue(clue) <==> exists|m: u8| clue_allows(clue, m),
{
    if valid_clue(clue) {
        law_a_valid_clue_has_a_ring(clue);
    }
    if exists|m: u8| clue_allows(clue, m) {
        let m = choose|m: u8| clue_allows(clue, m);
        law_a_clue_some_ring_meets_is_valid(clue, m);
    }
}

/// Numbers of at least one sum to at least their count.
proof fn lemma_sum_at_least_len(s: Seq<u8>)
    requires
        forall|i: int| 0 <= i < s.len() ==> 1 <= #[trigger] s[i],
    ensures
        seq_sum(s) >= s.len(),
    decreases s.len(),
{
    if s.len() > 0 {
        lemma_sum_at_least_len(s.drop_last());
    }
}

/// The runs read off a ring of eight neighbours: none exactly when no
/// neighbour is black, at most four of them, each between one and eight,
/// together as many as the black neighbours.
pub proof fn law_runs_of_a_ring(m: u8)
    ensures
        mask_runs(m).len() == 0 <==> m == 0,
        mask_runs(m).len() <= 4,
        forall|i: int| 0 <= i < mask_runs(m).len() ==> 1 <= #[trigger] mask_runs(m)[i] <= 8,
        seq_sum(mask_runs(m)) == black_bits(m),
{
    lemma_mask_runs_valid(m);
    let r = mask_runs(m);
    if m != 0 {
        lemma_sum_at_least_len(r);
    }
    if m == 0 {
        assert(!bit(0, 0) && !bit(0, 1) && !bit(0, 2) && !bit(0, 3) && !bit(0, 4) && !bit(0, 5) && !bit(0, 6)
            && !bit(0, 7)) by (bit_vector);
        lemma_count8(Seq::new(8, |j: int| bit(m, j as u8)));
    } else if m == 0xFF {
        reveal_with_fuel(seq_sum, 2);
        assert(bit(0xFF, 0) && bit(0xFF, 1) && bit(0xFF, 2) && bit(0xFF, 3) && bit(0xFF, 4) && bit(0xFF, 5)
            && bit(0xFF, 6) && bit(0xFF, 7)) by (bit_vector);
        assert(r.drop_last() =~= Seq::<u8>::empty());
        lemma_count8(Seq::new(8, |j: int| bit(m, j as u8)));
    } else {
        let start = first_white_from(m, 0);
        lemma_first_white_lt8(m);
        let bits = bits_after(m, start);
        lemma_scan_bounds(bits);
        lemma_scan_sum(bits);
        assert(bits.last() == bit(m, ((start + 1 + 7) % 8) as u8));
        assert((start + 8) % 8 == start);
        lemma_count_rotated(m, start);
    }
}

/// Only the empty mask has no runs, and the runs of any other mask form a
/// legal clue.
pub proof fn lemma_mask_runs_valid(m: u8)
    ensures
        mask_runs(m).len() == 0 <==> m == 0,
        m != 0 ==> valid_clue(mask_runs(m)),
{
    if m != 0 && m != 0xFF {
        let start = first_white_from(m, 0);
        lemma_full_mask(m);
        lemma_first_white_lt8(m);
        let bits = bits_after(m, start);
        lemma_scan_bounds(bits);
        assert(start < 8);
        assert(bits.last() == bit(m, ((start + 1 + 7) % 8) as u8));
        assert((start + 8) % 8 == start);
        assert(!bits.last());
        let k = choose|k: u8| k < 8 && bit(m, k);
        let j = (k as int - start - 1 + 16) % 8;
        assert((start + 1 + j) % 8 == k as int);
        assert(bits[j]);
        let r = runs_scan(bits).0;
        if r.len() > 1 {
            assert(seq_sum(r) + r.len() <= 8);
        }
    } else if m == 0xFF {
        let r = mask_runs(m);
        assert(r.drop_last() =~= Seq::<u8>::empty());
        reveal_with_fuel(seq_sum, 2);
        assert(seq_sum(r) == 8);
    }
}

/// Extract the run lengths of the black cells of an 8-bit neighbour mask,
/// read cyclically. The starting point is the position directly after the
/// first white neighbour.
pub fn runs_clockwise(mask: u8) -> (runs: Vec<u8>)
    ensures
        runs@ == mask_runs(mask),
{
    if mask == 0 {
        return Vec::new();
    }
    if mask == 0xFF {
        return vec![8];
    }
    proof {
        lemma_first_white_lt8(mask);
    }
    let mut start: u8 = 0;
    while mask & (1u8 << start) != 0
        invariant
            start <= first_white_from(mask, 0),
            first_white_from(mask, 0) < 8,
            forall|j: int| 0 <= j < first_white_from(mask, 0) ==> #[trigger] bit(mask, j as u8),
            !bit(mask, first_white_from(mask, 0) as u8),
        decreases 8 - start,
    {
        proof {
            lemma_bit_test(mask, start);
        }
        start = start + 1;
    }
    proof {
        lemma_bit_test(mask, start);
        if start < first_white_from(mask, 0) {
            assert(bit(mask, (start as int) as u8));
        }
        assert(start == first_white_from(mask, 0));
    }
    let ghost bits = bits_after(mask, start as int);
    let mut runs: Vec<u8> = Vec::new();
    let mut count: u8 = 0;
    let mut k: u8 = 1;
    while k <= 8
        invariant
            1 <= k <= 9,
            start < 8,
            bits == bits_after(mask, start as int),
            runs@ == runs_scan(bits.take(k - 1)).0,
            count == runs_scan(bits.take(k - 1)).1,
        decreases 9 - k,
    {
        proof {
            lemma_scan_bounds(bits.take(k - 1));
        }
        let i: u8 = (start + k) % 8;
        proof {
            lemma_bit_test(mask, i);
            assert(bits.take(k as int).drop_last() =~= bits.take(k - 1));
            assert(bits.take(k as int).last() == bits[k - 1]);
        }
        if mask & (1u8 << i) != 0 {
            count = count + 1;
        } else if count > 0 {
            runs.push(count);
            count = 0;
        }
        k = k + 1;
    }
    proof {
        assert(bits.take(8) =~= bits);
    }
    runs
}

proof fn lemma_mod_wrap(a: int, n: int)
    requires
        0 <= a < 2 * n,
        n > 0,
    ensures
        a % n == (if a < n {
            a
        } else {
            a - n
        }),
{
    if a < n {
        vstd::arithmetic::div_mod::lemma_fundamental_div_mod_converse(a, n, 0, a);
    } else {
        vstd::arithmetic::div_mod::lemma_fundamental_div_mod_converse(a, n, 1, a - n);
    }
}

/// Does `runs` equal `clue` up to a cyclic rotation?
fn matches_rotation(runs: &[u8], clue: &[u8]) -> (r: bool)
    ensures
        r == is_rotation_of(runs@, clue@),
{
    if runs.len() != clue.len() {
        return false;
    }
    if clue.len() == 0 {
        return true;
    }
    let n = clue.len();
    let mut s: usize = 0;
    while s < n
        invariant
            n == clue@.len(),
            n == runs@.len(),
            n > 0,
            s <= n,
            forall|t: int| 0 <= t < s ==> !rotation_matches(runs@, clue@, t),
        decreases n - s,
    {
        let mut k: usize = 0;
        let mut all = true;
        while k < n
            invariant
                n == clue@.len(),
                n == runs@.len(),
                n > 0,
                s < n,
                k <= n,
                all == (forall|j: int|
                    0 <= j < k ==> #[trigger] clue@[(s + j) % (n as int)] == runs@[j]),
            decreases n - k,
        {
            // (s + k) % n without overflowing
            let j = if k < n - s {
                s + k
            } else {
                k - (n - s)
            };
            proof {
                lemma_mod_wrap((s + k) as int, n as int);
            }
            if clue[j] != runs[k] {
                all = false;
            }
            k = k + 1;
        }
        if all {
            assert(rotation_matches(runs@, clue@, s as int));
            return true;
        }
        s = s + 1;
    }
    false
}

/// [`matches_rotation`] for the other modules of the crate.
pub(crate) fn matches_rotation_pub(runs: &[u8], clue: &[u8]) -> (r: bool)
    ensures
        r == is_rotation_of(runs@, clue@),
{
    matches_rotation(runs, clue)
}

/// The runs of a mask are small numbers.
pub proof fn lemma_mask_runs_small(m: u8)
    ensures
        forall|i: int| 0 <= i < mask_runs(m).len() ==> #[trigger] mask_runs(m)[i] <= 8,
{
    lemma_mask_runs_valid(m);
}

/// All neighbour masks that satisfy a clue, in increasing order.
pub fn clue_masks(clue: &[u8]) -> (masks: Vec<u8>)
    ensures
        forall|i: int, j: int| 0 <= i < j < masks.len() ==> masks[i] < masks[j],
        forall|m: u8| masks@.contains(m) <==> clue_allows(clue@, m),
{
    if clue.len() == 0 {
        // A clue without numbers means "no black neighbour at all".
        let masks = vec![0u8];
        assert forall|m: u8| masks@.contains(m) <==> clue_allows(clue@, m) by {
            lemma_mask_runs_valid(m);
            if m == 0 {
                assert(masks@[0] == 0);
            }
        }
        return masks;
    }
    let mut masks: Vec<u8> = Vec::new();
    let mut m: u16 = 0;
    while m < 256
        invariant
            m <= 256,
            forall|i: int, j: int| 0 <= i < j < masks.len() ==> masks[i] < masks[j],
            forall|i: int| 0 <= i < masks.len() ==> masks[i] < m,
            forall|x: u8| x < m ==> (masks@.contains(x) <==> clue_allows(clue@, x)),
        decreases 256 - m,
    {
        let mm = m as u8;
        let runs = runs_clockwise(mm);
        let ok = matches_rotation(runs.as_slice(), clue);
        let ghost before = masks@;
        if ok {
            masks.push(mm);
        }
        assert forall|x: u8| x < m + 1 implies (masks@.contains(x) <==> clue_allows(clue@, x)) by {
            if x < m {
                if masks@.contains(x) && !before.contains(x) {
                    let i = choose|i: int| 0 <= i < masks@.len() && masks@[i] == x;
                    assert(i == before.len());
                }
                if before.contains(x) {
                    let i = choose|i: int| 0 <= i < before.len() && before[i] == x;
                    assert(masks@[i] == x);
                }
            } else {
                if !ok && masks@.contains(x) {
                    let i = choose|i: int| 0 <= i < masks@.len() && masks@[i] == x;
                    assert(masks@[i] < m);
                }
                if ok {
                    assert(masks@[masks@.len() - 1] == x);
                }
            }
        }
        m = m + 1;
    }
    masks
}

/// Is `clue` a legal clue at all?
///
/// Runs are read on an 8-cell cycle, so the black runs plus one separator cell
/// each must fit: `sum + len <= 8`. This is why e.g. `1 2 3` can never occur.
pub fn clue_is_valid(clue: &[u8]) -> (r: bool)
    ensures
        r == valid_clue(clue@),
{
    let n = clue.len();
    if n == 0 {
        return false;
    }
    let mut i: usize = 0;
    while i < n
        invariant
            n == clue@.len(),
            i <= n,
            forall|j: int| 0 <= j < i ==> 1 <= #[trigger] clue@[j] <= 8,
        decreases n - i,
    {
        if clue[i] < 1 || clue[i] > 8 {
            return false;
        }
        i = i + 1;
    }
    if n == 1 {
        return true;  // a single run needs no separator
    }
    // sum + len <= 8; stop as soon as the running total is over
    if n > 8 {
        proof {
            lemma_seq_sum_lower(clue@);
        }
        return false;
    }
    let mut sum: usize = 0;
    let mut k: usize = 0;
    while k < n
        invariant
            n == clue@.len(),
            2 <= n <= 8,
            k <= n,
            forall|j: int| 0 <= j < n ==> 1 <= #[trigger] clue@[j] <= 8,
            sum == seq_sum(clue@.take(k as int)),
            sum <= 8 * k,
        decreases n - k,
    {
        proof {
            assert(clue@.take(k + 1).drop_last() =~= clue@.take(k as int));
        }
        sum = sum + clue[k] as usize;
        k = k + 1;
    }
    proof {
        assert(clue@.take(n as int) =~= clue@);
    }
    sum + n <= 8
}

proof fn lemma_seq_sum_lower(s: Seq<u8>)
    requires
        forall|j: int| 0 <= j < s.len() ==> 1 <= #[trigger] s[j],
    ensures
        seq_sum(s) >= s.len(),
    decreases s.len(),
{
    if s.len() > 0 {
        let p = s.drop_last();
        assert forall|j: int| 0 <= j < p.len() implies 1 <= #[trigger] p[j] by {
            assert(p[j] == s[j]);
        }
        lemma_seq_sum_lower(p);
        assert(s[s.len() - 1] >= 1);
    }
}

/// Clues the generator is willing to place: legal, but never `8` (which would
/// mean "all eight neighbours are black"). A `0` cannot occur, because a clue
/// is only placed on a cell that already touches black.
pub fn clue_is_showable(clue: &[u8]) -> (r: bool)
    ensures
        r == showable_clue(clue@),
{
    let valid = clue_is_valid(clue);
    if !valid {
        return false;
    }
    let eight = clue.len() == 1 && clue[0] == 8;
    proof {
        if clue@ == seq![8u8] {
            assert(clue@[0] == 8);
        }
        if eight {
            assert(clue@ =~= seq![8u8]);
        }
    }
    !eight
}

/// `String::push`: appends the character `c` at the end of `s`.
#[verifier::external_body]
pub(crate) fn push_char(s: &mut String, c: char)
    ensures
        final(s)@ == old(s)@.push(c),
{
    s.push(c);
}

/// Decimal digits of `n`.
pub open spec fn decimal(n: nat) -> Seq<char>
    decreases n,
{
    if n < 10 {
        seq![(48 + n) as char]
    } else {
        decimal(n / 10).push((48 + n % 10) as char)
    }
}

/// Append the decimal digits of `n`.
pub(crate) fn push_decimal(s: &mut String, n: usize)
    ensures
        final(s)@ == old(s)@ + decimal(n as nat),
    decreases n,
{
    if n >= 10 {
        push_decimal(s, n / 10);
    }
    let d: u8 = (n % 10) as u8;
    push_char(s, (48 + d) as char);
    proof {
        if n >= 10 {
            assert(old(s)@ + decimal((n / 10) as nat) + seq![(48 + n % 10) as char] =~= old(s)@
                + decimal(n as nat));
        } else {
            assert(old(s)@.push((48 + n % 10) as char) =~= old(s)@ + decimal(n as nat));
        }
    }
}

/// Human readable clue, e.g. `1` or `12` for the clue `[1, 2]`.
pub fn clue_text(clue: &[u8]) -> (text: String)
    requires
        forall|i: int| 0 <= i < clue@.len() ==> #[trigger] clue@[i] <= 207,
    ensures
        text@ == clue_chars(clue@),
{
    if clue.len() == 0 {
        let text = String::from_str("-");
        proof {
            reveal_strlit("-");
        }
        return text;
    }
    let mut text = String::from_str("");
    proof {
        reveal_strlit("");
    }
    let mut i: usize = 0;
    while i < clue.len()
        invariant
            i <= clue@.len(),
            forall|j: int| 0 <= j < clue@.len() ==> #[trigger] clue@[j] <= 207,
            text@ == clue@.take(i as int).map_values(|n: u8| (48 + n) as char),
        decreases clue@.len() - i,
    {
        let d: u8 = 48 + clue[i];
        push_char(&mut text, d as char);
        proof {
            assert(clue@.take(i + 1).map_values(|n: u8| (48 + n) as char) =~= clue@.take(
                i as int,
            ).map_values(|n: u8| (48 + n) as char).push((48 + clue@[i as int]) as char));
        }
        i = i + 1;
    }
    proof {
        assert(clue@.take(clue@.len() as int) =~= clue@);
    }
    text
}

// ---------------------------------------------------------------------------
// Clues on the board
// ---------------------------------------------------------------------------

/// A clue: the lengths of the black runs around a cell, cyclically from an
/// arbitrary starting point. Only single digits occur (a run is at most 8).
pub type Clue = Vec<u8>;

/// Neighbour `k` of cell `i` exists and is black.
pub open spec fn black_nb(g: &Grid, cells: Seq<u8>, i: int, k: int) -> bool {
    match g.nb(i, k) {
        Some(j) => cells[j as int] == BLACK,
        None => false,
    }
}

/// The mask of the black neighbours `0..k` of cell `i`.
pub open spec fn mask_upto(g: &Grid, cells: Seq<u8>, i: int, k: int) -> u8
    decreases k,
{
    if k <= 0 {
        0
    } else if black_nb(g, cells, i, k - 1) {
        mask_upto(g, cells, i, k - 1) | (1u8 << ((k - 1) as u8))
    } else {
        mask_upto(g, cells, i, k - 1)
    }
}

/// The neighbour mask of cell `i`: bit `k` is set when neighbour `k` is black.
pub open spec fn cell_mask(g: &Grid, cells: Seq<u8>, i: int) -> u8 {
    mask_upto(g, cells, i, 8)
}

/// A mask never asks for a black cell outside the board.
pub open spec fn mask_on_board(g: &Grid, i: int, m: u8) -> bool {
    forall|k: int| 0 <= k < 8 ==> g.nb(i, k) is Some || !#[trigger] bit(m, k as u8)
}

/// Mask `m` agrees with every decided mark around cell `i`.
pub open spec fn fits_marks(g: &Grid, i: int, m: u8, marks: Seq<u8>) -> bool {
    forall|k: int|
        0 <= k < 8 ==> match #[trigger] g.nb(i, k) {
            None => true,
            Some(j) => (marks[j as int] == BLACK ==> bit(m, k as u8)) && (marks[j as int] == WHITE
                ==> !bit(m, k as u8)),
        }
}

/// A mask the clue at `i` allows on this board.
pub open spec fn feasible(g: &Grid, i: int, clue: Seq<u8>, m: u8) -> bool {
    clue_allows(clue, m) && mask_on_board(g, i, m)
}

/// A feasible mask that also fits the current marks.
pub open spec fn mask_alive(g: &Grid, marks: Seq<u8>, i: int, clue: Seq<u8>, m: u8) -> bool {
    feasible(g, i, clue, m) && fits_marks(g, i, m, marks)
}

/// The clue at `i` can still be met by the current marks.
pub open spec fn satisfiable(g: &Grid, marks: Seq<u8>, i: int, clue: Seq<u8>) -> bool {
    exists|m: u8| mask_alive(g, marks, i, clue, m)
}

/// What the clue at `i` alone forces on its neighbour `k`, if that neighbour
/// is still unknown: black when every living mask has it black, white when
/// none has.
pub open spec fn forced(g: &Grid, marks: Seq<u8>, i: int, clue: Seq<u8>, k: int) -> Option<
    (usize, u8),
> {
    match g.nb(i, k) {
        Some(j) => if marks[j as int] != UNKNOWN {
            None
        } else if forall|m: u8| mask_alive(g, marks, i, clue, m) ==> bit(m, k as u8) {
            Some((j, BLACK))
        } else if forall|m: u8| mask_alive(g, marks, i, clue, m) ==> !bit(m, k as u8) {
            Some((j, WHITE))
        } else {
            None
        },
        None => None,
    }
}

/// The forced neighbours `0..k` of the clue at `i`, in neighbour order.
pub open spec fn forced_upto(g: &Grid, marks: Seq<u8>, i: int, clue: Seq<u8>, k: int) -> Seq<
    (usize, u8),
>
    decreases k,
{
    if k <= 0 {
        Seq::empty()
    } else {
        let prev = forced_upto(g, marks, i, clue, k - 1);
        match forced(g, marks, i, clue, k - 1) {
            Some(p) => prev.push(p),
            None => prev,
        }
    }
}

/// Everything one clue forces in a single pass.
pub open spec fn clue_forces(g: &Grid, marks: Seq<u8>, i: int, clue: Seq<u8>) -> Seq<(usize, u8)> {
    if satisfiable(g, marks, i, clue) {
        forced_upto(g, marks, i, clue, 8)
    } else {
        Seq::empty()
    }
}

proof fn lemma_mask_upto_bits(g: &Grid, cells: Seq<u8>, i: int, k: int)
    requires
        0 <= k <= 8,
    ensures
        forall|j: int|
            0 <= j < 8 ==> #[trigger] bit(mask_upto(g, cells, i, k), j as u8) == (j < k
                && black_nb(g, cells, i, j)),
    decreases k,
{
    if k > 0 {
        lemma_mask_upto_bits(g, cells, i, k - 1);
        let prev = mask_upto(g, cells, i, k - 1);
        let kk = (k - 1) as u8;
        assert forall|j: int| 0 <= j < 8 implies #[trigger] bit(mask_upto(g, cells, i, k), j as u8)
            == (j < k && black_nb(g, cells, i, j)) by {
            let jj = j as u8;
            assert(bit(prev | (1u8 << kk), jj) == (bit(prev, jj) || jj == kk)) by (bit_vector)
                requires
                    jj < 8,
                    kk < 8,
            ;
            assert(bit(prev, jj) == (j < k - 1 && black_nb(g, cells, i, j)));
        }
    } else {
        assert forall|j: int| 0 <= j < 8 implies !#[trigger] bit(0u8, j as u8) by {
            let jj = j as u8;
            assert(!bit(0u8, jj)) by (bit_vector);
        }
    }
}

/// The neighbour mask of a cell has bit `k` set exactly when neighbour `k`
/// is on the board and black.
pub proof fn lemma_cell_mask_bits(g: &Grid, cells: Seq<u8>, i: int)
    ensures
        forall|k: int|
            0 <= k < 8 ==> #[trigger] bit(cell_mask(g, cells, i), k as u8) == black_nb(
                g,
                cells,
                i,
                k,
            ),
        mask_on_board(g, i, cell_mask(g, cells, i)),
{
    lemma_mask_upto_bits(g, cells, i, 8);
}

/// The clue produced by a fully filled grid at cell `idx`.
pub fn clue_of(cells: &[u8], grid: &Grid, idx: usize) -> (clue: Clue)
    requires
        grid.wf(),
        idx < grid.size(),
        cells@.len() == grid.size(),
    ensures
        clue@ == mask_runs(cell_mask(grid, cells@, idx as int)),
{
    let nbs = grid.neighbors(idx);
    let mut mask: u8 = 0;
    let mut k: usize = 0;
    while k < 8
        invariant
            grid.wf(),
            idx < grid.size(),
            cells@.len() == grid.size(),
            k <= 8,
            forall|j: int| 0 <= j < 8 ==> #[trigger] nbs@[j] == grid.nb(idx as int, j),
            mask == mask_upto(grid, cells@, idx as int, k as int),
        decreases 8 - k,
    {
        if let Some(nb) = nbs[k] {
            proof {
                lemma_nb_in_range(grid, idx as int, k as int);
            }
            if cells[nb] == BLACK {
                mask = mask | (1u8 << (k as u8));
            }
        }
        k = k + 1;
    }
    runs_clockwise(mask)
}

/// Neighbours lie on the board.
pub proof fn lemma_nb_in_range(g: &Grid, i: int, k: int)
    requires
        g.wf(),
        0 <= i < g.size(),
    ensures
        g.nb(i, k) matches Some(j) ==> 0 <= j < g.size(),
        g.on(i, k) matches Some(j) ==> 0 <= j < g.size(),
{
    lemma_nb_shape(g.w as int, g.h as int, i, crate::grid::neighbor_delta(k));
    lemma_nb_shape(g.w as int, g.h as int, i, crate::grid::ortho_delta(k));
}

proof fn lemma_nb_shape(w: int, h: int, i: int, d: (int, int))
    requires
        0 <= w,
        0 <= h,
        0 <= i < w * h,
        w * h <= usize::MAX,
    ensures
        crate::grid::offset_cell(w, h, i, d) matches Some(j) ==> 0 <= j < w * h,
{
    let x = crate::grid::col(w, i) + d.0;
    let y = crate::grid::row(w, i) + d.1;
    if 0 <= x < w && 0 <= y < h {
        crate::grid::lemma_idx_coords(w, h, x, y);
    }
}

/// The masks of `clue` that are actually possible for cell `idx`: a cell outside
/// the grid is never black, so masks requiring one are dropped.
pub fn feasible_masks(grid: &Grid, idx: usize, clue: &Clue) -> (masks: Vec<u8>)
    requires
        grid.wf(),
        idx < grid.size(),
    ensures
        forall|i: int, j: int| 0 <= i < j < masks.len() ==> masks[i] < masks[j],
        forall|m: u8| masks@.contains(m) <==> feasible(grid, idx as int, clue@, m),
{
    let nbs = grid.neighbors(idx);
    let all = clue_masks(clue.as_slice());
    let mut masks: Vec<u8> = Vec::new();
    let mut t: usize = 0;
    while t < all.len()
        invariant
            forall|j: int| 0 <= j < 8 ==> #[trigger] nbs@[j] == grid.nb(idx as int, j),
            forall|i: int, j: int| 0 <= i < j < all.len() ==> all[i] < all[j],
            forall|m: u8| all@.contains(m) <==> clue_allows(clue@, m),
            t <= all.len(),
            forall|i: int, j: int| 0 <= i < j < masks.len() ==> masks[i] < masks[j],
            forall|i: int|
                0 <= i < masks.len() ==> all@.contains(#[trigger] masks[i]) && (t < all.len()
                    ==> masks[i] < all[t as int]),
            forall|a: int|
                0 <= a < t ==> (masks@.contains(#[trigger] all[a]) <==> mask_on_board(
                    grid,
                    idx as int,
                    all[a],
                )),
        decreases all.len() - t,
    {
        let m = all[t];
        let mut on_board = true;
        let mut k: usize = 0;
        while k < 8
            invariant
                forall|j: int| 0 <= j < 8 ==> #[trigger] nbs@[j] == grid.nb(idx as int, j),
                k <= 8,
                on_board == (forall|j: int|
                    0 <= j < k ==> grid.nb(idx as int, j) is Some || !#[trigger] bit(m, j as u8)),
            decreases 8 - k,
        {
            proof {
                lemma_bit_test(m, k as u8);
            }
            if nbs[k].is_none() && m & (1u8 << (k as u8)) != 0 {
                on_board = false;
            }
            k = k + 1;
        }
        let ghost before = masks@;
        if on_board {
            masks.push(m);
        }
        assert forall|a: int|
            0 <= a < t + 1 implies (masks@.contains(#[trigger] all[a]) <==> mask_on_board(
            grid,
            idx as int,
            all[a],
        )) by {
            if a < t {
                if before.contains(all[a]) {
                    let i = choose|i: int| 0 <= i < before.len() && before[i] == all[a];
                    assert(masks@[i] == all[a]);
                }
                if masks@.contains(all[a]) && !before.contains(all[a]) {
                    assert(masks@.last() == all[a]);
                    assert(all[a] < all[t as int]);
                }
            } else {
                if masks@.contains(all[a]) && !on_board {
                    let i = choose|i: int| 0 <= i < masks@.len() && masks@[i] == all[a];
                    assert(masks[i] < all[t as int]);
                }
                if on_board {
                    assert(masks@[masks@.len() - 1] == all[a]);
                }
            }
        }
        assert forall|i: int| 0 <= i < masks.len() implies all@.contains(#[trigger] masks[i]) && (t
            + 1 < all.len() ==> masks[i] < all[t + 1]) by {
            if i < before.len() {
                assert(before[i] == masks[i]);
            } else {
                assert(all[t as int] == masks[i]);
            }
            if t + 1 < all.len() {
                assert(all[t as int] < all[t + 1]);
            }
        }
        t = t + 1;
    }
    assert forall|m: u8| masks@.contains(m) <==> feasible(grid, idx as int, clue@, m) by {
        if masks@.contains(m) {
            let i = choose|i: int| 0 <= i < masks@.len() && masks@[i] == m;
            assert(all@.contains(masks[i]));
            let a = choose|a: int| 0 <= a < all@.len() && all@[a] == m;
            assert(masks@.contains(all[a]));
        }
        if feasible(grid, idx as int, clue@, m) {
            let a = choose|a: int| 0 <= a < all@.len() && all@[a] == m;
        }
    }
    masks
}

/// Does neighbour mask `m` agree with the marks around cell `idx`?
pub fn mask_fits_marks(grid: &Grid, idx: usize, m: u8, marks: &[u8]) -> (r: bool)
    requires
        grid.wf(),
        idx < grid.size(),
        marks@.len() == grid.size(),
    ensures
        r == fits_marks(grid, idx as int, m, marks@),
{
    let nbs = grid.neighbors(idx);
    let mut k: usize = 0;
    while k < 8
        invariant
            grid.wf(),
            idx < grid.size(),
            marks@.len() == grid.size(),
            forall|j: int| 0 <= j < 8 ==> #[trigger] nbs@[j] == grid.nb(idx as int, j),
            k <= 8,
            forall|j: int|
                0 <= j < k ==> match #[trigger] grid.nb(idx as int, j) {
                    None => true,
                    Some(c) => (marks@[c as int] == BLACK ==> bit(m, j as u8)) && (marks@[c as int]
                        == WHITE ==> !bit(m, j as u8)),
                },
        decreases 8 - k,
    {
        proof {
            lemma_bit_test(m, k as u8);
            lemma_nb_in_range(grid, idx as int, k as int);
        }
        if let Some(nb) = nbs[k] {
            let want_black = m & (1u8 << (k as u8)) != 0;
            let v = marks[nb];
            if v == BLACK && !want_black {
                return false;
            }
            if v == WHITE && want_black {
                return false;
            }
        }
        k = k + 1;
    }
    true
}

/// Can the clue at `idx` still be satisfied by the current marks?
pub fn clue_satisfiable(grid: &Grid, marks: &[u8], idx: usize, clue: &Clue) -> (r: bool)
    requires
        grid.wf(),
        idx < grid.size(),
        marks@.len() == grid.size(),
    ensures
        r == satisfiable(grid, marks@, idx as int, clue@),
{
    let masks = feasible_masks(grid, idx, clue);
    let mut t: usize = 0;
    while t < masks.len()
        invariant
            grid.wf(),
            idx < grid.size(),
            marks@.len() == grid.size(),
            forall|m: u8| masks@.contains(m) <==> feasible(grid, idx as int, clue@, m),
            t <= masks.len(),
            forall|a: int| 0 <= a < t ==> !fits_marks(grid, idx as int, #[trigger] masks@[a], marks@),
        decreases masks.len() - t,
    {
        if mask_fits_marks(grid, idx, masks[t], marks) {
            assert(masks@.contains(masks@[t as int]));
            assert(mask_alive(grid, marks@, idx as int, clue@, masks@[t as int]));
            return true;
        }
        t = t + 1;
    }
    assert forall|m: u8| !mask_alive(grid, marks@, idx as int, clue@, m) by {
        if mask_alive(grid, marks@, idx as int, clue@, m) {
            assert(feasible(grid, idx as int, clue@, m));
            assert(masks@.contains(m));
            let a = choose|a: int| 0 <= a < masks@.len() && masks@[a] == m;
        }
    }
    false
}

/// Every mask in `masks` has bit `k` equal to `want`.
fn all_bits(masks: &Vec<u8>, k: u8, want: bool) -> (r: bool)
    requires
        k < 8,
    ensures
        r == forall|a: int| 0 <= a < masks.len() ==> bit(#[trigger] masks[a], k) == want,
{
    let mut a: usize = 0;
    while a < masks.len()
        invariant
            k < 8,
            a <= masks.len(),
            forall|b: int| 0 <= b < a ==> bit(#[trigger] masks[b], k) == want,
        decreases masks.len() - a,
    {
        proof {
            lemma_bit_test(masks[a as int], k);
        }
        if (masks[a] & (1u8 << k) != 0) != want {
            return false;
        }
        a = a + 1;
    }
    true
}

proof fn lemma_forced_upto(g: &Grid, marks: Seq<u8>, i: int, clue: Seq<u8>, k: int)
    requires
        0 <= k <= 8,
    ensures
        forall|e: int|
            0 <= e < forced_upto(g, marks, i, clue, k).len() ==> exists|j: int|
                0 <= j < k && forced(g, marks, i, clue, j) == Some(
                    #[trigger] forced_upto(g, marks, i, clue, k)[e],
                ),
    decreases k,
{
    if k > 0 {
        lemma_forced_upto(g, marks, i, clue, k - 1);
        let prev = forced_upto(g, marks, i, clue, k - 1);
        let cur = forced_upto(g, marks, i, clue, k);
        assert forall|e: int| 0 <= e < cur.len() implies exists|j: int|
            0 <= j < k && forced(g, marks, i, clue, j) == Some(#[trigger] cur[e]) by {
            if e < prev.len() {
                assert(cur[e] == prev[e]);
                let j = choose|j: int| 0 <= j < k - 1 && forced(g, marks, i, clue, j) == Some(prev[e]);
            } else {
                assert(forced(g, marks, i, clue, k - 1) == Some(cur[e]));
            }
        }
    }
}

/// What a clue forces are cells of the board that are still undecided, each
/// given a wall or an empty mark.
pub proof fn lemma_clue_forces_cells(g: &Grid, marks: Seq<u8>, i: int, clue: Seq<u8>)
    requires
        g.wf(),
        0 <= i < g.size(),
        marks.len() == g.size(),
    ensures
        forall|e: int|
            0 <= e < clue_forces(g, marks, i, clue).len() ==> {
                let d = #[trigger] clue_forces(g, marks, i, clue)[e];
                &&& d.0 < g.size()
                &&& marks[d.0 as int] == UNKNOWN
                &&& (d.1 == BLACK || d.1 == WHITE)
            },
{
    if satisfiable(g, marks, i, clue) {
        lemma_forced_upto(g, marks, i, clue, 8);
        assert forall|e: int| 0 <= e < clue_forces(g, marks, i, clue).len() implies {
            let d = #[trigger] clue_forces(g, marks, i, clue)[e];
            &&& d.0 < g.size()
            &&& marks[d.0 as int] == UNKNOWN
            &&& (d.1 == BLACK || d.1 == WHITE)
        } by {
            let d = forced_upto(g, marks, i, clue, 8)[e];
            let j = choose|j: int| 0 <= j < 8 && forced(g, marks, i, clue, j) == Some(d);
            lemma_nb_in_range(g, i, j);
        }
    }
}

/// What a single clue forces agrees with every filled board that keeps the
/// decided marks and meets that clue.
pub proof fn lemma_clue_forces_sound(g: &Grid, s: Seq<u8>, marks: Seq<u8>, i: int, clue: Seq<u8>)
    requires
        g.wf(),
        0 <= i < g.size(),
        marks.len() == g.size(),
        is_filled(s),
        agrees(s, marks),
        clue_allows(clue, cell_mask(g, s, i)),
    ensures
        forall|e: int|
            0 <= e < clue_forces(g, marks, i, clue).len() ==> s[(#[trigger] clue_forces(
                g,
                marks,
                i,
                clue,
            )[e]).0 as int] == clue_forces(g, marks, i, clue)[e].1,
{
    if satisfiable(g, marks, i, clue) {
        lemma_forced_upto(g, marks, i, clue, 8);
        assert forall|e: int| 0 <= e < clue_forces(g, marks, i, clue).len() implies s[(
        #[trigger] clue_forces(g, marks, i, clue)[e]).0 as int] == clue_forces(
            g,
            marks,
            i,
            clue,
        )[e].1 by {
            let d = forced_upto(g, marks, i, clue, 8)[e];
            let j = choose|j: int| 0 <= j < 8 && forced(g, marks, i, clue, j) == Some(d);
            lemma_forced_sound(g, s, marks, i, clue, j);
        }
    }
}

/// The numbers read off any ring of neighbours are a clue that this ring
/// meets.
pub proof fn law_runs_meet_their_clue(m: u8)
    ensures
        clue_allows(mask_runs(m), m),
{
    let runs = mask_runs(m);
    if runs.len() > 0 {
        assert forall|k: int| 0 <= k < runs.len() implies #[trigger] runs[(0 + k) % (
        runs.len() as int)] == runs[k] by {
            let n = runs.len() as int;
            assert((0 + k) % n == k) by (nonlinear_arith)
                requires
                    0 <= k < n,
            ;
        }
        assert(rotation_matches(runs, runs, 0));
    }
}

/// What one clue forces right now, in a single pass - no cascading.
///
/// Only the rule *"the black runs around a clue must match its numbers"* is
/// used, and only on the eight cells around that one clue. Returns `(cell,
/// value)` pairs for the neighbours that are forced and still unknown.
pub fn clue_step(grid: &Grid, marks: &[u8], idx: usize, clue: &Clue) -> (step: Vec<(usize, u8)>)
    requires
        grid.wf(),
        idx < grid.size(),
        marks@.len() == grid.size(),
    ensures
        step@ == clue_forces(grid, marks@, idx as int, clue@),
{
    let feas = feasible_masks(grid, idx, clue);
    let mut alive: Vec<u8> = Vec::new();
    let mut t: usize = 0;
    while t < feas.len()
        invariant
            grid.wf(),
            idx < grid.size(),
            marks@.len() == grid.size(),
            forall|m: u8| feas@.contains(m) <==> feasible(grid, idx as int, clue@, m),
            t <= feas.len(),
            forall|a: int|
                0 <= a < alive.len() ==> mask_alive(grid, marks@, idx as int, clue@, #[trigger] alive[a]),
            forall|a: int|
                0 <= a < t ==> (fits_marks(grid, idx as int, #[trigger] feas[a], marks@)
                    ==> alive@.contains(feas[a])),
        decreases feas.len() - t,
    {
        let m = feas[t];
        assert(feas@.contains(m));
        let ghost before = alive@;
        if mask_fits_marks(grid, idx, m, marks) {
            alive.push(m);
        }
        assert forall|a: int|
            0 <= a < t + 1 && fits_marks(grid, idx as int, #[trigger] feas[a], marks@) implies alive@.contains(feas[a]) by {
            if a < t && fits_marks(grid, idx as int, feas[a], marks@) {
                let b = choose|b: int| 0 <= b < before.len() && before[b] == feas[a];
                assert(alive@[b] == feas[a]);
            }
            if a == t && fits_marks(grid, idx as int, feas[a], marks@) {
                assert(alive@[alive@.len() - 1] == feas[a]);
            }
        }
        t = t + 1;
    }
    proof {
        assert forall|m: u8| mask_alive(grid, marks@, idx as int, clue@, m) implies alive@.contains(m) by {
            assert(feas@.contains(m));
            let a = choose|a: int| 0 <= a < feas@.len() && feas@[a] == m;
        }
    }
    if alive.len() == 0 {
        proof {
            assert forall|m: u8| !mask_alive(grid, marks@, idx as int, clue@, m) by {
                if mask_alive(grid, marks@, idx as int, clue@, m) {
                    assert(alive@.contains(m));
                }
            }
        }
        return Vec::new();  // already impossible; the red marker reports it
    }
    assert(mask_alive(grid, marks@, idx as int, clue@, alive[0]));
    let nbs = grid.neighbors(idx);
    let mut forced_list: Vec<(usize, u8)> = Vec::new();
    let mut b: usize = 0;
    while b < 8
        invariant
            grid.wf(),
            idx < grid.size(),
            marks@.len() == grid.size(),
            forall|j: int| 0 <= j < 8 ==> #[trigger] nbs@[j] == grid.nb(idx as int, j),
            forall|a: int|
                0 <= a < alive.len() ==> mask_alive(grid, marks@, idx as int, clue@, #[trigger] alive[a]),
            forall|m: u8| mask_alive(grid, marks@, idx as int, clue@, m) ==> alive@.contains(m),
            b <= 8,
            forced_list@ == forced_upto(grid, marks@, idx as int, clue@, b as int),
        decreases 8 - b,
    {
        if let Some(nb) = nbs[b] {
            proof {
                lemma_nb_in_range(grid, idx as int, b as int);
            }
            if marks[nb] == UNKNOWN {
                let all_black = all_bits(&alive, b as u8, true);
                let all_white = all_bits(&alive, b as u8, false);
                proof {
                    let bb = b as u8;
                    assert(bb as int == b as int);
                    if all_black {
                        assert forall|m: u8| mask_alive(grid, marks@, idx as int, clue@, m) implies bit(
                            m,
                            (b as int) as u8,
                        ) by {
                            assert(alive@.contains(m));
                            let a = choose|a: int| 0 <= a < alive@.len() && alive@[a] == m;
                            assert(bit(alive[a], bb));
                        }
                    } else {
                        let a = choose|a: int| 0 <= a < alive.len() && !bit(#[trigger] alive[a], bb);
                        assert(mask_alive(grid, marks@, idx as int, clue@, alive[a]));
                        if all_white {
                            assert forall|m: u8| mask_alive(grid, marks@, idx as int, clue@, m) implies !bit(
                                m,
                                (b as int) as u8,
                            ) by {
                                assert(alive@.contains(m));
                                let a2 = choose|a2: int| 0 <= a2 < alive@.len() && alive@[a2] == m;
                                assert(!bit(alive[a2], bb));
                            }
                        } else {
                            let a2 = choose|a2: int| 0 <= a2 < alive.len() && bit(#[trigger] alive[a2], bb);
                            assert(mask_alive(grid, marks@, idx as int, clue@, alive[a2]));
                        }
                    }
                }
                if all_black {
                    forced_list.push((nb, BLACK));
                } else if all_white {
                    forced_list.push((nb, WHITE));
                }
            }
        }
        b = b + 1;
    }
    forced_list
}

/// The marks after applying the deductions `ds` in order.
pub open spec fn apply_marks(marks: Seq<u8>, ds: Seq<(usize, u8)>) -> Seq<u8>
    decreases ds.len(),
{
    if ds.len() == 0 {
        marks
    } else {
        apply_marks(marks, ds.drop_last()).update(ds.last().0 as int, ds.last().1)
    }
}

/// The full assignment `s` keeps every decided mark of `marks`.
pub open spec fn agrees(s: Seq<u8>, marks: Seq<u8>) -> bool {
    &&& s.len() == marks.len()
    &&& forall|i: int| 0 <= i < marks.len() && marks[i] != UNKNOWN ==> s[i] == #[trigger] marks[i]
}

/// Every cell of `s` is decided.
pub open spec fn is_filled(s: Seq<u8>) -> bool {
    forall|i: int| 0 <= i < s.len() ==> #[trigger] s[i] == BLACK || s[i] == WHITE
}

/// Every clue sees around it a mask that its numbers allow.
pub open spec fn clues_hold(g: &Grid, s: Seq<u8>, clues: Seq<(usize, Clue)>) -> bool {
    forall|t: int|
        0 <= t < clues.len() ==> clue_allows(
            (#[trigger] clues[t]).1@,
            cell_mask(g, s, clues[t].0 as int),
        )
}

/// `s` fills in `marks` so that every clue is met around it (the local clue
/// rule only: connectivity and 2x2 blocks are not considered).
pub open spec fn completes(g: &Grid, s: Seq<u8>, marks: Seq<u8>, clues: Seq<(usize, Clue)>) -> bool {
    &&& is_filled(s)
    &&& agrees(s, marks)
    &&& clues_hold(g, s, clues)
}

pub open spec fn count_unknown(s: Seq<u8>) -> nat
    decreases s.len(),
{
    if s.len() == 0 {
        0
    } else {
        count_unknown(s.drop_last()) + if s.last() == UNKNOWN {
            1nat
        } else {
            0nat
        }
    }
}

pub proof fn lemma_count_unknown_update(s: Seq<u8>, i: int, v: u8)
    requires
        0 <= i < s.len(),
        s[i] == UNKNOWN,
        v != UNKNOWN,
    ensures
        count_unknown(s.update(i, v)) + 1 == count_unknown(s),
    decreases s.len(),
{
    let t = s.update(i, v);
    if i < s.len() - 1 {
        assert(t.drop_last() =~= s.drop_last().update(i, v));
        lemma_count_unknown_update(s.drop_last(), i, v);
    } else {
        assert(t.drop_last() =~= s.drop_last());
    }
}

/// A completion of the marks also completes the marks after a clue step:
/// every cell a single clue forces has that value in every completion.
proof fn lemma_forced_sound(
    g: &Grid,
    s: Seq<u8>,
    state: Seq<u8>,
    i: int,
    clue: Seq<u8>,
    k: int,
)
    requires
        g.wf(),
        0 <= i < g.size(),
        state.len() == g.size(),
        is_filled(s),
        agrees(s, state),
        clue_allows(clue, cell_mask(g, s, i)),
        0 <= k < 8,
        forced(g, state, i, clue, k) is Some,
    ensures
        s[forced(g, state, i, clue, k)->Some_0.0 as int] == forced(g, state, i, clue, k)->Some_0.1,
{
    let m = cell_mask(g, s, i);
    lemma_cell_mask_bits(g, s, i);
    assert forall|kk: int| 0 <= kk < 8 implies match #[trigger] g.nb(i, kk) {
        None => true,
        Some(j) => (state[j as int] == BLACK ==> bit(m, kk as u8)) && (state[j as int] == WHITE
            ==> !bit(m, kk as u8)),
    } by {
        lemma_nb_in_range(g, i, kk);
        assert(bit(m, kk as u8) == black_nb(g, s, i, kk));
    }
    assert(mask_alive(g, state, i, clue, m));
    lemma_nb_in_range(g, i, k);
    assert(bit(m, k as u8) == black_nb(g, s, i, k));
}

/// Deduction `e` of `d` is forced by a single clue on the marks with an
/// earlier part of the deductions applied: what the deductions hold comes
/// from chains of clue steps only.
#[verifier::opaque]
pub open spec fn derived(
    g: &Grid,
    marks: Seq<u8>,
    clues: Seq<(usize, Clue)>,
    d: Seq<(usize, u8)>,
    e: int,
) -> bool {
    exists|p: int, u: int|
        #![trigger d.take(p), clues[u]]
        0 <= p <= e && 0 <= u < clues.len() && clue_forces(
            g,
            apply_marks(marks, d.take(p)),
            clues[u].0 as int,
            clues[u].1@,
        ).contains(d[e])
}

proof fn lemma_derived_push(
    g: &Grid,
    marks: Seq<u8>,
    clues: Seq<(usize, Clue)>,
    d: Seq<(usize, u8)>,
    x: (usize, u8),
)
    requires
        forall|e: int| 0 <= e < d.len() ==> #[trigger] derived(g, marks, clues, d, e),
    ensures
        forall|e: int| 0 <= e < d.len() ==> #[trigger] derived(g, marks, clues, d.push(x), e),
{
    reveal(derived);
    assert forall|e: int| 0 <= e < d.len() implies #[trigger] derived(g, marks, clues, d.push(x), e) by {
        assert(derived(g, marks, clues, d, e));
        let (p, u) = choose|p: int, u: int|
            #![trigger d.take(p), clues[u]]
            0 <= p <= e && 0 <= u < clues.len() && clue_forces(
                g,
                apply_marks(marks, d.take(p)),
                clues[u].0 as int,
                clues[u].1@,
            ).contains(d[e]);
        assert(d.push(x).take(p) =~= d.take(p));
        assert(d.push(x)[e] == d[e]);
        assert(clues[u] == clues[u]);
    }
}

proof fn lemma_derived_new(
    g: &Grid,
    marks: Seq<u8>,
    clues: Seq<(usize, Clue)>,
    d0: Seq<(usize, u8)>,
    d: Seq<(usize, u8)>,
    x: (usize, u8),
    u: int,
)
    requires
        d0.len() <= d.len(),
        d.take(d0.len() as int) == d0,
        0 <= u < clues.len(),
        clue_forces(g, apply_marks(marks, d0), clues[u].0 as int, clues[u].1@).contains(x),
    ensures
        derived(g, marks, clues, d.push(x), d.len() as int),
{
    reveal(derived);
    let dd = d.push(x);
    assert(dd.take(d0.len() as int) =~= d0);
    assert(dd[d.len() as int] == x);
    assert(clues[u] == clues[u]);
}

/// Deducing again on marks where no clue forces anything any more adds
/// nothing: the deductions are final once their fixpoint is reached.
pub proof fn law_deductions_are_final(
    g: &Grid,
    marks: Seq<u8>,
    clues: Seq<(usize, Clue)>,
    again: Seq<(usize, u8)>,
)
    requires
        forall|t: int|
            0 <= t < clues.len() ==> clue_forces(
                g,
                marks,
                (#[trigger] clues[t]).0 as int,
                clues[t].1@,
            ).len() == 0,
        forall|e: int| 0 <= e < again.len() ==> #[trigger] derived(g, marks, clues, again, e),
    ensures
        again.len() == 0,
{
    if again.len() > 0 {
        assert(derived(g, marks, clues, again, 0));
        reveal(derived);
        let (p, u) = choose|p: int, u: int|
            #![trigger again.take(p), clues[u]]
            0 <= p <= 0 && 0 <= u < clues.len() && clue_forces(
                g,
                apply_marks(marks, again.take(p)),
                clues[u].0 as int,
                clues[u].1@,
            ).contains(again[0]);
        assert(again.take(p).len() == 0);
        assert(apply_marks(marks, again.take(p)) == marks);
        assert(clues[u] == clues[u]);
    }
}

/// Cells that the clues alone force, given the current marks.
///
/// Same rule as [`clue_step`], but applied to a fixpoint over every clue, so a
/// deduction can feed the next one. Returns `(cell, value)` pairs for cells
/// that were still unknown.
pub fn clue_deductions(grid: &Grid, marks: &[u8], clues: &[(usize, Clue)]) -> (deduced: Vec<
    (usize, u8),
>)
    requires
        grid.wf(),
        marks@.len() == grid.size(),
        forall|t: int| 0 <= t < clues@.len() ==> (#[trigger] clues@[t]).0 < grid.size(),
    ensures
        // every deduction fills a cell that was unknown, with a decided value, once
        forall|e: int|
            0 <= e < deduced.len() ==> {
                &&& (#[trigger] deduced[e]).0 < grid.size()
                &&& marks@[deduced[e].0 as int] == UNKNOWN
                &&& (deduced[e].1 == BLACK || deduced[e].1 == WHITE)
            },
        forall|e: int, f: int| 0 <= e < f < deduced.len() ==> deduced[e].0 != deduced[f].0,
        // sound: every completion of the marks that meets every clue agrees
        forall|s: Seq<u8>|
            completes(grid, s, marks@, clues@) ==> forall|e: int|
                0 <= e < deduced.len() ==> s[(#[trigger] deduced[e]).0 as int] == deduced[e].1,
        // each deduction comes from a chain of clue steps
        forall|e: int| 0 <= e < deduced.len() ==> #[trigger] derived(grid, marks@, clues@, deduced@, e),
        // a fixpoint: no clue forces anything more on the deduced marks
        forall|t: int|
            0 <= t < clues@.len() ==> clue_forces(
                grid,
                apply_marks(marks@, deduced@),
                (#[trigger] clues@[t]).0 as int,
                clues@[t].1@,
            ).len() == 0,
{
    let mut state: Vec<u8> = slice_to_vec(marks);
    let mut deduced: Vec<(usize, u8)> = Vec::new();
    loop
        invariant
            grid.wf(),
            marks@.len() == grid.size(),
            forall|t: int| 0 <= t < clues@.len() ==> (#[trigger] clues@[t]).0 < grid.size(),
            state@ == apply_marks(marks@, deduced@),
            state@.len() == marks@.len(),
            forall|i: int| 0 <= i < marks@.len() && marks@[i] != UNKNOWN ==> state@[i] == #[trigger] marks@[i],
            forall|e: int|
                0 <= e < deduced.len() ==> {
                    &&& (#[trigger] deduced[e]).0 < grid.size()
                    &&& marks@[deduced[e].0 as int] == UNKNOWN
                    &&& state@[deduced[e].0 as int] == deduced[e].1
                    &&& (deduced[e].1 == BLACK || deduced[e].1 == WHITE)
                },
            forall|e: int, f: int| 0 <= e < f < deduced.len() ==> deduced[e].0 != deduced[f].0,
            forall|s: Seq<u8>| completes(grid, s, marks@, clues@) ==> agrees(s, state@),
            forall|e: int| 0 <= e < deduced.len() ==> #[trigger] derived(grid, marks@, clues@, deduced@, e),
        decreases count_unknown(state@),
    {
        let ghost start_count = count_unknown(state@);
        let mut changed = false;
        let mut t: usize = 0;
        while t < clues.len()
            invariant
                grid.wf(),
                marks@.len() == grid.size(),
                forall|t: int| 0 <= t < clues@.len() ==> (#[trigger] clues@[t]).0 < grid.size(),
                state@ == apply_marks(marks@, deduced@),
                state@.len() == marks@.len(),
                forall|i: int| 0 <= i < marks@.len() && marks@[i] != UNKNOWN ==> state@[i] == #[trigger] marks@[i],
                forall|e: int|
                    0 <= e < deduced.len() ==> {
                        &&& (#[trigger] deduced[e]).0 < grid.size()
                        &&& marks@[deduced[e].0 as int] == UNKNOWN
                        &&& state@[deduced[e].0 as int] == deduced[e].1
                        &&& (deduced[e].1 == BLACK || deduced[e].1 == WHITE)
                    },
                forall|e: int, f: int| 0 <= e < f < deduced.len() ==> deduced[e].0 != deduced[f].0,
                forall|s: Seq<u8>| completes(grid, s, marks@, clues@) ==> agrees(s, state@),
            forall|e: int| 0 <= e < deduced.len() ==> #[trigger] derived(grid, marks@, clues@, deduced@, e),
                t <= clues.len(),
                count_unknown(state@) <= start_count,
                changed ==> count_unknown(state@) < start_count,
                !changed ==> forall|u: int|
                    0 <= u < t ==> clue_forces(
                        grid,
                        state@,
                        (#[trigger] clues@[u]).0 as int,
                        clues@[u].1@,
                    ).len() == 0,
            decreases clues.len() - t,
        {
            let idx = clues[t].0;
            let step = clue_step(grid, state.as_slice(), idx, &clues[t].1);
            let ghost step_state = state@;
            let ghost d0 = deduced@;
            proof {
                assert(deduced@.take(d0.len() as int) =~= d0);
                lemma_forced_upto(grid, step_state, idx as int, clues@[t as int].1@, 8);
            }
            let mut e: usize = 0;
            while e < step.len()
                invariant
                    grid.wf(),
                    marks@.len() == grid.size(),
                    idx < grid.size(),
                    idx == clues@[t as int].0,
                    t < clues@.len(),
                    step_state.len() == grid.size(),
                    step@ == clue_forces(grid, step_state, idx as int, clues@[t as int].1@),
                    d0.len() <= deduced@.len(),
                    deduced@.take(d0.len() as int) == d0,
                    step_state == apply_marks(marks@, d0),
                    forall|f: int|
                        0 <= f < step@.len() ==> exists|j: int|
                            0 <= j < 8 && forced(grid, step_state, idx as int, clues@[t as int].1@, j)
                                == Some(#[trigger] step@[f]),
                    forall|s: Seq<u8>| completes(grid, s, marks@, clues@) ==> agrees(s, step_state),
                    state@ == apply_marks(marks@, deduced@),
                    state@.len() == marks@.len(),
                    forall|i: int| 0 <= i < marks@.len() && marks@[i] != UNKNOWN ==> state@[i] == #[trigger] marks@[i],
                    forall|e: int|
                        0 <= e < deduced.len() ==> {
                            &&& (#[trigger] deduced[e]).0 < grid.size()
                            &&& marks@[deduced[e].0 as int] == UNKNOWN
                            &&& state@[deduced[e].0 as int] == deduced[e].1
                            &&& (deduced[e].1 == BLACK || deduced[e].1 == WHITE)
                        },
                    forall|e: int, f: int| 0 <= e < f < deduced.len() ==> deduced[e].0 != deduced[f].0,
                    forall|s: Seq<u8>| completes(grid, s, marks@, clues@) ==> agrees(s, state@),
            forall|e: int| 0 <= e < deduced.len() ==> #[trigger] derived(grid, marks@, clues@, deduced@, e),
                    e <= step.len(),
                    count_unknown(state@) <= start_count,
                    changed ==> count_unknown(state@) < start_count,
                    !changed ==> state@ == step_state,
                    !changed ==> e == 0,
                    !changed ==> forall|u: int|
                        0 <= u < t ==> clue_forces(
                            grid,
                            state@,
                            (#[trigger] clues@[u]).0 as int,
                            clues@[u].1@,
                        ).len() == 0,
                decreases step.len() - e,
            {
                let (cell, value) = step[e];
                proof {
                    let j = choose|j: int|
                        0 <= j < 8 && forced(grid, step_state, idx as int, clues@[t as int].1@, j)
                            == Some(step@[e as int]);
                    lemma_nb_in_range(grid, idx as int, j);
                    assert(cell < grid.size());
                    assert(value == BLACK || value == WHITE);
                    assert forall|s: Seq<u8>| completes(grid, s, marks@, clues@) implies s[cell as int]
                        == value by {
                        assert(clues_hold(grid, s, clues@));
                        assert(clue_allows(clues@[t as int].1@, cell_mask(grid, s, idx as int)));
                        lemma_forced_sound(grid, s, step_state, idx as int, clues@[t as int].1@, j);
                    }
                }
                if state[cell] == UNKNOWN {
                    proof {
                        lemma_count_unknown_update(state@, cell as int, value);
                        assert forall|f: int| 0 <= f < deduced.len() implies deduced[f].0 != cell by {
                            assert(state@[deduced[f].0 as int] == deduced[f].1);
                        }
                    }
                    let ghost old_state = state@;
                    let ghost old_deduced = deduced@;
                    proof {
                        assert(step@[e as int] == (cell, value));
                        assert(clue_forces(grid, step_state, idx as int, clues@[t as int].1@).contains(
                            (cell, value),
                        ));
                        lemma_derived_new(grid, marks@, clues@, d0, old_deduced, (cell, value), t as int);
                        lemma_derived_push(grid, marks@, clues@, old_deduced, (cell, value));
                    }
                    state.set(cell, value);
                    deduced.push((cell, value));
                    changed = true;
                    proof {
                        assert(deduced@.take(d0.len() as int) =~= d0);
                        assert(deduced@.drop_last() =~= old_deduced);
                        assert(state@ =~= old_state.update(cell as int, value));
                        assert forall|s: Seq<u8>| completes(grid, s, marks@, clues@) implies agrees(
                            s,
                            state@,
                        ) by {
                            assert(s[cell as int] == value);
                            assert(agrees(s, old_state));
                            assert forall|i: int|
                                0 <= i < state@.len() && state@[i] != UNKNOWN implies s[i]
                                == #[trigger] state@[i] by {
                                if i != cell {
                                    assert(state@[i] == old_state[i]);
                                }
                            }
                        }
                    }
                } else {
                    proof {
                        if !changed {
                            assert(step_state[cell as int] == UNKNOWN) by {
                                let j = choose|j: int|
                                    0 <= j < 8 && forced(
                                        grid,
                                        step_state,
                                        idx as int,
                                        clues@[t as int].1@,
                                        j,
                                    ) == Some(step@[e as int]);
                            }
                        }
                    }
                }
                e = e + 1;
            }
            proof {
                if !changed {
                    assert forall|u: int| 0 <= u < t + 1 implies clue_forces(
                        grid,
                        state@,
                        (#[trigger] clues@[u]).0 as int,
                        clues@[u].1@,
                    ).len() == 0 by {
                        if u == t {
                            assert(step@.len() == 0);
                        }
                    }
                }
            }
            t = t + 1;
        }
        if !changed {
            proof {
                assert forall|s: Seq<u8>| completes(grid, s, marks@, clues@) implies forall|e: int|
                    0 <= e < deduced.len() ==> s[(#[trigger] deduced[e]).0 as int] == deduced[e].1 by {
                    assert(agrees(s, state@));
                    assert forall|e: int| 0 <= e < deduced.len() implies s[(
                    #[trigger] deduced[e]).0 as int] == deduced[e].1 by {
                        let c = deduced[e].0 as int;
                        assert(state@[c] == deduced[e].1);
                        assert(state@[c] != UNKNOWN);
                    }
                }
            }
            return deduced;
        }
    }
}

// ---------------------------------------------------------------------------
// Puzzles
// ---------------------------------------------------------------------------

/// Clue list ordered by cell index.
pub open spec fn sorted_by_cell(clues: Seq<(usize, Clue)>) -> bool {
    forall|a: int, b: int| 0 <= a < b < clues.len() ==> clues[a].0 <= clues[b].0
}

/// Cell `c` carries a clue.
pub open spec fn has_clue(clues: Seq<(usize, Clue)>, c: int) -> bool {
    exists|k: int| 0 <= k < clues.len() && clues[k].0 == c
}

/// `k` is the last clue entry for cell `c`.
pub open spec fn last_clue_for(clues: Seq<(usize, Clue)>, c: int, k: int) -> bool {
    &&& 0 <= k < clues.len()
    &&& clues[k].0 == c
    &&& forall|k2: int| k < k2 < clues.len() ==> clues[k2].0 != c
}

/// The entries of `clues` for cell `c`, in their order.
pub open spec fn at_cell(clues: Seq<(usize, Clue)>, c: int) -> Seq<(usize, Clue)> {
    clues.filter(|x: (usize, Clue)| x.0 == c)
}

/// No entry of `clues` is for cell `c`.
proof fn lemma_at_cell_none(clues: Seq<(usize, Clue)>, c: int)
    requires
        forall|k: int| 0 <= k < clues.len() ==> clues[k].0 != c,
    ensures
        at_cell(clues, c) == Seq::<(usize, Clue)>::empty(),
    decreases clues.len(),
{
    reveal(Seq::filter);
    if clues.len() > 0 {
        lemma_at_cell_none(clues.drop_last(), c);
    } else {
        assert(at_cell(clues, c) =~= Seq::<(usize, Clue)>::empty());
    }
}

/// A single entry is kept exactly when it is for the cell.
proof fn lemma_at_cell_one(item: (usize, Clue), c: int)
    ensures
        at_cell(seq![item], c) == if item.0 == c {
            seq![item]
        } else {
            Seq::<(usize, Clue)>::empty()
        },
{
    reveal(Seq::filter);
    let one = seq![item];
    assert(one.drop_last() =~= Seq::<(usize, Clue)>::empty());
    assert(one.last() == item);
    assert(at_cell(one.drop_last(), c) =~= Seq::<(usize, Clue)>::empty());
    if item.0 == c {
        assert(Seq::<(usize, Clue)>::empty().push(item) =~= one);
    }
}

/// The entries for a cell of two joined lists are those of the first, then
/// those of the second.
proof fn lemma_at_cell_add(a: Seq<(usize, Clue)>, b: Seq<(usize, Clue)>, c: int)
    ensures
        at_cell(a + b, c) == at_cell(a, c) + at_cell(b, c),
{
    Seq::filter_distributes_over_add(a, b, |x: (usize, Clue)| x.0 == c);
}

/// Moving the first entry of `old_rest` into the sorted list, just after the
/// entries for cells up to its own, keeps the entries of cell `c` in order.
#[verifier::spinoff_prover]
proof fn lemma_insert_keeps_cell(
    old_sorted: Seq<(usize, Clue)>,
    rest: Seq<(usize, Clue)>,
    item: (usize, Clue),
    p: int,
    c: int,
)
    requires
        0 <= p <= old_sorted.len(),
        sorted_by_cell(old_sorted),
        p < old_sorted.len() ==> old_sorted[p].0 > item.0,
    ensures
        at_cell(old_sorted, c) + at_cell(seq![item] + rest, c) == at_cell(old_sorted.insert(p, item), c)
            + at_cell(rest, c),
{
    let pre = old_sorted.subrange(0, p);
    let suf = old_sorted.subrange(p, old_sorted.len() as int);
    assert(old_sorted =~= pre + suf);
    assert(old_sorted.insert(p, item) =~= pre + seq![item] + suf);
    lemma_at_cell_add(pre, suf, c);
    lemma_at_cell_add(pre + seq![item], suf, c);
    lemma_at_cell_add(pre, seq![item], c);
    lemma_at_cell_add(seq![item], rest, c);
    lemma_at_cell_one(item, c);
    if c == item.0 {
        assert forall|k: int| 0 <= k < suf.len() implies suf[k].0 != c by {
            assert(suf[k] == old_sorted[p + k]);
            assert(old_sorted[p].0 <= old_sorted[p + k].0);
        }
        lemma_at_cell_none(suf, c);
        assert(at_cell(suf, c) =~= Seq::<(usize, Clue)>::empty());
        assert(at_cell(pre, c) + Seq::<(usize, Clue)>::empty() =~= at_cell(pre, c));
        assert(at_cell(pre, c) + seq![item] + Seq::<(usize, Clue)>::empty() =~= at_cell(pre, c) + seq![item]);
        assert(at_cell(pre, c) + seq![item] + at_cell(rest, c) =~= at_cell(pre, c) + (seq![item] + at_cell(
            rest,
            c,
        )));
    } else {
        assert(Seq::<(usize, Clue)>::empty() + at_cell(rest, c) =~= at_cell(rest, c));
        assert(at_cell(pre, c) + Seq::<(usize, Clue)>::empty() =~= at_cell(pre, c));
    }
}

/// Moving the first entry of `old_rest` into the sorted list keeps the
/// entries of every cell in order.
proof fn lemma_insert_keeps_cells(
    all: Seq<(usize, Clue)>,
    old_sorted: Seq<(usize, Clue)>,
    old_rest: Seq<(usize, Clue)>,
    sorted: Seq<(usize, Clue)>,
    rest: Seq<(usize, Clue)>,
    item: (usize, Clue),
    p: int,
)
    requires
        0 <= p <= old_sorted.len(),
        sorted_by_cell(old_sorted),
        p < old_sorted.len() ==> old_sorted[p].0 > item.0,
        sorted == old_sorted.insert(p, item),
        old_rest.len() > 0,
        old_rest[0] == item,
        rest == old_rest.remove(0),
        forall|c: int| #[trigger] at_cell(all, c) == at_cell(old_sorted, c) + at_cell(old_rest, c),
    ensures
        forall|c: int| #[trigger] at_cell(all, c) == at_cell(sorted, c) + at_cell(rest, c),
{
    assert(old_rest =~= seq![item] + rest);
    assert forall|c: int| #[trigger] at_cell(all, c) == at_cell(sorted, c) + at_cell(rest, c) by {
        lemma_insert_keeps_cell(old_sorted, rest, item, p, c);
    }
}

/// A generated puzzle: clues plus the unique solution they describe.
#[derive(Clone)]
pub struct Puzzle {
    pub grid: Grid,
    /// Clues as (cell index, numbers), sorted by cell index.
    pub clues: Vec<(usize, Clue)>,
    /// cell index -> index into `clues`; see [`Puzzle::wf`].
    pub clue_index: Vec<Option<usize>>,
    pub solution: Vec<u8>,
    pub seed: u64,
}

impl Puzzle {
    /// The grid is sound, the clues are sorted and on the board, and the
    /// index finds the (last) clue of every clue cell.
    pub open spec fn wf(&self) -> bool {
        &&& self.grid.wf()
        &&& self.clue_index@.len() == self.grid.size()
        &&& sorted_by_cell(self.clues@)
        &&& forall|k: int| 0 <= k < self.clues@.len() ==> (#[trigger] self.clues@[k]).0 < self.grid.size()
        &&& forall|c: int|
            0 <= c < self.grid.size() ==> match #[trigger] self.clue_index@[c] {
                Some(k) => last_clue_for(self.clues@, c, k as int),
                None => !has_clue(self.clues@, c),
            }
    }

    pub fn new(grid: Grid, clues: Vec<(usize, Clue)>, solution: Vec<u8>, seed: u64) -> (p: Puzzle)
        requires
            grid.wf(),
            forall|k: int| 0 <= k < clues@.len() ==> (#[trigger] clues@[k]).0 < grid.size(),
        ensures
            p.wf(),
            p.grid == grid,
            p.clues@.to_multiset() == clues@.to_multiset(),
            forall|c: int| #[trigger] at_cell(p.clues@, c) == at_cell(clues@, c),
            p.solution@ == solution@,
            p.seed == seed,
    {
        broadcast use vstd::seq_lib::group_to_multiset_ensures, vstd::multiset::group_multiset_axioms, vstd::multiset::lemma_multiset_empty_len;

        let n = grid.len();
        // a stable sort by cell index
        let mut rest = clues;
        let mut sorted: Vec<(usize, Clue)> = Vec::new();
        let ghost all = rest@;
        proof {
            assert(sorted@.to_multiset().len() == 0);
            assert(sorted@.to_multiset() =~= vstd::multiset::Multiset::empty());
            assert(sorted@.to_multiset().add(rest@.to_multiset()) =~= all.to_multiset());
            assert forall|c: int| #[trigger] at_cell(all, c) == at_cell(sorted@, c) + at_cell(rest@, c) by {
                lemma_at_cell_none(sorted@, c);
                assert(Seq::<(usize, Clue)>::empty() + at_cell(rest@, c) =~= at_cell(rest@, c));
            }
        }
        while rest.len() > 0
            invariant
                sorted_by_cell(sorted@),
                sorted@.to_multiset().add(rest@.to_multiset()) == all.to_multiset(),
                forall|c: int| #[trigger] at_cell(all, c) == at_cell(sorted@, c) + at_cell(rest@, c),
                forall|k: int| 0 <= k < rest@.len() ==> (#[trigger] rest@[k]).0 < n,
                forall|k: int| 0 <= k < sorted@.len() ==> (#[trigger] sorted@[k]).0 < n,
            decreases rest.len(),
        {
            let ghost old_rest = rest@;
            let item = rest.remove(0);
            let key = item.0;
            let mut p: usize = 0;
            while p < sorted.len() && sorted[p].0 <= key
                invariant
                    p <= sorted.len(),
                    forall|a: int| 0 <= a < p ==> sorted@[a].0 <= key,
                decreases sorted.len() - p,
            {
                p = p + 1;
            }
            let ghost old_sorted = sorted@;
            sorted.insert(p, item);
            proof {
                lemma_insert_keeps_cells(all, old_sorted, old_rest, sorted@, rest@, item, p as int);
                vstd::seq_lib::to_multiset_remove(old_rest, 0);
                vstd::seq_lib::to_multiset_insert(old_sorted, p as int, item);
                assert(rest@.to_multiset() == old_rest.to_multiset().remove(old_rest[0]));
                assert(sorted@.to_multiset() == old_sorted.to_multiset().insert(item));
                assert(old_rest.contains(old_rest[0]));
                old_rest.to_multiset_ensures();
                assert(old_rest.to_multiset().count(item) > 0);
                assert forall|x: (usize, Clue)| #[trigger] sorted@.to_multiset().add(
                    rest@.to_multiset(),
                ).count(x) == all.to_multiset().count(x) by {
                    assert(old_sorted.to_multiset().add(old_rest.to_multiset()).count(x)
                        == all.to_multiset().count(x));
                }
                assert(sorted@.to_multiset().add(rest@.to_multiset()) =~= all.to_multiset());
                assert forall|a: int, b: int| 0 <= a < b < sorted@.len() implies sorted@[a].0
                    <= sorted@[b].0 by {
                    if b < p {
                        assert(sorted@[a] == old_sorted[a] && sorted@[b] == old_sorted[b]);
                    } else if b == p {
                        assert(sorted@[a] == old_sorted[a]);
                    } else if a == p {
                        assert(sorted@[b] == old_sorted[b - 1]);
                        if p < old_sorted.len() {
                            assert(old_sorted[p as int].0 > key);
                            assert(old_sorted[p as int].0 <= old_sorted[b - 1].0);
                        }
                    } else if a < p {
                        assert(sorted@[a] == old_sorted[a] && sorted@[b] == old_sorted[b - 1]);
                    } else {
                        assert(sorted@[a] == old_sorted[a - 1] && sorted@[b] == old_sorted[b - 1]);
                    }
                }
                assert forall|k: int| 0 <= k < rest@.len() implies (#[trigger] rest@[k]).0 < n by {
                    assert(rest@[k] == old_rest[k + 1]);
                }
                assert forall|k: int| 0 <= k < sorted@.len() implies (#[trigger] sorted@[k]).0 < n by {
                    if k < p {
                        assert(sorted@[k] == old_sorted[k]);
                    } else if k > p {
                        assert(sorted@[k] == old_sorted[k - 1]);
                    }
                }
            }
        }
        proof {
            assert(rest@.to_multiset().len() == 0);
            assert(rest@.to_multiset() =~= vstd::multiset::Multiset::empty());
            assert(sorted@.to_multiset() =~= all.to_multiset());
            assert forall|c: int| #[trigger] at_cell(sorted@, c) == at_cell(all, c) by {
                lemma_at_cell_none(rest@, c);
                assert(at_cell(sorted@, c) + Seq::<(usize, Clue)>::empty() =~= at_cell(sorted@, c));
            }
        }
        let mut clue_index: Vec<Option<usize>> = vec![None; n];
        let mut k: usize = 0;
        while k < sorted.len()
            invariant
                n == grid.size(),
                clue_index@.len() == n,
                k <= sorted@.len(),
                forall|j: int| 0 <= j < sorted@.len() ==> (#[trigger] sorted@[j]).0 < n,
                forall|c: int|
                    0 <= c < n ==> match #[trigger] clue_index@[c] {
                        Some(j) => last_clue_for(sorted@.take(k as int), c, j as int),
                        None => !has_clue(sorted@.take(k as int), c),
                    },
            decreases sorted.len() - k,
        {
            let c = sorted[k].0;
            let ghost before = clue_index@;
            clue_index.set(c, Some(k));
            proof {
                let pre = sorted@.take(k as int);
                let cur = sorted@.take(k + 1);
                assert forall|cc: int| 0 <= cc < n implies match #[trigger] clue_index@[cc] {
                    Some(j) => last_clue_for(cur, cc, j as int),
                    None => !has_clue(cur, cc),
                } by {
                    if cc == c {
                        assert(cur[k as int].0 == c);
                    } else {
                        assert(clue_index@[cc] == before[cc]);
                        match before[cc] {
                            Some(j) => {
                                assert(last_clue_for(pre, cc, j as int));
                                assert(cur[j as int] == pre[j as int]);
                            },
                            None => {
                                if has_clue(cur, cc) {
                                    let j = choose|j: int| 0 <= j < cur.len() && cur[j].0 == cc;
                                    assert(pre[j] == cur[j]);
                                }
                            },
                        }
                    }
                }
            }
            k = k + 1;
        }
        proof {
            assert(sorted@.take(sorted@.len() as int) =~= sorted@);
        }
        Puzzle { grid, clues: sorted, clue_index, solution, seed }
    }

    #[inline]
    pub fn is_clue(&self, idx: usize) -> (r: bool)
        requires
            self.wf(),
            idx < self.grid.size(),
        ensures
            r == has_clue(self.clues@, idx as int),
    {
        self.clue_index[idx].is_some()
    }

    #[inline]
    pub fn clue_at(&self, idx: usize) -> (r: Option<&Clue>)
        requires
            self.wf(),
            idx < self.grid.size(),
        ensures
            r is None <==> !has_clue(self.clues@, idx as int),
            r matches Some(c) ==> exists|k: int|
                last_clue_for(self.clues@, idx as int, k) && *c == (#[trigger] self.clues@[k]).1,
    {
        match self.clue_index[idx] {
            Some(k) => Some(&self.clues[k].1),
            None => None,
        }
    }
}

} // verus!
