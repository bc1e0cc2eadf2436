//! A small deterministic random generator, so seeds reproduce puzzles.
//!
//! SplitMix64: a 64-bit counter stepped by a fixed odd constant and run
//! through a bit mixer. Every seed gives its own reproducible stream.

use vstd::prelude::*;

verus! {

/// The increment of the counter (the golden ratio in 64 bits).
pub const GAMMA: u64 = 0x9E37_79B9_7F4A_7C15;

/// The bit mixer applied to each counter value.
pub open spec fn mix(z: u64) -> u64 {
    let a = ((z ^ (z >> 30u64)) as int * 0xBF58_476D_1CE4_E5B9int) % 0x1_0000_0000_0000_0000int;
    let a = a as u64;
    let b = ((a ^ (a >> 27u64)) as int * 0x94D0_49BB_1331_11EBint) % 0x1_0000_0000_0000_0000int;
    let b = b as u64;
    b ^ (b >> 31u64)
}

/// The counter one step further.
pub open spec fn step(state: u64) -> u64 {
    ((state as int + GAMMA as int) % 0x1_0000_0000_0000_0000int) as u64
}

/// The first `i` items of `s` shuffled from counter `state`, and the counter
/// afterwards: item `i - 1` trades places with the item at the next number
/// below `i`, and so on down to the second item.
pub open spec fn shuffled<T>(state: u64, s: Seq<T>, i: nat) -> (Seq<T>, u64)
    decreases i,
{
    if i <= 1 || i > s.len() {
        (s, state)
    } else {
        let st = step(state);
        let j = mix(st) as int % i as int;
        shuffled(st, s.update(i - 1, s[j]).update(j, s[i - 1]), (i - 1) as nat)
    }
}

/// `Vec::swap`: exchanges the entries at `i` and `j`.
#[verifier::external_body]
fn vec_swap<T>(v: &mut Vec<T>, i: usize, j: usize)
    requires
        i < old(v)@.len(),
        j < old(v)@.len(),
    ensures
        final(v)@ == old(v)@.update(i as int, old(v)@[j as int]).update(j as int, old(v)@[i as int]),
{
    v.swap(i, j);
}

pub struct Rng {
    pub state: u64,
}

impl Rng {
    pub fn new(seed: u64) -> (r: Rng)
        ensures
            r.state == seed,
    {
        Rng { state: seed }
    }

    /// The next 64 random bits.
    pub fn next_u64(&mut self) -> (r: u64)
        ensures
            final(self).state == (old(self).state as int + GAMMA as int) % 0x1_0000_0000_0000_0000int,
            r == mix(final(self).state),
    {
        self.state = self.state.wrapping_add(GAMMA);
        let z = self.state;
        let a = (z ^ (z >> 30u64)).wrapping_mul(0xBF58_476D_1CE4_E5B9);
        let b = (a ^ (a >> 27u64)).wrapping_mul(0x94D0_49BB_1331_11EB);
        b ^ (b >> 31u64)
    }

    /// A number in `0..n`.
    pub fn below(&mut self, n: usize) -> (r: usize)
        requires
            n > 0,
        ensures
            r < n,
            r as int == mix(final(self).state) as int % n as int,
            final(self).state == (old(self).state as int + GAMMA as int) % 0x1_0000_0000_0000_0000int,
    {
        let bits = self.next_u64();
        (bits % (n as u64)) as usize
    }

    /// Put the items in a random order (Fisher-Yates).
    pub fn shuffle<T>(&mut self, items: &mut Vec<T>)
        ensures
            final(items)@.to_multiset() == old(items)@.to_multiset(),
            (final(items)@, final(self).state) == shuffled(old(self).state, old(items)@, old(items)@.len()),
    {
        let mut i: usize = items.len();
        while i > 1
            invariant
                i <= items@.len(),
                items@.len() == old(items)@.len(),
                items@.to_multiset() == old(items)@.to_multiset(),
                shuffled(self.state, items@, i as nat) == shuffled(old(self).state, old(items)@, old(items)@.len()),
            decreases i,
        {
            let ghost st0 = self.state;
            let j = self.below(i);
            let ghost before = items@;
            vec_swap(items, i - 1, j);
            proof {
                broadcast use {
                    vstd::multiset::group_multiset_properties,
                    vstd::multiset::group_multiset_axioms,
                };

                let a = before[(i - 1) as int];
                let b = before[j as int];
                let s1 = before.update((i - 1) as int, b);
                vstd::seq_lib::to_multiset_update(before, (i - 1) as int, b);
                vstd::seq_lib::to_multiset_update(s1, j as int, a);
                assert(before.contains(a));
                vstd::seq_lib::to_multiset_contains(before, a);
                assert(s1[j as int] == b);
                assert(items@ == s1.update(j as int, a));
                let m0 = before.to_multiset();
                assert(m0.count(a) > 0);
                assert(m0.insert(b).remove(a).insert(a).remove(b) =~= m0);
                assert(items@.to_multiset() =~= before.to_multiset());
                assert(self.state == step(st0));
                assert(shuffled(st0, before, i as nat) == shuffled(self.state, items@, (i - 1) as nat));
            }
            i = i - 1;
        }
    }
}

} // verus!
