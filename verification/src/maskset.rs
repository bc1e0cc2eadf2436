//! Sets of eight-bit neighbour masks as 256-bit bitsets.

use vstd::prelude::*;

verus! {

/// Bit `k` of a 64-bit word.
pub open spec fn word_bit(w: u64, k: int) -> bool {
    (w >> (k as u64)) & 1u64 == 1u64
}

/// A set of neighbour masks: bit `m` of the 256-bit number means "mask m is
/// still possible".
#[derive(Clone, Copy, PartialEq, Eq, Debug)]
pub struct MaskSet(pub [u64; 4]);

impl MaskSet {
    /// Mask `m` is in the set.
    pub open spec fn has(&self, m: u8) -> bool {
        word_bit(self.0[(m as int) / 64], (m as int) % 64)
    }

    pub fn empty() -> (s: MaskSet)
        ensures
            forall|m: u8| !#[trigger] s.has(m),
    {
        let s = MaskSet([0u64; 4]);
        assert forall|m: u8| !#[trigger] s.has(m) by {
            let k = ((m as int) % 64) as u64;
            assert(s.0[(m as int) / 64] == 0);
            assert((0u64 >> k) & 1u64 == 0u64) by (bit_vector);
        }
        s
    }

    #[inline]
    pub fn insert(&mut self, m: u8)
        ensures
            forall|x: u8| #[trigger] final(self).has(x) == (old(self).has(x) || x == m),
    {
        let w: usize = (m >> 6) as usize;
        let k: u8 = m & 63;
        proof {
            assert((m >> 6u8) as int == (m as int) / 64 && (m & 63u8) as int == (m as int) % 64)
                by (bit_vector);
        }
        let old_word = self.0[w];
        let new_word = old_word | (1u64 << k);
        self.0[w] = new_word;
        proof {
            assert forall|x: u8| #[trigger] self.has(x) == (old(self).has(x) || x == m) by {
                let wx = (x as int) / 64;
                let kx = ((x as int) % 64) as u64;
                let k64 = k as u64;
                if wx == w {
                    assert((old_word | (1u64 << k64)) >> kx & 1u64 == 1u64 <==> ((old_word >> kx)
                        & 1u64 == 1u64 || kx == k64)) by (bit_vector)
                        requires
                            kx < 64,
                            k64 < 64,
                    ;
                    assert(kx == k64 <==> x == m) by {
                        assert(x as int == wx * 64 + kx);
                        assert(m as int == (w as int) * 64 + k as int);
                    }
                } else {
                    assert(self.0[wx] == old(self).0[wx]);
                }
            }
        }
    }

    #[inline]
    pub fn and(self, other: MaskSet) -> (r: MaskSet)
        ensures
            forall|x: u8| #[trigger] r.has(x) == (self.has(x) && other.has(x)),
    {
        let r = MaskSet(
            [
                self.0[0] & other.0[0],
                self.0[1] & other.0[1],
                self.0[2] & other.0[2],
                self.0[3] & other.0[3],
            ],
        );
        proof {
            assert forall|x: u8| #[trigger] r.has(x) == (self.has(x) && other.has(x)) by {
                let wx = (x as int) / 64;
                let kx = ((x as int) % 64) as u64;
                let a = self.0[wx];
                let b = other.0[wx];
                assert(r.0[wx] == a & b);
                assert(((a & b) >> kx) & 1u64 == 1u64 <==> ((a >> kx) & 1u64 == 1u64 && (b >> kx)
                    & 1u64 == 1u64)) by (bit_vector);
            }
        }
        r
    }

    #[inline]
    pub fn is_empty(self) -> (r: bool)
        ensures
            r == forall|x: u8| !#[trigger] self.has(x),
    {
        let r = self.0[0] | self.0[1] | self.0[2] | self.0[3] == 0;
        proof {
            let (a, b, c, d) = (self.0[0], self.0[1], self.0[2], self.0[3]);
            assert((a | b | c | d == 0) == (a == 0 && b == 0 && c == 0 && d == 0)) by (bit_vector);
            if r {
                assert forall|x: u8| !#[trigger] self.has(x) by {
                    let kx = ((x as int) % 64) as u64;
                    assert((0u64 >> kx) & 1u64 == 0u64) by (bit_vector);
                }
            } else {
                let wi: int = if a != 0 {
                    0
                } else if b != 0 {
                    1
                } else if c != 0 {
                    2
                } else {
                    3
                };
                let x = lemma_word_member(self.0[wi], wi);
                assert(self.has(x));
            }
        }
        r
    }

    #[inline]
    pub fn intersects(self, other: MaskSet) -> (r: bool)
        ensures
            r == exists|x: u8| #[trigger] self.has(x) && other.has(x),
    {
        let both = self.and(other);
        let r = !both.is_empty();
        proof {
            if r {
                let x = choose|x: u8| #[trigger] both.has(x);
                assert(self.has(x) && other.has(x));
            } else {
                assert forall|x: u8| !(#[trigger] self.has(x) && other.has(x)) by {
                    assert(!both.has(x));
                }
            }
        }
        r
    }

    /// Number of masks in the set.
    #[inline]
    pub fn count(self) -> (r: u32)
        ensures
            r == member_count(self, 256),
    {
        proof {
            lemma_member_count_words(self);
            lemma_popcount_bits(self.0[0]);
            lemma_popcount_bits(self.0[1]);
            lemma_popcount_bits(self.0[2]);
            lemma_popcount_bits(self.0[3]);
            lemma_bits_below_bound(self.0[0], 64);
            lemma_bits_below_bound(self.0[1], 64);
            lemma_bits_below_bound(self.0[2], 64);
            lemma_bits_below_bound(self.0[3], 64);
        }
        let c0 = count_ones(self.0[0]);
        let c1 = count_ones(self.0[1]);
        let c2 = count_ones(self.0[2]);
        let c3 = count_ones(self.0[3]);
        c0 + c1 + c2 + c3
    }

    /// The masks of the set, in increasing order.
    pub fn to_vec(self) -> (out: Vec<u8>)
        ensures
            forall|e: int, f: int| 0 <= e < f < out@.len() ==> out@[e] < out@[f],
            forall|x: u8| out@.contains(x) <==> self.has(x),
    {
        let mut out: Vec<u8> = Vec::new();
        let mut word: usize = 0;
        while word < 4
            invariant
                word <= 4,
                forall|e: int, f: int| 0 <= e < f < out@.len() ==> out@[e] < out@[f],
                forall|x: u8| out@.contains(x) <==> (self.has(x) && (x as int) / 64 < word),
                forall|e: int| 0 <= e < out@.len() ==> (out@[e] as int) < word * 64,
            decreases 4 - word,
        {
            let mut bits = self.0[word];
            let ghost start_len = out@.len();
            while bits != 0
                invariant
                    word < 4,
                    forall|e: int, f: int| 0 <= e < f < out@.len() ==> out@[e] < out@[f],
                    forall|k: int| 0 <= k < 64 && word_bit(bits, k) ==> #[trigger] word_bit(self.0[word as int], k),
                    forall|x: u8|
                        out@.contains(x) <==> (self.has(x) && ((x as int) / 64 < word || ((x as int) / 64
                            == word && !word_bit(bits, (x as int) % 64)))),
                    forall|e: int, k: int|
                        0 <= e < out@.len() && 0 <= k < 64 && #[trigger] word_bit(bits, k) ==> (
                        #[trigger] out@[e] as int) < word * 64 + k,
                    forall|e: int| 0 <= e < out@.len() ==> (out@[e] as int) < (word + 1) * 64,
                decreases popcount(bits),
            {
                let bit = bits.trailing_zeros();
                let ghost old_bits = bits;
                let ghost old_out = out@;
                proof {
                    vstd::std_specs::bits::axiom_u64_trailing_zeros(bits);
                }
                let m: u8 = (word * 64 + bit as usize) as u8;
                out.push(m);
                bits = bits & (bits - 1);
                proof {
                    let t = bit as u64;
                    assert forall|j: u64| j < 64 implies ((bits >> j) & 1u64 == 1u64) == ((old_bits
                        >> j) & 1u64 == 1u64 && j != t) by {
                        lemma_clear_lowest(old_bits, t, j);
                    }
                    assert forall|j: u64| j < t implies (old_bits >> j) & 1u64 == 0u64 by {
                        lemma_clear_lowest(old_bits, t, j);
                    }
                    lemma_popcount_clear(old_bits, t);
                    assert(m as int == word * 64 + t);
                    assert(self.has(m)) by {
                        assert((m as int) / 64 == word && (m as int) % 64 == t);
                        assert(word_bit(old_bits, t as int));
                    }
                    assert forall|e: int, f: int| 0 <= e < f < out@.len() implies out@[e] < out@[f] by {
                        if f == out@.len() - 1 {
                            assert(word_bit(old_bits, t as int));
                            assert(old_out[e] < word * 64 + t);
                        }
                    }
                    assert forall|x: u8|
                        out@.contains(x) <==> (self.has(x) && ((x as int) / 64 < word || ((x as int) / 64
                            == word && !word_bit(bits, (x as int) % 64)))) by {
                        let kx = ((x as int) % 64) as u64;
                        if x == m {
                            assert(out@[out@.len() - 1] == m);
                        } else {
                            if old_out.contains(x) {
                                let e = choose|e: int| 0 <= e < old_out.len() && old_out[e] == x;
                                assert(out@[e] == x);
                            }
                            if out@.contains(x) {
                                let e = choose|e: int| 0 <= e < out@.len() && out@[e] == x;
                                if e < old_out.len() {
                                    assert(old_out[e] == x);
                                }
                            }
                            if (x as int) / 64 == word {
                                assert(kx != t) by {
                                    if kx == t {
                                        assert(x as int == (x as int) / 64 * 64 + (x as int) % 64);
                                    }
                                }
                            }
                        }
                    }
                    assert forall|e: int, k: int|
                        0 <= e < out@.len() && 0 <= k < 64 && #[trigger] word_bit(bits, k) implies (
                        #[trigger] out@[e] as int) < word * 64 + k by {
                        assert(word_bit(old_bits, k) && k != t);
                        if e < old_out.len() {
                            assert(out@[e] == old_out[e]);
                        } else {
                            if k < t {
                                assert((old_bits >> (k as u64)) & 1u64 == 0u64);
                            }
                        }
                    }
                }
            }
            proof {
                assert forall|x: u8| out@.contains(x) <==> (self.has(x) && (x as int) / 64 < word + 1) by {
                    let kx = (x as int) % 64;
                    assert(!word_bit(0u64, kx)) by {
                        let k64 = kx as u64;
                        assert((0u64 >> k64) & 1u64 == 0u64) by (bit_vector);
                    }
                }
            }
            word = word + 1;
        }
        out
    }
}

/// Number of set bits of a word.
pub open spec fn popcount(w: u64) -> nat
    decreases w,
{
    if w == 0 {
        0
    } else {
        (w % 2) as nat + popcount(w / 2)
    }
}

/// Number of masks below `k` in the set.
pub open spec fn member_count(s: MaskSet, k: int) -> nat
    decreases k,
{
    if k <= 0 {
        0
    } else {
        member_count(s, k - 1) + if s.has((k - 1) as u8) {
            1nat
        } else {
            0nat
        }
    }
}

/// Number of set bits below bit `k` of a word.
pub open spec fn bits_below(w: u64, k: int) -> nat
    decreases k,
{
    if k <= 0 {
        0
    } else {
        bits_below(w, k - 1) + if word_bit(w, k - 1) {
            1nat
        } else {
            0nat
        }
    }
}

/// The number of one bits of the word.
fn count_ones(w: u64) -> (r: u32)
    ensures
        r == popcount(w),
{
    proof {
        lemma_popcount_bits(w);
        lemma_bits_below_bound(w, 64);
    }
    let mut x = w;
    let mut c: u32 = 0;
    while x != 0
        invariant
            c + popcount(x) == popcount(w),
            popcount(w) <= 64,
        decreases x,
    {
        c = c + (x % 2) as u32;
        x = x / 2;
    }
    c
}

/// A nonzero word has a set bit, which is a member of the set when the word
/// is word `wi` of it.
proof fn lemma_word_member(w: u64, wi: int) -> (x: u8)
    requires
        w != 0,
        0 <= wi < 4,
    ensures
        (x as int) / 64 == wi,
        word_bit(w, (x as int) % 64),
{
    vstd::std_specs::bits::axiom_u64_trailing_zeros(w);
    let t = vstd::std_specs::bits::u64_trailing_zeros(w) as int;
    let x = (wi * 64 + t) as u8;
    assert((x as int) / 64 == wi && (x as int) % 64 == t);
    x
}

proof fn lemma_clear_lowest(b: u64, t: u64, j: u64)
    requires
        t < 64,
        j < 64,
        (b >> t) & 1u64 == 1u64,
        b << ((64 - t) as u64) == 0,
    ensures
        ((b & ((b - 1) as u64)) >> j) & 1u64 == 1u64 <==> ((b >> j) & 1u64 == 1u64 && j != t),
        j < t ==> (b >> j) & 1u64 == 0u64,
{
    assert(((b & ((b - 1) as u64)) >> j) & 1u64 == 1u64 <==> ((b >> j) & 1u64 == 1u64 && j != t))
        by (bit_vector)
        requires
            t < 64,
            j < 64,
            (b >> t) & 1u64 == 1u64,
            b << ((64 - t) as u64) == 0,
    ;
    assert(j < t ==> (b >> j) & 1u64 == 0u64) by (bit_vector)
        requires
            t < 64,
            j < 64,
            b << ((64 - t) as u64) == 0,
    ;
}

proof fn lemma_popcount_clear(b: u64, t: u64)
    requires
        t < 64,
        (b >> t) & 1u64 == 1u64,
        b << ((64 - t) as u64) == 0,
    ensures
        popcount(b & ((b - 1) as u64)) < popcount(b),
{
    lemma_popcount_bits(b);
    lemma_popcount_bits(b & ((b - 1) as u64));
    lemma_bits_below_sub(b, b & ((b - 1) as u64), t, 64);
}

/// Clearing one set bit lowers the count of set bits.
proof fn lemma_bits_below_sub(b: u64, c: u64, t: u64, k: int)
    requires
        t < 64,
        0 <= k <= 64,
        (b >> t) & 1u64 == 1u64,
        b << ((64 - t) as u64) == 0,
        c == b & ((b - 1) as u64),
    ensures
        bits_below(c, k) + (if t < k {
            1nat
        } else {
            0nat
        }) == bits_below(b, k),
    decreases k,
{
    if k > 0 {
        lemma_bits_below_sub(b, c, t, k - 1);
        let j = (k - 1) as u64;
        lemma_clear_lowest(b, t, j);
    }
}

proof fn lemma_bits_below_bound(w: u64, k: int)
    requires
        0 <= k,
    ensures
        bits_below(w, k) <= k,
    decreases k,
{
    if k > 0 {
        lemma_bits_below_bound(w, k - 1);
    }
}

/// The popcount of a word counts its set bits.
proof fn lemma_popcount_bits(w: u64)
    ensures
        popcount(w) == bits_below(w, 64),
    decreases w,
{
    if w != 0 {
        lemma_popcount_bits(w / 2);
        lemma_bits_below_half(w, 64);
        let h = w / 2;
        assert((h >> 63u64) & 1u64 == 0u64) by (bit_vector)
            requires
                h == w / 2,
        ;
        assert(!word_bit(h, 63));
        assert(bits_below(h, 64) == bits_below(h, 63));
    } else {
        lemma_bits_below_zero(64);
    }
}

proof fn lemma_bits_below_zero(k: int)
    requires
        0 <= k <= 64,
    ensures
        bits_below(0u64, k) == 0,
    decreases k,
{
    if k > 0 {
        lemma_bits_below_zero(k - 1);
        let j = (k - 1) as u64;
        assert((0u64 >> j) & 1u64 == 0u64) by (bit_vector);
    }
}

/// The bits of `w / 2` are the bits of `w` shifted down by one.
proof fn lemma_bits_below_half(w: u64, k: int)
    requires
        1 <= k <= 64,
    ensures
        bits_below(w, k) == (w % 2) as nat + bits_below(w / 2, k - 1),
    decreases k,
{
    if k == 1 {
        assert(((w >> 0u64) & 1u64 == 1u64) == (w % 2 == 1)) by (bit_vector);
        assert(word_bit(w, 0) == ((w >> 0u64) & 1u64 == 1u64));
        assert(bits_below(w, 0) == 0);
        assert(bits_below(w / 2, 0) == 0);
    } else {
        lemma_bits_below_half(w, k - 1);
        let j = (k - 2) as u64;
        let j1 = (k - 1) as u64;
        assert(j1 == j + 1);
        assert(((w / 2) >> j) & 1u64 == (w >> j1) & 1u64) by (bit_vector)
            requires
                j < 63,
                j1 == j + 1,
        ;
        assert(word_bit(w / 2, k - 2) == word_bit(w, k - 1));
    }
}

/// The members of a set are counted word by word.
proof fn lemma_member_count_words(s: MaskSet)
    ensures
        member_count(s, 256) == popcount(s.0[0]) + popcount(s.0[1]) + popcount(s.0[2]) + popcount(
            s.0[3],
        ),
{
    lemma_popcount_bits(s.0[0]);
    lemma_popcount_bits(s.0[1]);
    lemma_popcount_bits(s.0[2]);
    lemma_popcount_bits(s.0[3]);
    lemma_member_count_word(s, 0, 64);
    lemma_member_count_word(s, 1, 64);
    lemma_member_count_word(s, 2, 64);
    lemma_member_count_word(s, 3, 64);
}

proof fn lemma_member_count_word(s: MaskSet, wi: int, k: int)
    requires
        0 <= wi < 4,
        0 <= k <= 64,
    ensures
        member_count(s, wi * 64 + k) == member_count(s, wi * 64) + bits_below(s.0[wi], k),
    decreases k,
{
    if k > 0 {
        lemma_member_count_word(s, wi, k - 1);
        let m = (wi * 64 + k - 1) as u8;
        assert((m as int) / 64 == wi && (m as int) % 64 == k - 1);
    }
}

} // verus!
