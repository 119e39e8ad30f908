//! Bits of words.

use vstd::prelude::*;

verus! {

/// Is bit `k` of the word set?
pub open spec fn bit_at(v: u32, k: u32) -> bool {
    (v >> k) & 1 == 1
}

/// Sets or clears a bit of a word.
pub fn set_bit_in_u32(v: &mut u32, pos: u32, bit: u8)
    requires
        pos < 32,
    ensures
        forall|k: u32|
            k < 32 ==> #[trigger] bit_at(*final(v), k) == (if k == pos {
                bit != 0
            } else {
                bit_at(*old(v), k)
            }),
{
    let w = *v;
    if bit != 0 {
        *v = w | (1u32 << pos);
        let n = *v;
        assert forall|k: u32| k < 32 implies #[trigger] bit_at(n, k) == (if k == pos {
            true
        } else {
            bit_at(w, k)
        }) by {
            assert(n == w | (1u32 << pos) && k < 32 && pos < 32 ==> ((n >> k) & 1 == 1) == (k == pos || (w >> k) & 1
                == 1)) by (bit_vector);
        }
    } else {
        *v = w & !(1u32 << pos);
        let n = *v;
        assert forall|k: u32| k < 32 implies #[trigger] bit_at(n, k) == (if k == pos {
            false
        } else {
            bit_at(w, k)
        }) by {
            assert(n == w & !(1u32 << pos) && k < 32 && pos < 32 ==> ((n >> k) & 1 == 1) == (k != pos && (w >> k) & 1
                == 1)) by (bit_vector);
        }
    }
}

/// The number of set bits among the first `n`.
pub open spec fn ones_below(v: u32, n: nat) -> nat
    decreases n,
{
    if n == 0 {
        0
    } else {
        ones_below(v, (n - 1) as nat) + (if bit_at(v, (n - 1) as u32) {
            1nat
        } else {
            0nat
        })
    }
}

/// The number of set bits.
pub open spec fn ones(v: u32) -> nat {
    ones_below(v, 32)
}

/// There are no more set bits than bits.
pub(crate) proof fn lemma_ones_bound(v: u32, n: nat)
    ensures
        ones_below(v, n) <= n,
    decreases n,
{
    if n > 0 {
        lemma_ones_bound(v, (n - 1) as nat);
    }
}

/// The number of set bits.
pub fn count_ones(v: u32) -> (n: u32)
    ensures
        n == ones(v),
        n <= 32,
{
    let mut n: u32 = 0;
    let mut k: u32 = 0;
    while k < 32
        invariant
            k <= 32,
            n <= k,
            n == ones_below(v, k as nat),
        decreases 32 - k,
    {
        if (v >> k) & 1 == 1 {
            n += 1;
        }
        k += 1;
    }
    n
}

/// Two half-words in one word, the first one in the low half.
pub open spec fn pair_word(a: u16, b: u16) -> u32 {
    (a as int + 0x1_0000 * b as int) as u32
}

/// Two half-words in one word.
pub fn join_halves(a: u16, b: u16) -> (w: u32)
    ensures
        w == pair_word(a, b),
{
    (a as u32) + 0x1_0000 * (b as u32)
}

/// A permutation of 8192 positions, as 16 half-words for each of the 256
/// threads in four sweeps of eight.
pub open spec fn packed(perm: Seq<u16>) -> Seq<u32> {
    Seq::new(
        4096,
        |w: int|
            {
                let i = packed_index(w);
                pair_word(perm[i], perm[i + 1])
            },
    )
}

/// The first position in a word of a packed permutation.
pub open spec fn packed_index(w: int) -> int {
    (w % 1024) / 4 * 32 + w / 1024 * 8 + w % 4 * 2
}

/// Appends a packed permutation.
pub fn push_packed(script: &mut Vec<u32>, perm: &Vec<u16>)
    requires
        perm@.len() == 8192,
    ensures
        final(script)@ == old(script)@ + packed(perm@),
{
    let ghost s0 = script@;
    let mut k: usize = 0;
    while k < 4
        invariant
            perm@.len() == 8192,
            k <= 4,
            script@ == s0 + packed(perm@).take(1024 * k),
        decreases 4 - k,
    {
        let mut t: usize = 0;
        while t < 256
            invariant
                perm@.len() == 8192,
                k < 4,
                t <= 256,
                script@ == s0 + packed(perm@).take(1024 * k + 4 * t),
            decreases 256 - t,
        {
            let i: usize = t * 32 + k * 8;
            let ghost at = 1024 * k + 4 * t;
            script.push(join_halves(perm[i], perm[i + 1]));
            script.push(join_halves(perm[i + 2], perm[i + 3]));
            script.push(join_halves(perm[i + 4], perm[i + 5]));
            script.push(join_halves(perm[i + 6], perm[i + 7]));
            proof {
                assert(packed_index(at) == i);
                assert(packed_index(at + 1) == i + 2);
                assert(packed_index(at + 2) == i + 4);
                assert(packed_index(at + 3) == i + 6);
                assert(script@ =~= s0 + packed(perm@).take(at + 4));
            }
            t += 1;
        }
        k += 1;
    }
    assert(packed(perm@).take(4096) =~= packed(perm@));
}

/// Four words for each of the 256 threads.
pub open spec fn interleaved(a: Seq<u32>, b: Seq<u32>, c: Seq<u32>) -> Seq<u32> {
    Seq::new(
        1024,
        |w: int|
            if w % 4 == 0 {
                a[w / 4]
            } else if w % 4 == 1 {
                b[w / 4]
            } else if w % 4 == 2 {
                c[w / 4]
            } else {
                0
            },
    )
}

/// Appends four words for each thread, the last of which is zero.
pub fn push_interleaved(script: &mut Vec<u32>, a: &Vec<u32>, b: &Vec<u32>, c: &Vec<u32>)
    requires
        a@.len() == 256,
        b@.len() == 256,
        c@.len() == 256,
    ensures
        final(script)@ == old(script)@ + interleaved(a@, b@, c@),
{
    let ghost s0 = script@;
    let ghost all = interleaved(a@, b@, c@);
    let mut i: usize = 0;
    while i < 256
        invariant
            a@.len() == 256,
            b@.len() == 256,
            c@.len() == 256,
            all == interleaved(a@, b@, c@),
            i <= 256,
            script@ == s0 + all.take(4 * i),
        decreases 256 - i,
    {
        script.push(a[i]);
        script.push(b[i]);
        script.push(c[i]);
        script.push(0);
        assert(script@ =~= s0 + all.take(4 * i + 4));
        i += 1;
    }
    assert(all.take(1024) =~= all);
}

/// Bits for a number of positions, packed into words: bit `p % 32` of word
/// `p / 32` belongs to position `p`.
pub open spec fn flag_at(words: Seq<u32>, p: int) -> bool {
    bit_at(words[p / 32], (p % 32) as u32)
}

/// Sets or clears the bit of a position.
pub fn set_flag(words: &mut Vec<u32>, p: usize, bit: u8)
    requires
        p < 32 * old(words)@.len(),
    ensures
        final(words)@.len() == old(words)@.len(),
        forall|q: int|
            0 <= q < 32 * old(words)@.len() ==> #[trigger] flag_at(final(words)@, q) == (if q == p {
                bit != 0
            } else {
                flag_at(old(words)@, q)
            }),
{
    let ghost w0 = words@;
    let i: usize = p / 32;
    let mut w = words[i];
    set_bit_in_u32(&mut w, (p % 32) as u32, bit);
    words.set(i, w);
    proof {
        assert forall|q: int| 0 <= q < 32 * w0.len() implies #[trigger] flag_at(words@, q) == (if q == p {
            bit != 0
        } else {
            flag_at(w0, q)
        }) by {
            let k = (q % 32) as u32;
            assert(k < 32);
            if q / 32 == i {
                assert(bit_at(w, k) == (if k == (p % 32) as u32 {
                    bit != 0
                } else {
                    bit_at(w0[i as int], k)
                }));
            }
        }
    }
}

/// Words with the same bits are the same.
pub(crate) proof fn lemma_same_bits(a: u32, b: u32)
    requires
        forall|k: u32| k < 32 ==> #[trigger] bit_at(a, k) == bit_at(b, k),
    ensures
        a == b,
{
    assert(bit_at(a, 0) == bit_at(b, 0));
    assert(bit_at(a, 1) == bit_at(b, 1));
    assert(bit_at(a, 2) == bit_at(b, 2));
    assert(bit_at(a, 3) == bit_at(b, 3));
    assert(bit_at(a, 4) == bit_at(b, 4));
    assert(bit_at(a, 5) == bit_at(b, 5));
    assert(bit_at(a, 6) == bit_at(b, 6));
    assert(bit_at(a, 7) == bit_at(b, 7));
    assert(bit_at(a, 8) == bit_at(b, 8));
    assert(bit_at(a, 9) == bit_at(b, 9));
    assert(bit_at(a, 10) == bit_at(b, 10));
    assert(bit_at(a, 11) == bit_at(b, 11));
    assert(bit_at(a, 12) == bit_at(b, 12));
    assert(bit_at(a, 13) == bit_at(b, 13));
    assert(bit_at(a, 14) == bit_at(b, 14));
    assert(bit_at(a, 15) == bit_at(b, 15));
    assert(bit_at(a, 16) == bit_at(b, 16));
    assert(bit_at(a, 17) == bit_at(b, 17));
    assert(bit_at(a, 18) == bit_at(b, 18));
    assert(bit_at(a, 19) == bit_at(b, 19));
    assert(bit_at(a, 20) == bit_at(b, 20));
    assert(bit_at(a, 21) == bit_at(b, 21));
    assert(bit_at(a, 22) == bit_at(b, 22));
    assert(bit_at(a, 23) == bit_at(b, 23));
    assert(bit_at(a, 24) == bit_at(b, 24));
    assert(bit_at(a, 25) == bit_at(b, 25));
    assert(bit_at(a, 26) == bit_at(b, 26));
    assert(bit_at(a, 27) == bit_at(b, 27));
    assert(bit_at(a, 28) == bit_at(b, 28));
    assert(bit_at(a, 29) == bit_at(b, 29));
    assert(bit_at(a, 30) == bit_at(b, 30));
    assert(bit_at(a, 31) == bit_at(b, 31));
    assert forall|k: u32| k < 32 implies (a >> k) & 1 == (b >> k) & 1 by {
        assert(bit_at(a, k) == bit_at(b, k));
        assert((a >> k) & 1 == 0 || (a >> k) & 1 == 1) by (bit_vector);
        assert((b >> k) & 1 == 0 || (b >> k) & 1 == 1) by (bit_vector);
    }
    assert(a == b) by (bit_vector)
        requires
            (a >> 0) & 1 == (b >> 0) & 1,
            (a >> 1) & 1 == (b >> 1) & 1,
            (a >> 2) & 1 == (b >> 2) & 1,
            (a >> 3) & 1 == (b >> 3) & 1,
            (a >> 4) & 1 == (b >> 4) & 1,
            (a >> 5) & 1 == (b >> 5) & 1,
            (a >> 6) & 1 == (b >> 6) & 1,
            (a >> 7) & 1 == (b >> 7) & 1,
            (a >> 8) & 1 == (b >> 8) & 1,
            (a >> 9) & 1 == (b >> 9) & 1,
            (a >> 10) & 1 == (b >> 10) & 1,
            (a >> 11) & 1 == (b >> 11) & 1,
            (a >> 12) & 1 == (b >> 12) & 1,
            (a >> 13) & 1 == (b >> 13) & 1,
            (a >> 14) & 1 == (b >> 14) & 1,
            (a >> 15) & 1 == (b >> 15) & 1,
            (a >> 16) & 1 == (b >> 16) & 1,
            (a >> 17) & 1 == (b >> 17) & 1,
            (a >> 18) & 1 == (b >> 18) & 1,
            (a >> 19) & 1 == (b >> 19) & 1,
            (a >> 20) & 1 == (b >> 20) & 1,
            (a >> 21) & 1 == (b >> 21) & 1,
            (a >> 22) & 1 == (b >> 22) & 1,
            (a >> 23) & 1 == (b >> 23) & 1,
            (a >> 24) & 1 == (b >> 24) & 1,
            (a >> 25) & 1 == (b >> 25) & 1,
            (a >> 26) & 1 == (b >> 26) & 1,
            (a >> 27) & 1 == (b >> 27) & 1,
            (a >> 28) & 1 == (b >> 28) & 1,
            (a >> 29) & 1 == (b >> 29) & 1,
            (a >> 30) & 1 == (b >> 30) & 1,
            (a >> 31) & 1 == (b >> 31) & 1,
    ;
}

/// The words with the given flags.
pub open spec fn words_with(pred: spec_fn(int) -> bool) -> Seq<u32> {
    choose|w: Seq<u32>| has_flags(w, pred)
}

/// Are these the flags of 8192 positions?
pub open spec fn has_flags(w: Seq<u32>, pred: spec_fn(int) -> bool) -> bool {
    w.len() == 256 && forall|p: int| 0 <= p < 8192 ==> #[trigger] flag_at(w, p) == pred(p)
}

/// Flags make out words.
pub(crate) proof fn lemma_words_with(w: Seq<u32>, pred: spec_fn(int) -> bool)
    requires
        has_flags(w, pred),
    ensures
        w == words_with(pred),
{
    let v = words_with(pred);
    assert(has_flags(v, pred));
    assert forall|i: int| 0 <= i < 256 implies w[i] == v[i] by {
        assert forall|k: u32| k < 32 implies #[trigger] bit_at(w[i], k) == bit_at(v[i], k) by {
            let p = 32 * i + k as int;
            assert(p / 32 == i && p % 32 == k as int);
            assert(flag_at(w, p) == pred(p));
            assert(flag_at(v, p) == pred(p));
        }
        lemma_same_bits(w[i], v[i]);
    }
    assert(w =~= v);
}

} // verus!
