//! Distribution of global reads over threads.

use super::bits::{count_ones, ones};
use super::words::{entries, is_listing, listing};
use crate::sorting::{lemma_same_distinct, lemma_same_items, sort_triples};
use std::collections::BTreeMap;
use vstd::prelude::*;

verus! {

/// The number of threads of a block.
pub const NUM_THREADS_V1: usize = 256;

/// The number of bits that some masked words make together.
pub open spec fn bits_taken(v: Seq<(u32, u32)>) -> nat
    decreases v.len(),
{
    if v.len() == 0 {
        0
    } else {
        bits_taken(v.drop_last()) + ones(v.last().1)
    }
}

/// Is entry `l` of thread `t` there?
pub open spec fn is_entry(rounds: Seq<Vec<(u32, u32)>>, t: int, l: int) -> bool {
    0 <= t < rounds.len() && 0 <= l < rounds[t]@.len()
}

/// Are two entries the same if they hold the same masked word?
pub open spec fn same_entry(rounds: Seq<Vec<(u32, u32)>>, t: int, l: int, u: int, m: int) -> bool {
    is_entry(rounds, t, l) && is_entry(rounds, u, m) && rounds[t]@[l] == rounds[u]@[m] ==> t == u && l == m
}

/// Does some thread read the masked word?
pub open spec fn is_read(rounds: Seq<Vec<(u32, u32)>>, e: (u32, u32)) -> bool {
    exists|t: int| 0 <= t < rounds.len() && (#[trigger] rounds[t])@.contains(e)
}

/// The threads read the masked words, each of them once, and no thread gets
/// more bits than a word has.
pub open spec fn reads_ok(inputs: Seq<(u32, u32)>, rounds: Seq<Vec<(u32, u32)>>) -> bool {
    &&& rounds.len() == NUM_THREADS_V1
    &&& forall|t: int| 0 <= t < rounds.len() ==> bits_taken((#[trigger] rounds[t])@) <= 32
    &&& forall|e: (u32, u32)| #[trigger] inputs.contains(e) <==> is_read(rounds, e)
    &&& forall|t: int, l: int, u: int, m: int| #[trigger] same_entry(rounds, t, l, u, m)
}

/// What each thread reads.
pub open spec fn contents(rounds: Seq<Vec<(u32, u32)>>) -> Seq<Seq<(u32, u32)>> {
    Seq::new(rounds.len(), |t: int| rounds[t]@)
}

/// The first thread with enough free bits, counted from `steps` threads behind
/// thread `j` on, all around.
pub open spec fn seat(rounds: Seq<Seq<(u32, u32)>>, j: int, bits: nat, steps: int) -> Option<int>
    decreases NUM_THREADS_V1 - steps,
{
    if steps >= NUM_THREADS_V1 {
        None
    } else if bits_taken(rounds[(j + steps) % 256]) + bits <= 32 {
        Some((j + steps) % 256)
    } else {
        seat(rounds, j, bits, steps + 1)
    }
}

/// What the threads read once the first `n` words are handed out, one after
/// another, and the thread whose turn it is then. There is `None` if a word
/// found no thread with enough free bits.
pub open spec fn hand_out(words: Seq<(u32, u32)>, n: nat) -> Option<(Seq<Seq<(u32, u32)>>, int)>
    decreases n,
{
    if n == 0 {
        Some((Seq::new(NUM_THREADS_V1 as nat, |t: int| Seq::empty()), 0))
    } else {
        let e = words[n - 1];
        match hand_out(words, (n - 1) as nat) {
            None => None,
            Some((rounds, j)) => match seat(rounds, j, ones(e.1), 0) {
                None => None,
                Some(k) => Some((rounds.update(k, rounds[k].push(e)), (k + 1) % 256)),
            },
        }
    }
}

/// Once a word found no thread, all is lost.
proof fn lemma_hand_out_none(words: Seq<(u32, u32)>, k: nat, n: nat)
    requires
        k <= n,
        hand_out(words, k) is None,
    ensures
        hand_out(words, n) is None,
    decreases n,
{
    if k < n {
        lemma_hand_out_none(words, k, (n - 1) as nat);
    }
}

/// The words at the given positions.
pub open spec fn in_order(inputs: Seq<(u32, u32)>, ord: Seq<usize>) -> Seq<(u32, u32)> {
    Seq::new(ord.len(), |s: int| inputs[ord[s] as int])
}

/// The end of a chunk.
pub open spec fn chunk_end(start: int, size: int, n: int) -> int {
    if size >= n - start {
        n
    } else {
        start + size
    }
}

/// The positions in chunks that follow each other.
pub open spec fn chunks_of(starts: Seq<usize>, size: int, n: int) -> Seq<usize>
    decreases starts.len(),
{
    if starts.len() == 0 {
        Seq::empty()
    } else {
        let at = starts.last() as int;
        chunks_of(starts.drop_last(), size, n) + Seq::new(
            (chunk_end(at, size, n) - at) as nat,
            |i: int| (at + i) as usize,
        )
    }
}

/// The bits of a chunk.
pub open spec fn chunk_bits(inputs: Seq<(u32, u32)>, start: int, size: int) -> nat {
    bits_taken(inputs.subrange(start, chunk_end(start, size, inputs.len() as int)))
}

/// Are these the starts of the chunks of a size, those with the most bits first
/// and otherwise as they come? The order counts as long as the bits can be
/// counted.
pub open spec fn starts_ok(inputs: Seq<(u32, u32)>, size: int, starts: Seq<usize>) -> bool {
    &&& starts.no_duplicates()
    &&& forall|p: usize| #[trigger] starts.contains(p) <==> p < inputs.len() && p as int % size == 0
    &&& 32 * inputs.len() <= usize::MAX ==> forall|a: int, b: int|
        0 <= a < b < starts.len() ==> {
            let x = chunk_bits(inputs, #[trigger] starts[a] as int, size);
            let y = chunk_bits(inputs, #[trigger] starts[b] as int, size);
            x > y || (x == y && starts[a] < starts[b])
        }
}

/// Is this what chunks of the given size come to?
#[verifier::opaque]
pub open spec fn comes_to(inputs: Seq<(u32, u32)>, size: int, out: Option<Seq<Seq<(u32, u32)>>>) -> bool {
    exists|starts: Seq<usize>| #[trigger]
        starts_ok(inputs, size, starts) && {
            let words = in_order(inputs, chunks_of(starts, size, inputs.len() as int));
            match hand_out(words, words.len()) {
                None => out is None,
                Some((rounds, _)) => out == Some(rounds),
            }
        }
}

/// A number halved so many times.
pub open spec fn halved(n: nat, times: nat) -> nat
    decreases times,
{
    if times == 0 {
        n
    } else {
        halved(n, (times - 1) as nat) / 2
    }
}

/// Does none of the first sizes of chunks, each half the one before, give all
/// words a thread?
#[verifier::opaque]
pub open spec fn all_fail(inputs: Seq<(u32, u32)>, k: nat) -> bool {
    forall|i: nat| i < k ==> comes_to(inputs, #[trigger] halved(inputs.len(), i) as int, None)
}

/// The numbers below `n` in ascending order.
spec fn counting(n: nat) -> Seq<usize> {
    Seq::new(n, |i: int| i as usize)
}

/// The starts of chunks, sorted by their bits.
proof fn lemma_starts(
    inputs: Seq<(u32, u32)>,
    size: int,
    unsorted: Seq<(usize, usize, usize)>,
    keys: Seq<(usize, usize, usize)>,
    starts: Seq<usize>,
)
    requires
        1 <= size,
        forall|k: int|
            0 <= k < unsorted.len() ==> (#[trigger] unsorted[k]).1 == k * size && unsorted[k].1 < inputs.len()
                && unsorted[k].2 == 0 && (32 * inputs.len() <= usize::MAX ==> unsorted[k].0 == usize::MAX - chunk_bits(
                inputs,
                unsorted[k].1 as int,
                size,
            )),
        inputs.len() <= unsorted.len() * size,
        keys.no_duplicates(),
        forall|e: (usize, usize, usize)| #[trigger] keys.contains(e) <==> unsorted.contains(e),
        forall|i: int, j: int|
            0 <= i < j < keys.len() ==> crate::sorting::triple_le(#[trigger] keys[i], #[trigger] keys[j]),
        starts == keys.map_values(|e: (usize, usize, usize)| e.1),
    ensures
        starts_ok(inputs, size, starts),
{
    assert forall|a: int, b: int| 0 <= a < b < starts.len() implies starts[a] != starts[b] && (32 * inputs.len()
        <= usize::MAX ==> {
        let x = chunk_bits(inputs, #[trigger] starts[a] as int, size);
        let y = chunk_bits(inputs, #[trigger] starts[b] as int, size);
        x > y || (x == y && starts[a] < starts[b])
    }) by {
        assert(keys.contains(keys[a]) && keys.contains(keys[b]));
        let k = unsorted.index_of(keys[a]);
        let l = unsorted.index_of(keys[b]);
        assert(unsorted[k] == keys[a] && unsorted[l] == keys[b]);
        assert(k != l);
        assert(k * size != l * size) by (nonlinear_arith)
            requires
                k != l,
                size >= 1,
        ;
        assert(crate::sorting::triple_le(keys[a], keys[b]));
    }
    assert forall|p: usize| #[trigger] starts.contains(p) <==> p < inputs.len() && p as int % size == 0 by {
        if starts.contains(p) {
            let a = starts.index_of(p);
            assert(keys.contains(keys[a]));
            let k = unsorted.index_of(keys[a]);
            assert(unsorted[k] == keys[a]);
            assert(p == k * size);
            vstd::arithmetic::div_mod::lemma_mod_multiples_basic(k, size);
        }
        if p < inputs.len() && p as int % size == 0 {
            let k = p as int / size;
            vstd::arithmetic::div_mod::lemma_fundamental_div_mod(p as int, size);
            assert(size * k == k * size) by (nonlinear_arith);
            assert(0 <= k < unsorted.len()) by (nonlinear_arith)
                requires
                    0 <= k * size < unsorted.len() * size,
                    size >= 1,
            ;
            assert(unsorted[k].1 == p);
            assert(unsorted.contains(unsorted[k]));
            assert(keys.contains(unsorted[k]));
            let a = keys.index_of(unsorted[k]);
            assert(starts[a] == p);
        }
    }
}

/// The positions in chunks of a sequence of `n` items, the chunks with the
/// most bits first.
fn order_chunks(inputs: &Vec<(u32, u32)>, chunk_size: usize) -> (r: (Vec<usize>, Ghost<Seq<usize>>))
    requires
        1 <= chunk_size <= inputs@.len(),
    ensures
        r.0@.no_duplicates(),
        forall|p: usize| #[trigger] r.0@.contains(p) <==> p < inputs@.len(),
        chunk_size == inputs@.len() ==> r.0@ == counting(inputs@.len()),
        starts_ok(inputs@, chunk_size as int, r.1@),
        r.0@ == chunks_of(r.1@, chunk_size as int, inputs@.len() as int),
{
    let n = inputs.len();
    let mut keys: Vec<(usize, usize, usize)> = Vec::new();
    let mut at: usize = 0;
    assert(0 * chunk_size == 0) by (nonlinear_arith);
    while at < n
        invariant
            1 <= chunk_size <= n,
            n == inputs@.len(),
            at <= n,
            forall|k: int|
                0 <= k < keys@.len() ==> (#[trigger] keys@[k]).1 == k * chunk_size && keys@[k].1 < n && keys@[k].2
                    == 0 && (32 * n <= usize::MAX ==> keys@[k].0 == usize::MAX - chunk_bits(
                    inputs@,
                    keys@[k].1 as int,
                    chunk_size as int,
                )),
            at == n || at == keys@.len() * chunk_size,
            at == n ==> n <= keys@.len() * chunk_size,
            chunk_size == n ==> (at == 0 && keys@.len() == 0) || (at == n && keys@.len() == 1),
        decreases n - at,
    {
        let end: usize = if chunk_size >= n - at {
            n
        } else {
            at + chunk_size
        };
        let mut sum: usize = 0;
        let mut i: usize = at;
        while i < end
            invariant
                n == inputs@.len(),
                at <= i <= end,
                end <= n,
                32 * n <= usize::MAX ==> sum == bits_taken(inputs@.subrange(at as int, i as int)) && sum <= 32 * (i
                    - at),
            decreases end - i,
        {
            let c = count_ones(inputs[i].1) as usize;
            proof {
                let part = inputs@.subrange(at as int, i + 1);
                assert(part.drop_last() =~= inputs@.subrange(at as int, i as int));
                assert(part.last() == inputs@[i as int]);
            }
            if sum <= usize::MAX - c {
                sum = sum + c;
            }
            i += 1;
        }
        let ghost len = keys@.len();
        keys.push((usize::MAX - sum, at, 0));
        proof {
            assert((len + 1) * chunk_size == len * chunk_size + chunk_size) by (nonlinear_arith);
        }
        at = end;
    }
    let ghost unsorted = keys@;
    proof {
        assert forall|k: int, l: int| 0 <= k < l < unsorted.len() implies unsorted[k] != unsorted[l] by {
            assert(k * chunk_size < l * chunk_size) by (nonlinear_arith)
                requires
                    k < l,
                    chunk_size >= 1,
            ;
            assert(unsorted[k].1 == k * chunk_size);
            assert(unsorted[l].1 == l * chunk_size);
        }
    }
    sort_triples(&mut keys);
    let ghost mut starts: Seq<usize> = Seq::empty();
    proof {
        lemma_same_items(keys@, unsorted);
        lemma_same_distinct(keys@, unsorted);
        starts = keys@.map_values(|e: (usize, usize, usize)| e.1);
        assert(starts_ok(inputs@, chunk_size as int, starts)) by {
            lemma_starts(inputs@, chunk_size as int, unsorted, keys@, starts);
        }
    }
    let mut ord: Vec<usize> = Vec::new();
    let mut t: usize = 0;
    assert(ord@ =~= counting(0));
    assert(starts.take(0) =~= Seq::<usize>::empty());
    while t < keys.len()
        invariant
            1 <= chunk_size <= n,
            n == inputs@.len(),
            t <= keys@.len(),
            keys@.no_duplicates(),
            starts == keys@.map_values(|e: (usize, usize, usize)| e.1),
            ord@ == chunks_of(starts.take(t as int), chunk_size as int, n as int),
            forall|e: (usize, usize, usize)| #[trigger] keys@.contains(e) ==> unsorted.contains(e),
            forall|k: int|
                0 <= k < unsorted.len() ==> (#[trigger] unsorted[k]).1 == k * chunk_size && unsorted[k].1 < n
                    && unsorted[k].2 == 0,
            ord@.no_duplicates(),
            forall|p: usize| #[trigger]
                ord@.contains(p) <==> p < n && exists|s: int|
                    0 <= s < t && (#[trigger] keys@[s]).1 <= p < keys@[s].1 + chunk_size,
            chunk_size == n ==> keys@.len() == 1 && unsorted.len() == 1 && ord@ == counting(if t == 0 {
                0
            } else {
                n as nat
            }),
        decreases keys@.len() - t,
    {
        let start = keys[t].1;
        assert(keys@.contains(keys@[t as int]));
        let ghost before = ord@;
        let end: usize = if chunk_size >= n - start {
            n
        } else {
            start + chunk_size
        };
        proof {
            assert forall|p: usize| start <= p < end implies !before.contains(p) by {
                if before.contains(p) {
                    let s = choose|s: int| 0 <= s < t && (#[trigger] keys@[s]).1 <= p < keys@[s].1 + chunk_size;
                    assert(keys@.contains(keys@[s]));
                    let a = unsorted.index_of(keys@[s]);
                    let b = unsorted.index_of(keys@[t as int]);
                    assert(unsorted[a].1 == a * chunk_size);
                    assert(unsorted[b].1 == b * chunk_size);
                    assert(a == b) by (nonlinear_arith)
                        requires
                            a * chunk_size <= p < a * chunk_size + chunk_size,
                            b * chunk_size <= p < b * chunk_size + chunk_size,
                    ;
                    assert(keys@[s] == keys@[t as int]);
                }
            }
        }
        proof {
            if chunk_size == n {
                assert(unsorted[unsorted.index_of(keys@[t as int])].1 == 0 * chunk_size);
                assert(0 * chunk_size == 0) by (nonlinear_arith);
            }
        }
        let mut i: usize = start;
        assert(ord@ =~= before + Seq::new(0, |x: int| (start + x) as usize));
        while i < end
            invariant
                start <= i <= end,
                ord@ == before + Seq::new((i - start) as nat, |x: int| (start + x) as usize),
                ord@.no_duplicates(),
                forall|p: usize| #[trigger] ord@.contains(p) <==> before.contains(p) || start <= p < i,
                forall|p: usize| start <= p < end ==> !before.contains(p),
                chunk_size == n ==> start == 0 && ord@ == counting(i as nat),
            decreases end - i,
        {
            let ghost o0 = ord@;
            ord.push(i);
            proof {
                assert(ord@ =~= before + Seq::new((i + 1 - start) as nat, |x: int| (start + x) as usize));
                crate::pe::stage::lemma_push_contains(o0, i);
                assert(!o0.contains(i));
                if chunk_size == n {
                    assert(ord@ =~= counting((i + 1) as nat));
                }
            }
            i += 1;
        }
        proof {
            assert forall|p: usize| #[trigger]
                ord@.contains(p) <==> p < n && exists|s: int|
                    0 <= s < t + 1 && (#[trigger] keys@[s]).1 <= p < keys@[s].1 + chunk_size by {
                if before.contains(p) {
                    let s = choose|s: int| 0 <= s < t && (#[trigger] keys@[s]).1 <= p < keys@[s].1 + chunk_size;
                    assert(keys@[s].1 <= p < keys@[s].1 + chunk_size);
                }
                if start <= p < end {
                    assert(keys@[t as int].1 <= p < keys@[t as int].1 + chunk_size);
                }
            }
        }
        proof {
            let some = starts.take(t + 1);
            assert(some.drop_last() =~= starts.take(t as int));
            assert(some.last() == start);
            assert(ord@ =~= chunks_of(some, chunk_size as int, n as int));
        }
        t += 1;
    }
    proof {
        assert forall|p: usize| p < n implies #[trigger] ord@.contains(p) by {
            let k = p as int / chunk_size as int;
            vstd::arithmetic::div_mod::lemma_fundamental_div_mod(p as int, chunk_size as int);
            vstd::arithmetic::div_mod::lemma_mod_bound(p as int, chunk_size as int);
            assert(chunk_size * k == k * chunk_size) by (nonlinear_arith);
            assert(0 <= k) by (nonlinear_arith)
                requires
                    k == p as int / chunk_size as int,
                    chunk_size >= 1,
                    p >= 0,
            ;
            assert(k < unsorted.len()) by (nonlinear_arith)
                requires
                    k * chunk_size <= p,
                    p < n,
                    n <= unsorted.len() * chunk_size,
                    chunk_size >= 1,
            ;
            assert(unsorted[k].1 == k * chunk_size);
            assert(unsorted.contains(unsorted[k]));
            assert(keys@.contains(unsorted[k]));
            let s = keys@.index_of(unsorted[k]);
            assert(keys@[s].1 <= p < keys@[s].1 + chunk_size);
        }
    }
    assert(starts.take(t as int) =~= starts);
    (ord, Ghost(starts))
}

/// The entries so far: the first `n` masked words are at `loc`, and nothing
/// else is anywhere.
spec fn placed_reads(
    inputs: Seq<(u32, u32)>,
    ord: Seq<usize>,
    n: int,
    rounds: Seq<Vec<(u32, u32)>>,
    loc: Seq<(int, int)>,
) -> bool {
    &&& loc.len() == n
    &&& forall|s: int|
        0 <= s < n ==> is_entry(rounds, (#[trigger] loc[s]).0, loc[s].1) && rounds[loc[s].0]@[loc[s].1]
            == inputs[ord[s] as int]
    &&& forall|t: int, l: int| #[trigger]
        is_entry(rounds, t, l) ==> exists|s: int| 0 <= s < n && #[trigger] loc[s] == (t, l)
}

/// Is there a word so that all words together have more bits than fit while
/// every thread has room for this one?
pub open spec fn crowded(inputs: Seq<(u32, u32)>) -> bool {
    exists|i: int|
        0 <= i < inputs.len() && bits_taken(inputs) >= NUM_THREADS_V1 * (33 - ones((#[trigger] inputs[i]).1)) + ones(
            inputs[i].1,
        )
}

/// The bits of the first `n` words in the given order.
spec fn dealt(inputs: Seq<(u32, u32)>, ord: Seq<usize>, n: nat) -> nat
    decreases n,
{
    if n == 0 {
        0
    } else {
        dealt(inputs, ord, (n - 1) as nat) + ones(inputs[ord[n - 1] as int].1)
    }
}

/// The bits that the first `n` threads take.
spec fn used_up(used: Seq<u32>, n: nat) -> nat
    decreases n,
{
    if n == 0 {
        0
    } else {
        used_up(used, (n - 1) as nat) + used[n - 1] as nat
    }
}

proof fn lemma_used_step(u0: Seq<u32>, u1: Seq<u32>, j: int, c: u32, n: nat)
    requires
        n <= u0.len(),
        u1.len() == u0.len(),
        0 <= j < u0.len(),
        u1[j] == u0[j] + c,
        forall|k: int| 0 <= k < u0.len() && k != j ==> #[trigger] u1[k] == u0[k],
    ensures
        used_up(u1, n) == used_up(u0, n) + (if j < n {
            c as nat
        } else {
            0
        }),
    decreases n,
{
    if n > 0 {
        lemma_used_step(u0, u1, j, c, (n - 1) as nat);
        if n - 1 != j {
            assert(u1[n - 1] == u0[n - 1]);
        }
    }
}

proof fn lemma_used_full(used: Seq<u32>, c: int, n: nat)
    requires
        n <= used.len(),
        forall|k: int| 0 <= k < used.len() ==> #[trigger] used[k] + c > 32,
    ensures
        used_up(used, n) >= n * (33 - c),
    decreases n,
{
    if n > 0 {
        lemma_used_full(used, c, (n - 1) as nat);
        assert(used[n - 1] + c > 32);
        assert(n * (33 - c) == (n - 1) * (33 - c) + (33 - c)) by (nonlinear_arith);
    } else {
        assert(0 * (33 - c) == 0) by (nonlinear_arith);
    }
}

proof fn lemma_used_none(used: Seq<u32>, n: nat)
    requires
        n <= used.len(),
        forall|k: int| 0 <= k < used.len() ==> #[trigger] used[k] == 0,
    ensures
        used_up(used, n) == 0,
    decreases n,
{
    if n > 0 {
        lemma_used_none(used, (n - 1) as nat);
        assert(used[n - 1] == 0);
    }
}

proof fn lemma_dealt_without(inputs: Seq<(u32, u32)>, ord: Seq<usize>, i: int)
    requires
        0 <= i < ord.len(),
    ensures
        dealt(inputs, ord, ord.len()) == dealt(inputs, ord.remove(i), (ord.len() - 1) as nat) + ones(
            inputs[ord[i] as int].1,
        ),
    decreases ord.len(),
{
    let n = ord.len();
    let rest = ord.remove(i);
    if i == n - 1 {
        lemma_dealt_same(inputs, ord, rest, (n - 1) as nat);
    } else {
        let front = ord.drop_last();
        lemma_dealt_without(inputs, front, i);
        lemma_dealt_same(inputs, ord, front, (n - 1) as nat);
        assert(front.remove(i) =~= rest.drop_last());
        lemma_dealt_same(inputs, rest, rest.drop_last(), (n - 2) as nat);
        assert(rest[n - 2] == ord[n - 1]);
    }
}

proof fn lemma_dealt_same(inputs: Seq<(u32, u32)>, a: Seq<usize>, b: Seq<usize>, n: nat)
    requires
        n <= a.len(),
        n <= b.len(),
        forall|k: int| 0 <= k < n ==> #[trigger] a[k] == b[k],
    ensures
        dealt(inputs, a, n) == dealt(inputs, b, n),
    decreases n,
{
    if n > 0 {
        lemma_dealt_same(inputs, a, b, (n - 1) as nat);
        assert(a[n - 1] == b[n - 1]);
    }
}

/// Words that are dealt once each make no more bits than all words.
proof fn lemma_dealt_bound(inputs: Seq<(u32, u32)>, ord: Seq<usize>)
    requires
        ord.no_duplicates(),
        forall|k: int| 0 <= k < ord.len() ==> #[trigger] ord[k] < inputs.len(),
    ensures
        dealt(inputs, ord, ord.len()) <= bits_taken(inputs),
    decreases inputs.len(),
{
    if inputs.len() == 0 {
        if ord.len() > 0 {
            assert(ord[0] < inputs.len());
        }
    } else {
        let last = (inputs.len() - 1) as int;
        let front = inputs.drop_last();
        if exists|i: int| 0 <= i < ord.len() && ord[i] == last {
            let i = choose|i: int| 0 <= i < ord.len() && ord[i] == last;
            let rest = ord.remove(i);
            lemma_dealt_without(inputs, ord, i);
            assert forall|a: int, b: int| 0 <= a < rest.len() && 0 <= b < rest.len() && a != b implies rest[a]
                != rest[b] by {
                let x = if a < i {
                    a
                } else {
                    a + 1
                };
                let y = if b < i {
                    b
                } else {
                    b + 1
                };
                assert(rest[a] == ord[x] && rest[b] == ord[y]);
            }
            assert forall|k: int| 0 <= k < rest.len() implies #[trigger] rest[k] < front.len() by {
                let x = if k < i {
                    k
                } else {
                    k + 1
                };
                assert(rest[k] == ord[x]);
                assert(ord[x] < inputs.len());
                assert(ord[x] != ord[i]);
            }
            lemma_dealt_bound(front, rest);
            lemma_dealt_front(inputs, rest, rest.len());
        } else {
            assert forall|k: int| 0 <= k < ord.len() implies #[trigger] ord[k] < front.len() by {
                assert(ord[k] < inputs.len());
                assert(ord[k] != last);
            }
            lemma_dealt_bound(front, ord);
            lemma_dealt_front(inputs, ord, ord.len());
        }
    }
}

proof fn lemma_dealt_front(inputs: Seq<(u32, u32)>, ord: Seq<usize>, n: nat)
    requires
        inputs.len() > 0,
        n <= ord.len(),
        forall|k: int| 0 <= k < ord.len() ==> #[trigger] ord[k] < inputs.len() - 1,
    ensures
        dealt(inputs.drop_last(), ord, n) == dealt(inputs, ord, n),
    decreases n,
{
    if n > 0 {
        lemma_dealt_front(inputs, ord, (n - 1) as nat);
        assert(ord[n - 1] < inputs.len() - 1);
        assert(inputs.drop_last()[ord[n - 1] as int] == inputs[ord[n - 1] as int]);
    }
}

/// A word that fits nowhere makes a crowd.
proof fn lemma_crowded(inputs: Seq<(u32, u32)>, ord: Seq<usize>, t: int, used: Seq<u32>)
    requires
        ord.no_duplicates(),
        forall|k: int| 0 <= k < ord.len() ==> #[trigger] ord[k] < inputs.len(),
        0 <= t < ord.len(),
        used.len() == NUM_THREADS_V1,
        used_up(used, NUM_THREADS_V1 as nat) == dealt(inputs, ord, t as nat),
        forall|k: int| 0 <= k < used.len() ==> #[trigger] used[k] + ones(inputs[ord[t] as int].1) > 32,
    ensures
        crowded(inputs),
{
    let i = ord[t] as int;
    assert(ord[t] < inputs.len());
    let c = ones(inputs[i].1) as int;
    lemma_used_full(used, c, NUM_THREADS_V1 as nat);
    let part = ord.take(t + 1);
    lemma_dealt_same(inputs, ord, part, t as nat);
    assert(part[t] == ord[t]);
    assert forall|k: int| 0 <= k < part.len() implies #[trigger] part[k] < inputs.len() by {
        assert(part[k] == ord[k]);
    }
    lemma_dealt_bound(inputs, part);
    assert(dealt(inputs, part, part.len()) == dealt(inputs, part, t as nat) + ones(inputs[part[t] as int].1));
    assert(bits_taken(inputs) >= NUM_THREADS_V1 * (33 - ones(inputs[i].1)) + ones(inputs[i].1));
}

/// Hands the masked words out to the threads in turn, each to the next thread
/// with enough free bits. There is `None` if a word fits nowhere.
#[verifier::rlimit(50)]
fn deal_reads(inputs: &Vec<(u32, u32)>, ord: &Vec<usize>) -> (r: Option<Vec<Vec<(u32, u32)>>>)
    requires
        inputs@.no_duplicates(),
        ord@.no_duplicates(),
        forall|p: usize| #[trigger] ord@.contains(p) <==> p < inputs@.len(),
    ensures
        r matches Some(rounds) ==> reads_ok(inputs@, rounds@),
        ord@.len() <= NUM_THREADS_V1 ==> r is Some && forall|t: int|
            0 <= t < NUM_THREADS_V1 ==> (#[trigger] r.unwrap()@[t])@ == (if t < ord@.len() {
                seq![inputs@[ord@[t] as int]]
            } else {
                Seq::empty()
            }),
        r is None ==> crowded(inputs@),
        match hand_out(in_order(inputs@, ord@), ord@.len()) {
            None => r is None,
            Some((rounds, _)) => r is Some && contents(r.unwrap()@) == rounds,
        },
{
    let n = ord.len();
    let m = inputs.len();
    let mut rounds: Vec<Vec<(u32, u32)>> = Vec::new();
    let mut used: Vec<u32> = vec![0u32; NUM_THREADS_V1];
    while rounds.len() < NUM_THREADS_V1
        invariant
            rounds@.len() <= NUM_THREADS_V1,
            forall|t: int| 0 <= t < rounds@.len() ==> (#[trigger] rounds@[t])@.len() == 0,
        decreases NUM_THREADS_V1 - rounds@.len(),
    {
        rounds.push(Vec::new());
    }
    let ghost words = in_order(inputs@, ord@);
    proof {
        assert(contents(rounds@) =~= Seq::new(NUM_THREADS_V1 as nat, |t: int| Seq::<(u32, u32)>::empty())) by {
            assert forall|t: int| 0 <= t < NUM_THREADS_V1 implies contents(rounds@)[t] =~= Seq::<
                (u32, u32),
            >::empty() by {
                assert(rounds@[t]@.len() == 0);
            }
        }
    }
    let ghost mut loc: Seq<(int, int)> = Seq::empty();
    let mut j: usize = 0;
    let mut t: usize = 0;
    proof {
        lemma_used_none(used@, NUM_THREADS_V1 as nat);
    }
    while t < n
        invariant
            inputs@.no_duplicates(),
            ord@.no_duplicates(),
            forall|p: usize| #[trigger] ord@.contains(p) <==> p < inputs@.len(),
            n == ord@.len(),
            t <= n,
            j < NUM_THREADS_V1,
            words == in_order(inputs@, ord@),
            hand_out(words, t as nat) == Some((contents(rounds@), j as int)),
            rounds@.len() == NUM_THREADS_V1,
            used@.len() == NUM_THREADS_V1,
            forall|k: int| 0 <= k < NUM_THREADS_V1 ==> used@[k] == bits_taken((#[trigger] rounds@[k])@),
            forall|k: int| 0 <= k < NUM_THREADS_V1 ==> #[trigger] used@[k] <= 32,
            placed_reads(inputs@, ord@, t as int, rounds@, loc),
            used_up(used@, NUM_THREADS_V1 as nat) == dealt(inputs@, ord@, t as nat),
            t < NUM_THREADS_V1 ==> j == t && forall|k: int|
                t <= k < NUM_THREADS_V1 ==> (#[trigger] rounds@[k])@.len() == 0,
            n <= NUM_THREADS_V1 ==> forall|k: int|
                0 <= k < t ==> (#[trigger] rounds@[k])@ == seq![inputs@[ord@[k] as int]],
        decreases n - t,
    {
        assert(ord@.contains(ord@[t as int]));
        let e = inputs[ord[t]];
        let c = count_ones(e.1);
        let from = j;
        let mut steps: usize = 0;
        assert(used@[j as int] == bits_taken(rounds@[j as int]@));
        while used[j] + c > 32
            invariant
                j < NUM_THREADS_V1,
                from < NUM_THREADS_V1,
                used@.len() == NUM_THREADS_V1,
                rounds@.len() == NUM_THREADS_V1,
                c <= 32,
                t < n,
                n == ord@.len(),
                steps < NUM_THREADS_V1,
                j == (from + steps) % 256,
                forall|x: int| 0 <= x < steps ==> #[trigger] used@[(from + x) % 256] + c > 32,
                words == in_order(inputs@, ord@),
                words[t as int] == e,
                hand_out(words, t as nat) == Some((contents(rounds@), from as int)),
                seat(contents(rounds@), from as int, ones(e.1), 0) == seat(
                    contents(rounds@),
                    from as int,
                    ones(e.1),
                    steps as int,
                ),
                c == ones(e.1),
                e == inputs@[ord@[t as int] as int],
                ord@.no_duplicates(),
                forall|p: usize| #[trigger] ord@.contains(p) <==> p < inputs@.len(),
                used_up(used@, NUM_THREADS_V1 as nat) == dealt(inputs@, ord@, t as nat),
                forall|k: int| 0 <= k < NUM_THREADS_V1 ==> used@[k] == bits_taken((#[trigger] rounds@[k])@),
                forall|k: int| 0 <= k < NUM_THREADS_V1 ==> #[trigger] used@[k] <= 32,
                t < NUM_THREADS_V1 ==> j == t && rounds@[t as int]@.len() == 0,
            decreases NUM_THREADS_V1 - steps,
        {
            proof {
                assert(used@[j as int] == bits_taken(rounds@[j as int]@));
                assert(t >= NUM_THREADS_V1);
            }
            j += 1;
            if j == NUM_THREADS_V1 {
                j = 0;
            }
            steps += 1;
            if j == from {
                proof {
                    assert forall|k: int| 0 <= k < used@.len() implies #[trigger] used@[k] + ones(
                        inputs@[ord@[t as int] as int].1,
                    ) > 32 by {
                        let x = if k >= from {
                            k - from
                        } else {
                            k - from + 256
                        };
                        assert((from + x) % 256 == k);
                        assert(used@[(from + x) % 256] + c > 32);
                    }
                    assert forall|k: int| 0 <= k < ord@.len() implies #[trigger] ord@[k] < inputs@.len() by {
                        assert(ord@.contains(ord@[k]));
                    }
                    lemma_crowded(inputs@, ord@, t as int, used@);
                    assert(steps == 256);
                    assert(hand_out(words, (t + 1) as nat) is None);
                    lemma_hand_out_none(words, (t + 1) as nat, n as nat);
                }
                return None;
            }
        }
        let ghost r0 = rounds@;
        let ghost l0 = loc;
        proof {
            if t < NUM_THREADS_V1 {
                assert(used@[t as int] == bits_taken(rounds@[t as int]@));
            }
        }
        proof {
            assert(used@[j as int] == bits_taken(rounds@[j as int]@));
            assert(contents(rounds@)[j as int] == rounds@[j as int]@);
            assert(seat(contents(rounds@), from as int, ones(e.1), 0) == Some(j as int));
        }
        let ghost u0 = used@;
        used.set(j, used[j] + c);
        rounds[j].push(e);
        proof {
            assert(rounds@[j as int]@.drop_last() =~= r0[j as int]@);
            assert(u0[j as int] == bits_taken(r0[j as int]@));
            lemma_used_step(u0, used@, j as int, c, NUM_THREADS_V1 as nat);
            let at = (j as int, r0[j as int]@.len() as int);
            loc = loc.push(at);
            assert forall|s: int| 0 <= s < t + 1 implies is_entry(rounds@, (#[trigger] loc[s]).0, loc[s].1)
                && rounds@[loc[s].0]@[loc[s].1] == inputs@[ord@[s] as int] by {
                if s < t {
                    assert(loc[s] == l0[s]);
                    assert(is_entry(r0, l0[s].0, l0[s].1));
                }
            }
            assert forall|u: int, l: int| #[trigger] is_entry(rounds@, u, l) implies exists|s: int|
                0 <= s < t + 1 && #[trigger] loc[s] == (u, l) by {
                if u == j && l == r0[j as int]@.len() {
                    assert(loc[t as int] == (u, l));
                } else {
                    assert(is_entry(r0, u, l));
                    let s = choose|s: int| 0 <= s < t && #[trigger] l0[s] == (u, l);
                    assert(loc[s] == (u, l));
                }
            }
            assert forall|k: int| 0 <= k < NUM_THREADS_V1 implies used@[k] == bits_taken((#[trigger] rounds@[k])@) by {
                if k != j {
                    assert(rounds@[k] == r0[k]);
                    assert(u0[k] == bits_taken(r0[k]@));
                }
            }
        }
        proof {
            if n <= NUM_THREADS_V1 {
                assert forall|k: int| 0 <= k < t + 1 implies (#[trigger] rounds@[k])@ == seq![
                    inputs@[ord@[k] as int],
                ] by {
                    if k < t {
                        assert(rounds@[k] == r0[k]);
                    } else {
                        assert(r0[k]@ =~= Seq::<(u32, u32)>::empty());
                        assert(rounds@[k]@ =~= seq![inputs@[ord@[k] as int]]);
                    }
                }
            }
        }
        proof {
            assert(contents(rounds@) =~= contents(r0).update(j as int, contents(r0)[j as int].push(e)));
        }
        j += 1;
        if j == NUM_THREADS_V1 {
            j = 0;
        }
        t += 1;
    }
    proof {
        if n <= NUM_THREADS_V1 {
            assert forall|t: int| 0 <= t < NUM_THREADS_V1 implies (#[trigger] rounds@[t])@ == (if t < ord@.len() {
                seq![inputs@[ord@[t] as int]]
            } else {
                Seq::empty()
            }) by {
                if t >= n {
                    assert(rounds@[t]@.len() == 0);
                    assert(rounds@[t]@ =~= Seq::<(u32, u32)>::empty());
                }
            }
        }
        assert forall|x: (u32, u32)| #[trigger] inputs@.contains(x) <==> is_read(rounds@, x) by {
            if inputs@.contains(x) {
                assert(inputs@.index_of(x) < m);
                let p = inputs@.index_of(x) as usize;
                assert(ord@.contains(p));
                let s = ord@.index_of(p);
                assert(is_entry(rounds@, loc[s].0, loc[s].1));
                assert(rounds@[loc[s].0]@.contains(x));
            }
            if is_read(rounds@, x) {
                let u = choose|u: int| 0 <= u < rounds@.len() && (#[trigger] rounds@[u])@.contains(x);
                let l = rounds@[u]@.index_of(x);
                assert(is_entry(rounds@, u, l));
                let s = choose|s: int| 0 <= s < n && #[trigger] loc[s] == (u, l);
                assert(ord@.contains(ord@[s]));
                assert(inputs@[ord@[s] as int] == x);
            }
        }
        assert forall|a: int, l: int, u: int, m: int| #[trigger] same_entry(rounds@, a, l, u, m) by {
            if is_entry(rounds@, a, l) && is_entry(rounds@, u, m) && rounds@[a]@[l] == rounds@[u]@[m] {
                let s = choose|s: int| 0 <= s < n && #[trigger] loc[s] == (a, l);
                let r = choose|r: int| 0 <= r < n && #[trigger] loc[r] == (u, m);
                assert(ord@.contains(ord@[s]));
                assert(ord@.contains(ord@[r]));
                assert(inputs@[ord@[s] as int] == inputs@[ord@[r] as int]);
                assert(ord@[s] == ord@[r]);
            }
        }
    }
    Some(rounds)
}

/// Distributes masked words over the threads of a block. Chunks of words that
/// make many bits are handed out first; the chunks are halved until no word
/// is left over. As many words as threads, or fewer, are read in one round, one
/// word by each thread. There is `None` if there are no words, or if some word found
/// no thread with enough room. That never happens to words of one bit each that
/// fit at all.
pub fn map_global_read_to_rounds(inputs_taken: &BTreeMap<u32, u32>) -> (r: Option<Vec<Vec<(u32, u32)>>>)
    ensures
        is_listing(inputs_taken@, listing(inputs_taken@)),
        ({
            let words = listing(inputs_taken@);
            &&& r matches Some(rounds) ==> reads_ok(words, rounds@)
            &&& words.len() == 0 ==> r is None
            &&& 1 <= words.len() <= NUM_THREADS_V1 ==> r is Some && forall|t: int|
                0 <= t < NUM_THREADS_V1 ==> (#[trigger] r.unwrap()@[t])@ == (if t < words.len() {
                    seq![words[t]]
                } else {
                    Seq::empty()
                })
            &&& r is None && words.len() > 0 ==> crowded(words)
            &&& r matches Some(rounds) ==> exists|k: nat|
                1 <= #[trigger] halved(words.len(), k) && comes_to(
                    words,
                    halved(words.len(), k) as int,
                    Some(contents(rounds@)),
                ) && all_fail(words, k)
            &&& r is None ==> exists|k: nat| #[trigger] halved(words.len(), k) == 0 && all_fail(words, k)
        }),
{
    let words = entries(inputs_taken);
    assert forall|i: int, j: int| 0 <= i < j < words@.len() implies words@[i] != words@[j] by {
        assert(words@[i].0 < words@[j].0);
    }
    deal_words(&words)
}

/// Distributes masked words over the threads of a block, in chunks that are halved
/// until no word is left over.
fn deal_words(inputs_taken: &Vec<(u32, u32)>) -> (r: Option<Vec<Vec<(u32, u32)>>>)
    requires
        inputs_taken@.no_duplicates(),
    ensures
        r matches Some(rounds) ==> reads_ok(inputs_taken@, rounds@),
        inputs_taken@.len() == 0 ==> r is None,
        1 <= inputs_taken@.len() <= NUM_THREADS_V1 ==> r is Some && forall|t: int|
            0 <= t < NUM_THREADS_V1 ==> (#[trigger] r.unwrap()@[t])@ == (if t < inputs_taken@.len() {
                seq![inputs_taken@[t]]
            } else {
                Seq::empty()
            }),
        r is None && inputs_taken@.len() > 0 ==> crowded(inputs_taken@),
        r matches Some(rounds) ==> exists|k: nat|
            1 <= #[trigger] halved(inputs_taken@.len(), k) && comes_to(
                inputs_taken@,
                halved(inputs_taken@.len(), k) as int,
                Some(contents(rounds@)),
            ) && all_fail(inputs_taken@, k),
        r is None ==> exists|k: nat| #[trigger] halved(inputs_taken@.len(), k) == 0 && all_fail(inputs_taken@, k),
{
    let n = inputs_taken.len();
    let mut chunk_size: usize = n;
    let ghost mut k: nat = 0;
    assert(all_fail(inputs_taken@, 0)) by {
        reveal(all_fail);
    }
    while chunk_size >= 1
        invariant
            inputs_taken@.no_duplicates(),
            n == inputs_taken@.len(),
            chunk_size <= n,
            1 <= n <= NUM_THREADS_V1 ==> chunk_size == n,
            chunk_size == n || crowded(inputs_taken@),
            chunk_size == halved(n as nat, k),
            all_fail(inputs_taken@, k),
        decreases chunk_size,
    {
        let (ord, Ghost(starts)) = order_chunks(inputs_taken, chunk_size);
        proof {
            lemma_ord_len(ord@, n as int);
        }
        let r = deal_reads(inputs_taken, &ord);
        proof {
            if n <= NUM_THREADS_V1 {
                assert(ord@.len() == n);
                assert forall|t: int| 0 <= t < n implies #[trigger] ord@[t] == t by {}
            }
        }
        proof {
            let words = in_order(inputs_taken@, ord@);
            assert(words.len() == ord@.len());
            let out = if r is Some {
                Some(contents(r.unwrap()@))
            } else {
                None
            };
            assert(comes_to(inputs_taken@, chunk_size as int, out)) by {
                reveal(comes_to);
                assert(starts_ok(inputs_taken@, chunk_size as int, starts));
            }
        }
        if r.is_some() {
            return r;
        }
        proof {
            reveal(all_fail);
            k = k + 1;
        }
        chunk_size = chunk_size / 2;
    }
    None
}

proof fn lemma_ord_len(ord: Seq<usize>, n: int)
    requires
        ord.no_duplicates(),
        forall|p: usize| #[trigger] ord.contains(p) ==> p < n,
    ensures
        ord.len() <= n || ord.len() == 0,
{
    assert forall|i: int| 0 <= i < ord.len() implies #[trigger] ord[i] < n by {
        assert(ord.contains(ord[i]));
    }
    crate::aig::lemma_distinct_len(ord, n);
}

} // verus!
