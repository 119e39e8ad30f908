//! Where the first stage of a partition finds what it reads.

use super::bits::{bit_at, count_ones, ones, ones_below, set_bit_in_u32};
use super::reads::{bits_taken, is_entry, is_read, reads_ok, same_entry};
use super::words::is_listing;
use crate::aig::AIG;
use crate::collections::{
    gate_get, gate_insert, gate_new, gate_view, map_get, map_insert, map_new, map_view, pos_get, pos_view,
};
use crate::pe::waves::{mac, producer, producers_ok};
use indexmap::IndexMap;
use std::collections::BTreeMap;
use vstd::prelude::*;

verus! {

/// The first slot that holds the pin.
pub open spec fn first_slot(outputs: Seq<usize>, pin: usize) -> Option<int>
    decreases outputs.len(),
{
    if outputs.len() == 0 {
        None
    } else {
        match first_slot(outputs.drop_last(), pin) {
            Some(s) => Some(s),
            None => if outputs.last() == pin {
                Some(outputs.len() - 1)
            } else {
                None
            },
        }
    }
}

/// Is the pin produced by a macro phase rather than read from the state?
pub open spec fn is_phase_pin(aig: AIG, pin: usize) -> bool {
    match producer(aig, pin) {
        Some(mi) => match first_slot(mac(aig, mi).outputs@, pin) {
            Some(s) => mac(aig, mi).kind.spec_needs_eval(s as usize),
            None => false,
        },
        None => false,
    }
}

/// Is the pin produced by a macro phase rather than read from the state?
pub fn is_phase_output(aig: &AIG, pin: usize) -> (b: bool)
    requires
        aig.macros_wf(),
        producers_ok(*aig),
    ensures
        b == is_phase_pin(*aig, pin),
{
    match map_get(&aig.aigpin2macro, pin) {
        None => false,
        Some(mi) => {
            assert(map_view(aig.aigpin2macro)[pin] < aig.macros.vals().len());
            let m = aig.macros.value(mi);
            assert(mac(*aig, mi).wf());
            let mut s: usize = 0;
            let n = m.outputs.len();
            while s < n
                invariant
                    m.wf(),
                    *m == mac(*aig, mi),
                    n == m.outputs@.len(),
                    n <= 48,
                    s <= n,
                    producer(*aig, pin) == Some(mi),
                    first_slot(m.outputs@.take(s as int), pin) is None,
                decreases n - s,
            {
                assert(m.outputs@.take(s + 1).drop_last() =~= m.outputs@.take(s as int));
                if m.outputs[s] == pin {
                    proof {
                        lemma_first_slot(m.outputs@, s + 1, pin);
                    }
                    return m.kind.output_needs_mid_partition_eval(s);
                }
                s += 1;
            }
            assert(m.outputs@.take(n as int) =~= m.outputs@);
            false
        },
    }
}

proof fn lemma_first_slot(outputs: Seq<usize>, n: int, pin: usize)
    requires
        0 <= n <= outputs.len(),
        first_slot(outputs.take(n), pin) is Some,
    ensures
        first_slot(outputs, pin) == first_slot(outputs.take(n), pin),
    decreases outputs.len() - n,
{
    if n < outputs.len() {
        assert(outputs.take(n + 1).drop_last() =~= outputs.take(n));
        lemma_first_slot(outputs, n + 1, pin);
    } else {
        assert(outputs.take(n) =~= outputs);
    }
}

/// The word and bit of the state at which a pin is found. Words of the current
/// iteration are marked by their highest bit.
pub open spec fn source_of(input_map: Map<usize, u32>, staged_map: Map<usize, u32>, pin: usize) -> Option<(u32, u32)> {
    if input_map.contains_key(pin) {
        Some(((input_map[pin] / 32) as u32, (input_map[pin] % 32) as u32))
    } else if staged_map.contains_key(pin) {
        Some(((staged_map[pin] / 32 + 0x8000_0000) as u32, (staged_map[pin] % 32) as u32))
    } else {
        None
    }
}

/// The word and bit of the state at which a pin is found.
fn find_source(input_map: &IndexMap<usize, u32>, staged_map: &IndexMap<usize, u32>, pin: usize) -> (r: Option<
    (u32, u32),
>)
    ensures
        r == source_of(pos_view(*input_map), pos_view(*staged_map), pin),
        r matches Some(s) ==> s.1 < 32,
{
    match pos_get(input_map, pin) {
        Some(pos) => Some((pos / 32, pos % 32)),
        None => match pos_get(staged_map, pin) {
            Some(pos) => Some((pos / 32 + 0x8000_0000, pos % 32)),
            None => None,
        },
    }
}

/// Is the pin in the row, to be read from the state?
pub open spec fn is_read_pin(aig: AIG, row: Seq<usize>, pin: usize) -> bool {
    row.contains(pin) && pin != usize::MAX && !is_phase_pin(aig, pin)
}

/// Is the bit of the state one that the row needs?
pub open spec fn is_needed_bit(
    aig: AIG,
    row: Seq<usize>,
    input_map: Map<usize, u32>,
    staged_map: Map<usize, u32>,
    w: u32,
    k: u32,
) -> bool {
    exists|pin: usize| #[trigger]
        is_read_pin(aig, row, pin) && source_of(input_map, staged_map, pin) == Some((w, k))
}

/// Is a bit of the word needed?
pub open spec fn is_needed_word(
    aig: AIG,
    row: Seq<usize>,
    input_map: Map<usize, u32>,
    staged_map: Map<usize, u32>,
    w: u32,
) -> bool {
    exists|k: u32| k < 32 && #[trigger] is_needed_bit(aig, row, input_map, staged_map, w, k)
}

/// Do the masked words hold exactly the needed bits, each word once, and no word
/// without a needed bit?
pub open spec fn taken_ok(
    aig: AIG,
    row: Seq<usize>,
    input_map: Map<usize, u32>,
    staged_map: Map<usize, u32>,
    taken: Seq<(u32, u32)>,
) -> bool {
    &&& forall|i: int, j: int| 0 <= i < j < taken.len() ==> (#[trigger] taken[i]).0 < (#[trigger] taken[j]).0
    &&& forall|i: int, k: u32|
        0 <= i < taken.len() && k < 32 ==> (#[trigger] bit_at(taken[i].1, k) <==> is_needed_bit(
            aig,
            row,
            input_map,
            staged_map,
            taken[i].0,
            k,
        ))
    &&& forall|w: u32, k: u32| #[trigger]
        is_needed_bit(aig, row, input_map, staged_map, w, k) ==> exists|i: int|
            0 <= i < taken.len() && (#[trigger] taken[i]).0 == w
    &&& forall|i: int|
        0 <= i < taken.len() ==> is_needed_word(aig, row, input_map, staged_map, (#[trigger] taken[i]).0)
}

/// Is the bit in the mask of its word?
pub open spec fn has_bit(masks: Map<u32, u32>, w: u32, k: u32) -> bool {
    masks.contains_key(w) && bit_at(masks[w], k)
}

/// Do the masks hold exactly the needed bits, and no word without a needed bit?
pub open spec fn masks_ok(
    aig: AIG,
    row: Seq<usize>,
    input_map: Map<usize, u32>,
    staged_map: Map<usize, u32>,
    masks: Map<u32, u32>,
) -> bool {
    &&& forall|w: u32, k: u32|
        k < 32 ==> (#[trigger] has_bit(masks, w, k) <==> is_needed_bit(aig, row, input_map, staged_map, w, k))
    &&& forall|w: u32, k: u32| #[trigger]
        is_needed_bit(aig, row, input_map, staged_map, w, k) ==> masks.contains_key(w) && k < 32
    &&& forall|w: u32| #[trigger]
        masks.contains_key(w) ==> is_needed_word(aig, row, input_map, staged_map, w)
}

/// What is listed is taken.
pub(super) proof fn lemma_taken(
    aig: AIG,
    row: Seq<usize>,
    input_map: Map<usize, u32>,
    staged_map: Map<usize, u32>,
    masks: Map<u32, u32>,
    taken: Seq<(u32, u32)>,
)
    requires
        masks_ok(aig, row, input_map, staged_map, masks),
        is_listing(masks, taken),
    ensures
        taken_ok(aig, row, input_map, staged_map, taken),
{
    assert forall|i: int, k: u32| 0 <= i < taken.len() && k < 32 implies (#[trigger] bit_at(taken[i].1, k)
        <==> is_needed_bit(aig, row, input_map, staged_map, taken[i].0, k)) by {
        assert(has_bit(masks, taken[i].0, k) <==> bit_at(taken[i].1, k));
    }
    assert forall|w: u32, k: u32| #[trigger] is_needed_bit(aig, row, input_map, staged_map, w, k) implies exists|i: int|
        0 <= i < taken.len() && (#[trigger] taken[i]).0 == w by {
        let i = taken.index_of((w, masks[w]));
        assert(taken[i].0 == w);
    }
    assert forall|i: int| 0 <= i < taken.len() implies is_needed_word(
        aig,
        row,
        input_map,
        staged_map,
        (#[trigger] taken[i]).0,
    ) by {
        assert(masks.contains_key(taken[i].0));
    }
}

/// Adds a bit to the mask of its word.
fn add_bit(masks: &mut BTreeMap<u32, u32>, w: u32, k: u32)
    requires
        k < 32,
    ensures
        forall|x: u32, y: u32|
            y < 32 ==> (#[trigger] has_bit(final(masks)@, x, y) <==> has_bit(old(masks)@, x, y) || (x == w && y == k)),
        forall|x: u32| #[trigger] final(masks)@.contains_key(x) <==> old(masks)@.contains_key(x) || x == w,
{
    broadcast use {vstd::std_specs::btree::group_btree_axioms, vstd::laws_cmp::group_laws_cmp};

    let ghost m0 = masks@;
    let mut mask: u32 = match masks.get(&w) {
        Some(m) => *m,
        None => 0,
    };
    let ghost mask0 = mask;
    set_bit_in_u32(&mut mask, k, 1);
    let _ = masks.insert(w, mask);
    proof {
        assert forall|y: u32| y < 32 implies !#[trigger] bit_at(0u32, y) by {
            assert(y < 32 ==> (0u32 >> y) & 1 == 0) by (bit_vector);
        }
        assert forall|x: u32, y: u32| y < 32 implies (#[trigger] has_bit(masks@, x, y) <==> has_bit(m0, x, y) || (x == w
            && y == k)) by {
            if x == w {
                assert(bit_at(mask, y) == (y == k || bit_at(mask0, y)));
            }
        }
    }
}

/// The masked words that a row needs from the state. The error is a pin that
/// is nowhere in the state.
pub fn take_inputs(
    aig: &AIG,
    row: &Vec<usize>,
    input_map: &IndexMap<usize, u32>,
    staged_map: &IndexMap<usize, u32>,
) -> (r: Result<BTreeMap<u32, u32>, usize>)
    requires
        aig.macros_wf(),
        producers_ok(*aig),
    ensures
        r matches Ok(taken) ==> masks_ok(*aig, row@, pos_view(*input_map), pos_view(*staged_map), taken@),
        r matches Err(pin) ==> is_read_pin(*aig, row@, pin) && source_of(
            pos_view(*input_map),
            pos_view(*staged_map),
            pin,
        ) is None,
        r is Ok ==> forall|pin: usize| #[trigger]
            is_read_pin(*aig, row@, pin) ==> source_of(pos_view(*input_map), pos_view(*staged_map), pin) is Some,
{
    let ghost im = pos_view(*input_map);
    let ghost sm = pos_view(*staged_map);
    let mut ms: BTreeMap<u32, u32> = BTreeMap::new();
    let mut i: usize = 0;
    assert(row@.take(0) =~= Seq::<usize>::empty());
    while i < row.len()
        invariant
            aig.macros_wf(),
            producers_ok(*aig),
            im == pos_view(*input_map),
            sm == pos_view(*staged_map),
            i <= row@.len(),
            masks_ok(*aig, row@.take(i as int), im, sm, ms@),
            forall|pin: usize| #[trigger]
                is_read_pin(*aig, row@.take(i as int), pin) ==> source_of(im, sm, pin) is Some,
        decreases row@.len() - i,
    {
        let inp = row[i];
        let ghost r0 = row@.take(i as int);
        let ghost r1 = row@.take(i + 1);
        let ghost ms0 = ms@;
        proof {
            assert(r1 =~= r0.push(inp));
            crate::pe::stage::lemma_push_contains(r0, inp);
        }
        let ghost mut hit: Option<(u32, u32)> = None;
        if inp != usize::MAX && !is_phase_output(aig, inp) {
            match find_source(input_map, staged_map, inp) {
                None => {
                    assert(row@.contains(inp));
                    return Err(inp);
                },
                Some((w, k)) => {
                    add_bit(&mut ms, w, k);
                    proof {
                        hit = Some((w, k));
                    }
                },
            }
        }
        proof {
            assert forall|w: u32, k: u32| #[trigger]
                is_needed_bit(*aig, r1, im, sm, w, k) <==> is_needed_bit(*aig, r0, im, sm, w, k) || hit == Some(
                    (w, k),
                ) by {
                if is_needed_bit(*aig, r1, im, sm, w, k) {
                    let pin = choose|pin: usize| #[trigger]
                        is_read_pin(*aig, r1, pin) && source_of(im, sm, pin) == Some((w, k));
                    if pin != inp {
                        assert(is_read_pin(*aig, r0, pin));
                    }
                }
                if is_needed_bit(*aig, r0, im, sm, w, k) {
                    let pin = choose|pin: usize| #[trigger]
                        is_read_pin(*aig, r0, pin) && source_of(im, sm, pin) == Some((w, k));
                    assert(is_read_pin(*aig, r1, pin));
                }
                if hit == Some((w, k)) {
                    assert(is_read_pin(*aig, r1, inp));
                }
            }
            assert forall|w: u32| #[trigger] ms@.contains_key(w) implies is_needed_word(*aig, r1, im, sm, w) by {
                if ms0.contains_key(w) {
                    let k = choose|k: u32| k < 32 && #[trigger] is_needed_bit(*aig, r0, im, sm, w, k);
                    assert(is_needed_bit(*aig, r1, im, sm, w, k));
                } else {
                    let (x, k) = hit.unwrap();
                    assert(is_needed_bit(*aig, r1, im, sm, w, k));
                }
            }
            assert forall|w: u32, k: u32| #[trigger] is_needed_bit(*aig, r1, im, sm, w, k) implies ms@.contains_key(w)
                && k < 32 by {
                if is_needed_bit(*aig, r0, im, sm, w, k) {
                    assert(ms0.contains_key(w));
                }
            }
            assert forall|w: u32, k: u32| k < 32 implies (#[trigger] has_bit(ms@, w, k) <==> is_needed_bit(
                *aig,
                r1,
                im,
                sm,
                w,
                k,
            )) by {
                assert(has_bit(ms0, w, k) <==> is_needed_bit(*aig, r0, im, sm, w, k));
                assert(is_needed_bit(*aig, r1, im, sm, w, k) <==> is_needed_bit(*aig, r0, im, sm, w, k) || hit == Some(
                    (w, k),
                ));
            }
            assert forall|pin: usize| #[trigger] is_read_pin(*aig, r1, pin) implies source_of(im, sm, pin) is Some by {
                if pin != inp {
                    assert(is_read_pin(*aig, r0, pin));
                }
            }
        }
        i += 1;
    }
    assert(row@.take(row@.len() as int) =~= row@);
    Ok(ms)
}

/// The number of set bits above bit `k`.
pub open spec fn ones_above(v: u32, k: int) -> int {
    ones(v) - ones_below(v, (k + 1) as nat)
}

/// The bits of the entries of a thread from `l` on.
pub open spec fn bits_from(v: Seq<(u32, u32)>, l: int) -> nat {
    bits_taken(v.subrange(l, v.len() as int))
}

/// Where bit `k` of entry `l` of thread `t` is found once all entries are
/// read: the bits of a thread are packed from the last one on.
pub open spec fn local_of(rounds: Seq<Vec<(u32, u32)>>, t: int, l: int, k: int) -> int {
    32 * t + bits_from(rounds[t]@, l + 1) + ones_above(rounds[t]@[l].1, k)
}

/// Is bit `k` of entry `l` of thread `t` read?
pub open spec fn is_bit(rounds: Seq<Vec<(u32, u32)>>, t: int, l: int, k: u32) -> bool {
    is_entry(rounds, t, l) && k < 32 && bit_at(rounds[t]@[l].1, k)
}

proof fn lemma_bits_front(v: Seq<(u32, u32)>)
    requires
        v.len() > 0,
    ensures
        bits_taken(v) == ones(v[0].1) + bits_taken(v.subrange(1, v.len() as int)),
    decreases v.len(),
{
    let rest = v.subrange(1, v.len() as int);
    if v.len() > 1 {
        lemma_bits_front(v.drop_last());
        assert(v.drop_last().subrange(1, v.len() - 1) =~= rest.drop_last());
    } else {
        assert(v.drop_last() =~= Seq::<(u32, u32)>::empty());
        assert(rest =~= Seq::<(u32, u32)>::empty());
    }
}

/// The bits from an entry on are its own and those behind it.
proof fn lemma_bits_from(v: Seq<(u32, u32)>, l: int)
    requires
        0 <= l < v.len(),
    ensures
        bits_from(v, l) == ones(v[l].1) + bits_from(v, l + 1),
{
    let s = v.subrange(l, v.len() as int);
    lemma_bits_front(s);
    assert(s.subrange(1, s.len() as int) =~= v.subrange(l + 1, v.len() as int));
}

/// There are no more bits from a later entry on.
proof fn lemma_bits_fall(v: Seq<(u32, u32)>, l: int, m: int)
    requires
        0 <= l <= m <= v.len(),
    ensures
        bits_from(v, m) <= bits_from(v, l) <= bits_taken(v),
    decreases m - l, l,
{
    if l < m {
        lemma_bits_from(v, l);
        lemma_bits_fall(v, l + 1, m);
    }
    if l > 0 {
        lemma_bits_from(v, l - 1);
        lemma_bits_fall_start(v, l);
    } else {
        assert(v.subrange(0, v.len() as int) =~= v);
    }
}

proof fn lemma_bits_fall_start(v: Seq<(u32, u32)>, l: int)
    requires
        0 <= l <= v.len(),
    ensures
        bits_from(v, l) <= bits_taken(v),
    decreases l,
{
    if l > 0 {
        lemma_bits_from(v, l - 1);
        lemma_bits_fall_start(v, l - 1);
    } else {
        assert(v.subrange(0, v.len() as int) =~= v);
    }
}

/// Counting bits goes up.
proof fn lemma_ones_grow(v: u32, a: nat, b: nat)
    requires
        a <= b,
    ensures
        ones_below(v, a) <= ones_below(v, b),
    decreases b,
{
    if a < b {
        lemma_ones_grow(v, a, (b - 1) as nat);
    }
}

/// A bit that is read lies within the bits of its thread.
pub(crate) proof fn lemma_local_range(rounds: Seq<Vec<(u32, u32)>>, t: int, l: int, k: u32)
    requires
        rounds.len() == 256,
        forall|t: int| 0 <= t < 256 ==> bits_taken((#[trigger] rounds[t])@) <= 32,
        is_bit(rounds, t, l, k),
    ensures
        32 * t <= local_of(rounds, t, l, k as int) < 32 * t + bits_taken(rounds[t]@) <= 32 * t + 32 <= 8192,
        bits_from(rounds[t]@, l + 1) <= local_of(rounds, t, l, k as int) - 32 * t < bits_from(rounds[t]@, l),
{
    let v = rounds[t]@;
    lemma_bits_from(v, l);
    lemma_bits_fall_start(v, l);
    lemma_ones_grow(v[l].1, (k + 1) as nat, 32);
    assert(ones_below(v[l].1, (k + 1) as nat) == ones_below(v[l].1, k as nat) + 1);
    assert(bits_taken(rounds[t]@) <= 32);
}

/// Two different bits that are read are found at different positions.
pub proof fn law_reads_apart(
    rounds: Seq<Vec<(u32, u32)>>,
    t: int,
    l: int,
    k: u32,
    u: int,
    m: int,
    j: u32,
)
    requires
        rounds.len() == 256,
        forall|t: int| 0 <= t < 256 ==> bits_taken((#[trigger] rounds[t])@) <= 32,
        is_bit(rounds, t, l, k),
        is_bit(rounds, u, m, j),
        local_of(rounds, t, l, k as int) == local_of(rounds, u, m, j as int),
    ensures
        t == u,
        l == m,
        k == j,
{
    lemma_local_range(rounds, t, l, k);
    lemma_local_range(rounds, u, m, j);
    let v = rounds[t]@;
    assert(t == u);
    if l < m {
        lemma_bits_fall(v, l + 1, m);
    }
    if m < l {
        lemma_bits_fall(v, m + 1, l);
    }
    let x = v[l].1;
    if k < j {
        lemma_ones_grow(x, (k + 1) as nat, j as nat);
        assert(ones_below(x, (j + 1) as nat) == ones_below(x, j as nat) + 1);
    }
    if j < k {
        lemma_ones_grow(x, (j + 1) as nat, k as nat);
        assert(ones_below(x, (k + 1) as nat) == ones_below(x, k as nat) + 1);
    }
}

/// Is each word in one entry only?
spec fn words_once(rounds: Seq<Vec<(u32, u32)>>) -> bool {
    forall|t: int, l: int, u: int, m: int| #[trigger] same_word(rounds, t, l, u, m)
}

spec fn same_word(rounds: Seq<Vec<(u32, u32)>>, t: int, l: int, u: int, m: int) -> bool {
    is_entry(rounds, t, l) && is_entry(rounds, u, m) && rounds[t]@[l].0 == rounds[u]@[m].0 ==> t == u && l == m
}

/// Has the bit been visited when bit `k` of entry `l` of thread `t` was the
/// last one?
spec fn bit_visited(u: int, m: int, j: int, t: int, l: int, k: int) -> bool {
    u < t || (u == t && (m > l || (m == l && j >= k)))
}

/// Do the positions cover exactly the visited bits?
spec fn locals_upto(
    rounds: Seq<Vec<(u32, u32)>>,
    map: Map<(usize, usize), usize>,
    t: int,
    l: int,
    k: int,
) -> bool {
    &&& forall|u: int, m: int, j: u32|
        #[trigger] is_bit(rounds, u, m, j) && bit_visited(u, m, j as int, t, l, k) ==> map.contains_key(
            (rounds[u]@[m].0 as usize, j as usize),
        ) && map[(rounds[u]@[m].0 as usize, j as usize)] == local_of(rounds, u, m, j as int)
}

/// Do the positions cover the bits of the first threads?
spec fn locals_before(rounds: Seq<Vec<(u32, u32)>>, map: Map<(usize, usize), usize>, t: int) -> bool {
    forall|u: int, m: int, j: u32|
        #[trigger] is_bit(rounds, u, m, j) && u < t ==> map.contains_key((rounds[u]@[m].0 as usize, j as usize))
            && map[(rounds[u]@[m].0 as usize, j as usize)] == local_of(rounds, u, m, j as int)
}

/// Finds the positions of all bits that the threads read.
fn index_reads(rounds: &Vec<Vec<(u32, u32)>>) -> (map: IndexMap<(usize, usize), usize>)
    requires
        rounds@.len() == 256,
        forall|t: int| 0 <= t < 256 ==> bits_taken((#[trigger] rounds@[t])@) <= 32,
        words_once(rounds@),
    ensures
        forall|u: int, m: int, j: u32| #[trigger]
            is_bit(rounds@, u, m, j) ==> gate_view(map).contains_key((rounds@[u]@[m].0 as usize, j as usize))
                && gate_view(map)[(rounds@[u]@[m].0 as usize, j as usize)] == local_of(rounds@, u, m, j as int),
{
    let mut map = gate_new();
    let mut t: usize = 0;
    while t < 256
        invariant
            rounds@.len() == 256,
            forall|t: int| 0 <= t < 256 ==> bits_taken((#[trigger] rounds@[t])@) <= 32,
            words_once(rounds@),
            t <= 256,
            locals_before(rounds@, gate_view(map), t as int),
        decreases 256 - t,
    {
        let n = rounds[t].len();
        let ghost v = rounds@[t as int]@;
        let mut bit_id: usize = 0;
        let mut l: usize = n;
        proof {
            assert(v.subrange(n as int, n as int) =~= Seq::<(u32, u32)>::empty());
            lemma_upto_start(rounds@, gate_view(map), t as int, n as int);
        }
        while l > 0
            invariant
                rounds@.len() == 256,
                forall|t: int| 0 <= t < 256 ==> bits_taken((#[trigger] rounds@[t])@) <= 32,
                words_once(rounds@),
                t < 256,
                v == rounds@[t as int]@,
                n == v.len(),
                l <= n,
                bit_id == bits_from(v, l as int),
                locals_upto(rounds@, gate_view(map), t as int, l - 1, 32),
            decreases l,
        {
            l -= 1;
            let (idx, mask) = rounds[t][l];
            proof {
                lemma_bits_from(v, l as int);
                lemma_bits_fall_start(v, l as int);
                assert(bits_taken(rounds@[t as int]@) <= 32);
            }
            let mut k: u32 = 32;
            while k > 0
                invariant
                    rounds@.len() == 256,
                    forall|t: int| 0 <= t < 256 ==> bits_taken((#[trigger] rounds@[t])@) <= 32,
                    words_once(rounds@),
                    t < 256,
                    v == rounds@[t as int]@,
                    n == v.len(),
                    l < n,
                    (idx, mask) == v[l as int],
                    k <= 32,
                    bit_id == bits_from(v, l + 1) + (ones(mask) - ones_below(mask, k as nat)),
                    bits_from(v, l + 1) + ones(mask) <= 32,
                    locals_upto(rounds@, gate_view(map), t as int, l as int, k as int),
                decreases k,
            {
                let ghost m0 = gate_view(map);
                let ghost k0 = k as int;
                k -= 1;
                if (mask >> k) & 1 != 0 {
                    assert((mask >> k) & 1 == 0 || (mask >> k) & 1 == 1) by (bit_vector);
                    assert(bit_at(mask, k));
                    gate_insert(&mut map, idx as usize, k as usize, t * 32 + bit_id);
                    proof {
                        lemma_ones_grow(mask, (k + 1) as nat, 32);
                        assert(local_of(rounds@, t as int, l as int, k as int) == t * 32 + bit_id);
                        let m1 = gate_view(map);
                        assert forall|u: int, m: int, j: u32| #[trigger]
                            is_bit(rounds@, u, m, j) && bit_visited(
                                u,
                                m,
                                j as int,
                                t as int,
                                l as int,
                                k as int,
                            ) implies m1.contains_key((rounds@[u]@[m].0 as usize, j as usize)) && m1[(
                            rounds@[u]@[m].0 as usize,
                            j as usize,
                        )] == local_of(rounds@, u, m, j as int) by {
                            if u == t && m == l && j == k {
                            } else {
                                assert(bit_visited(u, m, j as int, t as int, l as int, k0));
                                assert(m0.contains_key((rounds@[u]@[m].0 as usize, j as usize)));
                                if rounds@[u]@[m].0 as usize == idx as usize && j as usize == k as usize {
                                    assert(same_word(rounds@, u, m, t as int, l as int));
                                    assert(is_entry(rounds@, t as int, l as int));
                                }
                            }
                        }
                    }
                    bit_id += 1;
                } else {
                    proof {
                        assert(!bit_at(mask, k));
                        assert forall|u: int, m: int, j: u32| #[trigger]
                            is_bit(rounds@, u, m, j) && bit_visited(
                                u,
                                m,
                                j as int,
                                t as int,
                                l as int,
                                k as int,
                            ) implies bit_visited(u, m, j as int, t as int, l as int, k0) by {
                            if u == t && m == l && j == k {
                                assert(bit_at(rounds@[u]@[m].1, j));
                            }
                        }
                    }
                }
            }
            proof {
                assert(ones_below(mask, 0) == 0);
                lemma_upto_next(rounds@, gate_view(map), t as int, l as int);
            }
        }
        proof {
            lemma_upto_thread(rounds@, gate_view(map), t as int);
        }
        t += 1;
    }
    map
}

proof fn lemma_upto_start(rounds: Seq<Vec<(u32, u32)>>, map: Map<(usize, usize), usize>, t: int, n: int)
    requires
        locals_before(rounds, map, t),
        n == rounds[t]@.len(),
        0 <= t < rounds.len(),
    ensures
        locals_upto(rounds, map, t, n - 1, 32),
{
    assert forall|u: int, m: int, j: u32| #[trigger]
        is_bit(rounds, u, m, j) && bit_visited(u, m, j as int, t, n - 1, 32) implies u < t by {}
}

proof fn lemma_upto_next(rounds: Seq<Vec<(u32, u32)>>, map: Map<(usize, usize), usize>, t: int, l: int)
    requires
        locals_upto(rounds, map, t, l, 0),
    ensures
        locals_upto(rounds, map, t, l - 1, 32),
{
    assert forall|u: int, m: int, j: u32| #[trigger]
        is_bit(rounds, u, m, j) && bit_visited(u, m, j as int, t, l - 1, 32) implies bit_visited(
        u,
        m,
        j as int,
        t,
        l,
        0,
    ) by {}
}

proof fn lemma_upto_thread(rounds: Seq<Vec<(u32, u32)>>, map: Map<(usize, usize), usize>, t: int)
    requires
        locals_upto(rounds, map, t, -1, 32),
    ensures
        locals_before(rounds, map, t + 1),
{
    assert forall|u: int, m: int, j: u32| #[trigger] is_bit(rounds, u, m, j) && u < t + 1 implies bit_visited(
        u,
        m,
        j as int,
        t,
        -1,
        32,
    ) by {}
}

/// Does the entry hold the bit at which the pin is found?
pub open spec fn reads_pin(
    im: Map<usize, u32>,
    sm: Map<usize, u32>,
    rounds: Seq<Vec<(u32, u32)>>,
    pin: usize,
    t: int,
    l: int,
    k: u32,
) -> bool {
    is_bit(rounds, t, l, k) && source_of(im, sm, pin) == Some((rounds[t]@[l].0, k))
}

/// Is every pin that the row reads from the state at the position of its bit?
pub open spec fn first_positions(
    aig: AIG,
    row: Seq<usize>,
    im: Map<usize, u32>,
    sm: Map<usize, u32>,
    rounds: Seq<Vec<(u32, u32)>>,
    pos: Map<usize, usize>,
) -> bool {
    &&& forall|pin: usize| #[trigger] pos.contains_key(pin) <==> is_read_pin(aig, row, pin)
    &&& forall|pin: usize| #[trigger]
        pos.contains_key(pin) ==> exists|t: int, l: int, k: u32| #[trigger]
            reads_pin(im, sm, rounds, pin, t, l, k) && pos[pin] == local_of(rounds, t, l, k as int) && pos[pin] < 8192
}

/// Which positions hold what the threads read?
pub open spec fn read_occupancy(rounds: Seq<Vec<(u32, u32)>>) -> Seq<bool> {
    Seq::new(8192, |p: int| p % 32 < bits_taken(rounds[p / 32]@))
}

/// Of the words in ascending order, each is in one entry.
proof fn lemma_words_once(taken: Seq<(u32, u32)>, rounds: Seq<Vec<(u32, u32)>>)
    requires
        forall|i: int, j: int| 0 <= i < j < taken.len() ==> (#[trigger] taken[i]).0 < (#[trigger] taken[j]).0,
        reads_ok(taken, rounds),
    ensures
        words_once(rounds),
{
    assert forall|t: int, l: int, u: int, m: int| #[trigger] same_word(rounds, t, l, u, m) by {
        if is_entry(rounds, t, l) && is_entry(rounds, u, m) && rounds[t]@[l].0 == rounds[u]@[m].0 {
            let a = rounds[t]@[l];
            let b = rounds[u]@[m];
            assert(rounds[t]@.contains(a));
            assert(rounds[u]@.contains(b));
            assert(is_read(rounds, a));
            assert(is_read(rounds, b));
            assert(taken.contains(a));
            assert(taken.contains(b));
            let i = taken.index_of(a);
            let j = taken.index_of(b);
            if i < j {
                assert(taken[i].0 < taken[j].0);
            }
            if j < i {
                assert(taken[j].0 < taken[i].0);
            }
            assert(same_entry(rounds, t, l, u, m));
        }
    }
}

/// Finds the positions at which the first stage finds what it reads.
pub(crate) fn place_first(
    aig: &AIG,
    row: &Vec<usize>,
    input_map: &IndexMap<usize, u32>,
    staged_map: &IndexMap<usize, u32>,
    rounds: &Vec<Vec<(u32, u32)>>,
    Ghost(taken): Ghost<Seq<(u32, u32)>>,
) -> (r: (IndexMap<usize, usize>, Vec<bool>))
    requires
        aig.macros_wf(),
        producers_ok(*aig),
        taken_ok(*aig, row@, pos_view(*input_map), pos_view(*staged_map), taken),
        reads_ok(taken, rounds@),
        forall|pin: usize| #[trigger]
            is_read_pin(*aig, row@, pin) ==> source_of(pos_view(*input_map), pos_view(*staged_map), pin) is Some,
    ensures
        first_positions(
            *aig,
            row@,
            pos_view(*input_map),
            pos_view(*staged_map),
            rounds@,
            map_view(r.0),
        ),
        r.1@ == read_occupancy(rounds@),
{
    let ghost im = pos_view(*input_map);
    let ghost sm = pos_view(*staged_map);
    proof {
        lemma_words_once(taken, rounds@);
    }
    let locals = index_reads(rounds);
    let mut pos = map_new();
    let mut i: usize = 0;
    assert(row@.take(0) =~= Seq::<usize>::empty());
    while i < row.len()
        invariant
            aig.macros_wf(),
            producers_ok(*aig),
            im == pos_view(*input_map),
            sm == pos_view(*staged_map),
            rounds@.len() == 256,
            taken_ok(*aig, row@, im, sm, taken),
            reads_ok(taken, rounds@),
            forall|u: int, m: int, j: u32| #[trigger]
                is_bit(rounds@, u, m, j) ==> gate_view(locals).contains_key((rounds@[u]@[m].0 as usize, j as usize))
                    && gate_view(locals)[(rounds@[u]@[m].0 as usize, j as usize)] == local_of(
                    rounds@,
                    u,
                    m,
                    j as int,
                ),
            forall|pin: usize| #[trigger] is_read_pin(*aig, row@, pin) ==> source_of(im, sm, pin) is Some,
            i <= row@.len(),
            first_positions(*aig, row@.take(i as int), im, sm, rounds@, map_view(pos)),
        decreases row@.len() - i,
    {
        let inp = row[i];
        let ghost r0 = row@.take(i as int);
        let ghost r1 = row@.take(i + 1);
        let ghost p0 = map_view(pos);
        proof {
            assert(r1 =~= r0.push(inp));
            crate::pe::stage::lemma_push_contains(r0, inp);
            assert(row@.contains(inp));
        }
        if inp != usize::MAX && !is_phase_output(aig, inp) {
            proof {
                assert(is_read_pin(*aig, row@, inp));
            }
            if let Some((w, k)) = find_source(input_map, staged_map, inp) {
                let ghost mut t: int = 0;
                let ghost mut l: int = 0;
                proof {
                    let (a, b) = lemma_read_place(*aig, row@, im, sm, taken, rounds@, inp, w, k);
                    t = a;
                    l = b;
                    lemma_local_range(rounds@, t, l, k);
                }
                if let Some(p) = gate_get(&locals, w as usize, k as usize) {
                    let _ = map_insert(&mut pos, inp, p);
                    proof {
                        assert(reads_pin(im, sm, rounds@, inp, t, l, k));
                        assert(p == local_of(rounds@, t, l, k as int));
                    }
                }
            }
        }
        proof {
            let p1 = map_view(pos);
            assert forall|pin: usize| #[trigger] p1.contains_key(pin) <==> is_read_pin(*aig, r1, pin) by {
                assert(p0.contains_key(pin) <==> is_read_pin(*aig, r0, pin));
            }
            assert forall|pin: usize| #[trigger] p1.contains_key(pin) implies exists|t: int, l: int, k: u32|
             #[trigger]
                reads_pin(im, sm, rounds@, pin, t, l, k) && p1[pin] == local_of(rounds@, t, l, k as int) && p1[pin]
                    < 8192 by {
                if pin != inp || p0 == p1 {
                    assert(p0.contains_key(pin));
                    let (t, l, k) = choose|t: int, l: int, k: u32| #[trigger]
                        reads_pin(im, sm, rounds@, pin, t, l, k) && p0[pin] == local_of(rounds@, t, l, k as int)
                            && p0[pin] < 8192;
                    assert(reads_pin(im, sm, rounds@, pin, t, l, k));
                }
            }
        }
        i += 1;
    }
    assert(row@.take(row@.len() as int) =~= row@);
    let mut occ: Vec<bool> = Vec::new();
    let mut t: usize = 0;
    while t < 256
        invariant
            rounds@.len() == 256,
            reads_ok(taken, rounds@),
            t <= 256,
            occ@ == read_occupancy(rounds@).take(32 * t),
        decreases 256 - t,
    {
        let n = rounds[t].len();
        let ghost v = rounds@[t as int]@;
        let mut bits: usize = 0;
        let mut l: usize = 0;
        proof {
            assert(v.take(0) =~= Seq::<(u32, u32)>::empty());
        }
        while l < n
            invariant
                t < 256,
                rounds@.len() == 256,
                v == rounds@[t as int]@,
                n == v.len(),
                l <= n,
                bits_taken(v) <= 32,
                bits == bits_taken(v.take(l as int)),
                bits <= 32,
            decreases n - l,
        {
            proof {
                assert(v.take(l + 1).drop_last() =~= v.take(l as int));
                lemma_bits_prefix(v, l + 1);
            }
            bits += count_ones(rounds[t][l].1) as usize;
            l += 1;
        }
        assert(v.take(n as int) =~= v);
        let mut b: usize = 0;
        let ghost o0 = occ@;
        while b < 32
            invariant
                t < 256,
                b <= 32,
                bits == bits_taken(rounds@[t as int]@),
                o0 == read_occupancy(rounds@).take(32 * t),
                occ@ == read_occupancy(rounds@).take(32 * t + b),
            decreases 32 - b,
        {
            occ.push(b < bits);
            assert(occ@ =~= read_occupancy(rounds@).take(32 * t + b + 1));
            b += 1;
        }
        t += 1;
    }
    assert(read_occupancy(rounds@).take(8192) =~= read_occupancy(rounds@));
    (pos, occ)
}

proof fn lemma_bits_prefix(v: Seq<(u32, u32)>, l: int)
    requires
        0 <= l <= v.len(),
    ensures
        bits_taken(v.take(l)) <= bits_taken(v),
    decreases v.len() - l,
{
    if l < v.len() {
        assert(v.take(l + 1).drop_last() =~= v.take(l));
        lemma_bits_prefix(v, l + 1);
    } else {
        assert(v.take(l) =~= v);
    }
}

/// A bit that is needed is read by some thread.
proof fn lemma_read_place(
    aig: AIG,
    row: Seq<usize>,
    im: Map<usize, u32>,
    sm: Map<usize, u32>,
    taken: Seq<(u32, u32)>,
    rounds: Seq<Vec<(u32, u32)>>,
    pin: usize,
    w: u32,
    k: u32,
) -> (r: (int, int))
    requires
        taken_ok(aig, row, im, sm, taken),
        reads_ok(taken, rounds),
        is_read_pin(aig, row, pin),
        source_of(im, sm, pin) == Some((w, k)),
        k < 32,
    ensures
        is_bit(rounds, r.0, r.1, k),
        rounds[r.0]@[r.1].0 == w,
{
    assert(is_needed_bit(aig, row, im, sm, w, k));
    let i = choose|i: int| 0 <= i < taken.len() && (#[trigger] taken[i]).0 == w;
    assert(bit_at(taken[i].1, k));
    let e = taken[i];
    assert(taken.contains(e));
    assert(is_read(rounds, e));
    let t = choose|t: int| 0 <= t < rounds.len() && (#[trigger] rounds[t])@.contains(e);
    let l = rounds[t]@.index_of(e);
    assert(is_entry(rounds, t, l));
    (t, l)
}

} // verus!
