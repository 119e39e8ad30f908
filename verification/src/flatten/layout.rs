//! Where the results of boomerang stages lie.

use crate::collections::{map_insert, map_new, map_view};
use crate::pe::grid::{cell, is_slot, shaped, width};
use crate::pe::rounds::{count_write_outs, written_in};
use crate::pe::stage::{word_of, BoomerangStage};
use indexmap::IndexMap;
use vstd::prelude::*;

verus! {

/// The rows of a hierarchy from the last one down to row `n`, behind one slot
/// that holds nothing.
pub open spec fn after_rows(hier: Seq<Vec<usize>>, n: int) -> Seq<usize>
    decreases 14 - n,
{
    if n > 13 {
        seq![usize::MAX]
    } else {
        after_rows(hier, n + 1) + hier[n]@
    }
}

/// What a stage leaves behind, by bit position.
pub open spec fn after_stage(hier: Seq<Vec<usize>>) -> Seq<usize> {
    after_rows(hier, 1)
}

/// Does the slot at a position, which is in row `n` or a later one, hold the
/// pin?
pub open spec fn slot_at(hier: Seq<Vec<usize>>, n: int, p: int, v: usize) -> bool {
    exists|h: int, j: int| n <= h && is_slot(h, j) && p == width(h) + j && #[trigger] cell(hier, h, j) == v
}

/// Slot `j` of row `h` is at position `width(h) + j`.
pub(crate) proof fn lemma_after_rows(hier: Seq<Vec<usize>>, n: int)
    requires
        shaped(hier),
        1 <= n <= 14,
    ensures
        after_rows(hier, n).len() == (if n > 13 {
            1
        } else {
            2 * width(n)
        }),
        after_rows(hier, n)[0] == usize::MAX,
        forall|h: int, j: int|
            n <= h && #[trigger] is_slot(h, j) ==> after_rows(hier, n)[width(h) + j] == cell(hier, h, j),
        forall|p: int|
            1 <= p < after_rows(hier, n).len() ==> slot_at(hier, n, p, #[trigger] after_rows(hier, n)[p]),
    decreases 14 - n,
{
    if n <= 13 {
        lemma_after_rows(hier, n + 1);
        let rest = after_rows(hier, n + 1);
        let all = after_rows(hier, n);
        assert(hier[n]@.len() == width(n));
        assert(rest.len() == width(n));
        assert forall|h: int, j: int| n <= h && #[trigger] is_slot(h, j) implies all[width(h) + j] == cell(hier, h,
            j) by {
            if h > n {
                assert(rest[width(h) + j] == cell(hier, h, j));
                lemma_width_falls(n, h);
            }
        }
        assert forall|p: int| 1 <= p < all.len() implies slot_at(hier, n, p, #[trigger] all[p]) by {
            if p < rest.len() {
                assert(rest[p] == all[p]);
                assert(slot_at(hier, n + 1, p, rest[p]));
                let (h, j) = choose|h: int, j: int|
                    n + 1 <= h && is_slot(h, j) && p == width(h) + j && rest[p] == #[trigger] cell(hier, h, j);
                assert(cell(hier, h, j) == all[p]);
            } else {
                let j = p - width(n);
                assert(is_slot(n, j));
                assert(cell(hier, n, j) == all[p]);
            }
        }
    }
}

proof fn lemma_width_falls(n: int, h: int)
    requires
        0 <= n < h <= 13,
    ensures
        2 * width(h) <= width(n),
    decreases h - n,
{
    if h > n + 1 {
        lemma_width_falls(n, h - 1);
    }
}

/// The bits of the first `n` words that a stage writes out.
pub open spec fn stage_outs(stage: BoomerangStage, n: nat) -> Seq<usize>
    decreases n,
{
    if n == 0 {
        Seq::empty()
    } else {
        let w = stage.write_outs@[n - 1] as int;
        stage_outs(stage, (n - 1) as nat) + after_stage(stage.hier@).subrange(w * 32, w * 32 + 32)
    }
}

/// The bits of all words that some stages write out.
pub open spec fn all_outs(stages: Seq<BoomerangStage>) -> Seq<usize>
    decreases stages.len(),
{
    if stages.len() == 0 {
        Seq::empty()
    } else {
        all_outs(stages.drop_last()) + stage_outs(stages.last(), stages.last().write_outs@.len())
    }
}

/// A stage with the right rows, whose words exist.
pub open spec fn stage_shaped(stage: BoomerangStage) -> bool {
    shaped(stage.hier@) && forall|i: int|
        0 <= i < stage.write_outs@.len() ==> #[trigger] stage.write_outs@[i] < 256
}

/// Every word has 32 bits.
pub(crate) proof fn lemma_stage_outs_len(stage: BoomerangStage, n: nat)
    requires
        stage_shaped(stage),
        n <= stage.write_outs@.len(),
    ensures
        stage_outs(stage, n).len() == 32 * n,
    decreases n,
{
    if n > 0 {
        lemma_stage_outs_len(stage, (n - 1) as nat);
        lemma_after_rows(stage.hier@, 1);
        assert(stage.write_outs@[n - 1] < 256);
    }
}

/// Every word has 32 bits.
pub(crate) proof fn lemma_all_outs_len(stages: Seq<BoomerangStage>)
    requires
        forall|k: int| 0 <= k < stages.len() ==> stage_shaped(#[trigger] stages[k]),
    ensures
        all_outs(stages).len() == 32 * count_write_outs(stages),
    decreases stages.len(),
{
    if stages.len() > 0 {
        assert forall|k: int| 0 <= k < stages.drop_last().len() implies stage_shaped(
            #[trigger] stages.drop_last()[k],
        ) by {
            assert(stage_shaped(stages[k]));
        }
        lemma_all_outs_len(stages.drop_last());
        assert(stage_shaped(stages[stages.len() - 1]));
        lemma_stage_outs_len(stages.last(), stages.last().write_outs@.len());
    }
}

/// A pin in a word that a stage writes out is among its bits.
proof fn lemma_written_bits(stage: BoomerangStage, n: nat, i: int, v: usize, h: int, j: int)
    requires
        stage_shaped(stage),
        0 <= i < n <= stage.write_outs@.len(),
        1 <= h,
        is_slot(h, j),
        cell(stage.hier@, h, j) == v,
        stage.write_outs@[i] == word_of(h, j),
    ensures
        stage_outs(stage, n).contains(v),
    decreases n,
{
    let rest = stage_outs(stage, (n - 1) as nat);
    let all = stage_outs(stage, n);
    lemma_stage_outs_len(stage, (n - 1) as nat);
    lemma_stage_outs_len(stage, n);
    if i < n - 1 {
        lemma_written_bits(stage, (n - 1) as nat, i, v, h, j);
        assert(all[rest.index_of(v)] == v);
    } else {
        lemma_after_rows(stage.hier@, 1);
        let after = after_stage(stage.hier@);
        let p = width(h) + j;
        assert(after[p] == v);
        let w = stage.write_outs@[n - 1] as int;
        assert(p < 8192);
        assert(w == p / 32);
        assert(all[rest.len() + p % 32] == after.subrange(w * 32, w * 32 + 32)[p % 32]);
    }
}

/// What some stage writes out is among the bits of all words.
pub(crate) proof fn lemma_written_outs(stages: Seq<BoomerangStage>, v: usize)
    requires
        forall|k: int| 0 <= k < stages.len() ==> stage_shaped(#[trigger] stages[k]),
        written_in(stages, v),
    ensures
        all_outs(stages).contains(v),
    decreases stages.len(),
{
    let k = choose|k: int| 0 <= k < stages.len() && (#[trigger] stages[k]).writes(v);
    let rest = stages.drop_last();
    let last = stages.last();
    let bits = stage_outs(last, last.write_outs@.len());
    assert(stage_shaped(stages[stages.len() - 1]));
    if k < stages.len() - 1 {
        assert forall|k: int| 0 <= k < rest.len() implies stage_shaped(#[trigger] rest[k]) by {
            assert(stage_shaped(stages[k]));
        }
        assert(rest[k].writes(v));
        lemma_written_outs(rest, v);
        assert(all_outs(stages)[all_outs(rest).index_of(v)] == v);
    } else {
        let (h, j) = choose|h: int, j: int|
            1 <= h && is_slot(h, j) && #[trigger] cell(last.hier@, h, j) == v && last.write_outs@.contains(
                word_of(h, j),
            );
        let i = last.write_outs@.index_of(word_of(h, j));
        lemma_written_bits(last, last.write_outs@.len(), i, v, h, j);
        assert(all_outs(stages)[all_outs(rest).len() + bits.index_of(v)] == v);
    }
}

/// What a stage leaves behind, by bit position.
pub fn make_after(hier: &Vec<Vec<usize>>) -> (after: Vec<usize>)
    requires
        shaped(hier@),
    ensures
        after@ == after_stage(hier@),
        after@.len() == 8192,
{
    let mut after: Vec<usize> = Vec::new();
    after.push(usize::MAX);
    let mut i: usize = 13;
    assert(after@ =~= after_rows(hier@, 14));
    while i >= 1
        invariant
            shaped(hier@),
            i <= 13,
            after@ == after_rows(hier@, i + 1),
        decreases i,
    {
        assert(hier@[i as int]@.len() == width(i as int));
        after.extend_from_slice(hier[i].as_slice());
        assert(after@ =~= after_rows(hier@, i as int));
        i -= 1;
    }
    proof {
        lemma_after_rows(hier@, 1);
    }
    after
}

/// Is every pin in the sequence found at its last position?
pub open spec fn indexed_last(s: Seq<usize>, map: Map<usize, usize>) -> bool {
    &&& forall|pin: usize| #[trigger] map.contains_key(pin) <==> pin != usize::MAX && s.contains(pin)
    &&& forall|pin: usize| #[trigger]
        map.contains_key(pin) ==> map[pin] < s.len() && s[map[pin] as int] == pin && forall|j: int|
            map[pin] < j < s.len() ==> s[j] != pin
}

/// Finds the last position of every pin in a sequence.
pub fn index_pins(s: &Vec<usize>) -> (map: IndexMap<usize, usize>)
    ensures
        indexed_last(s@, map_view(map)),
{
    let mut map = map_new();
    let mut i: usize = 0;
    while i < s.len()
        invariant
            i <= s@.len(),
            indexed_last(s@.take(i as int), map_view(map)),
        decreases s@.len() - i,
    {
        let pin = s[i];
        let ghost m0 = map_view(map);
        let ghost t0 = s@.take(i as int);
        let ghost t1 = s@.take(i + 1);
        proof {
            assert(t1 =~= t0.push(pin));
            crate::pe::stage::lemma_push_contains(t0, pin);
        }
        if pin != usize::MAX {
            let _ = map_insert(&mut map, pin, i);
        }
        proof {
            let m1 = map_view(map);
            assert forall|p: usize| #[trigger] m1.contains_key(p) implies m1[p] < t1.len() && t1[m1[p] as int] == p
                && forall|j: int| m1[p] < j < t1.len() ==> t1[j] != p by {
                if p != pin || pin == usize::MAX {
                    assert(m0.contains_key(p));
                    assert(t0[m0[p] as int] == p);
                    assert forall|j: int| m1[p] < j < t1.len() implies t1[j] != p by {
                        if j < i {
                            assert(t0[j] != p);
                        }
                    }
                }
            }
        }
        i += 1;
    }
    assert(s@.take(s@.len() as int) =~= s@);
    map
}

} // verus!
