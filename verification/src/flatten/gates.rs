//! The script sections of boomerang stages.

use super::bits::{
    bit_at, flag_at, has_flags, interleaved, lemma_words_with, packed, push_interleaved, push_packed, set_flag,
    words_with,
};
use super::error::FlattenError;
use crate::aig::{respects_gates, DriverType, AIG};
use crate::collections::{map_get, map_view};
use crate::pe::grid::{cell, is_slot, shaped, vacant, width};
use indexmap::IndexMap;
use vstd::prelude::*;

verus! {

/// The row of the slot at a position.
pub open spec fn row_of(p: int) -> int {
    if p >= 4096 {
        1
    } else if p >= 2048 {
        2
    } else if p >= 1024 {
        3
    } else if p >= 512 {
        4
    } else if p >= 256 {
        5
    } else if p >= 128 {
        6
    } else if p >= 64 {
        7
    } else if p >= 32 {
        8
    } else if p >= 16 {
        9
    } else if p >= 8 {
        10
    } else if p >= 4 {
        11
    } else if p >= 2 {
        12
    } else {
        13
    }
}

/// Slot `j` of row `h` is the slot at position `width(h) + j`.
pub(crate) proof fn lemma_row_of(h: int, j: int)
    requires
        1 <= h,
        is_slot(h, j),
    ensures
        row_of(width(h) + j) == h,
        1 <= width(h) + j < 8192,
{
}

/// Does the slot at a position pass on what the row before it holds?
pub open spec fn passes_at(hier: Seq<Vec<usize>>, p: int) -> bool {
    let h = row_of(p);
    let j = p - width(h);
    1 <= p < 8192 && !vacant(hier, h, j) && cell(hier, h - 1, j) == cell(hier, h, j)
}

/// Does the slot at a position conjoin with its first operand inverted?
pub open spec fn inverts_first(aig: AIG, hier: Seq<Vec<usize>>, p: int) -> bool {
    let h = row_of(p);
    let j = p - width(h);
    1 <= p < 8192 && !vacant(hier, h, j) && !passes_at(hier, p) && (aig.drivers@[cell(hier, h, j) as int] matches
        DriverType::AndGate(a, b) && a % 2 == 1)
}

/// Does the slot at a position conjoin with its second operand inverted?
pub open spec fn inverts_second(aig: AIG, hier: Seq<Vec<usize>>, p: int) -> bool {
    let h = row_of(p);
    let j = p - width(h);
    1 <= p < 8192 && !vacant(hier, h, j) && !passes_at(hier, p) && (aig.drivers@[cell(hier, h, j) as int] matches
        DriverType::AndGate(a, b) && b % 2 == 1)
}

/// Is a slot vacant, passed on, or the conjunction of its feeding slots?
pub open spec fn slot_fed(aig: AIG, hier: Seq<Vec<usize>>, h: int, j: int) -> bool {
    let v = cell(hier, h, j);
    ||| vacant(hier, h, j)
    ||| cell(hier, h - 1, j) == v
    ||| v < aig.drivers@.len() && (aig.drivers@[v as int] matches DriverType::AndGate(a, b) && cell(hier, h - 1, j) == a
        / 2 && cell(hier, h - 1, j + width(h)) == b / 2)
}

/// Are all slots behind the first row fed?
pub open spec fn all_fed(aig: AIG, hier: Seq<Vec<usize>>) -> bool {
    forall|h: int, j: int| 1 <= h && #[trigger] is_slot(h, j) ==> slot_fed(aig, hier, h, j)
}

/// The flags of a stage: three words for each thread.
pub open spec fn stage_flags(aig: AIG, hier: Seq<Vec<usize>>) -> Seq<u32> {
    interleaved(
        words_with(|p: int| inverts_first(aig, hier, p)),
        words_with(|p: int| inverts_second(aig, hier, p)),
        words_with(|p: int| passes_at(hier, p)),
    )
}

/// The permutation that brings pins from their positions to the first row.
pub open spec fn stage_perm(row: Seq<usize>, pos: Map<usize, usize>) -> Seq<u16> {
    Seq::new(
        8192,
        |i: int|
            if row[i] == usize::MAX {
                0
            } else {
                pos[row[i]] as u16
            },
    )
}

/// The words of a stage.
pub open spec fn stage_words(aig: AIG, hier: Seq<Vec<usize>>, pos: Map<usize, usize>) -> Seq<u32> {
    packed(stage_perm(hier[0]@, pos)) + stage_flags(aig, hier)
}

/// Are all pins of the first row there?
pub open spec fn row_there(row: Seq<usize>, pos: Map<usize, usize>) -> bool {
    forall|i: int| 0 <= i < row.len() && #[trigger] row[i] != usize::MAX ==> pos.contains_key(row[i])
}

/// Has the position been visited when slot `j` of row `h` is next?
spec fn visited(p: int, h: int, j: int) -> bool {
    1 <= p < 8192 && (row_of(p) < h || (row_of(p) == h && p < width(h) + j))
}

/// Computes the flags of a stage.
fn push_flags(script: &mut Vec<u32>, aig: &AIG, hier: &Vec<Vec<usize>>) -> (r: Result<(), FlattenError>)
    requires
        shaped(hier@),
    ensures
        r is Ok <==> all_fed(*aig, hier@),
        r is Ok ==> final(script)@ == old(script)@ + stage_flags(*aig, hier@),
        r matches Err(e) ==> e is Malformed,
{
    let mut xora: Vec<u32> = vec![0u32; 256];
    let mut xorb: Vec<u32> = vec![0u32; 256];
    let mut orb: Vec<u32> = vec![0u32; 256];
    proof {
        assert forall|k: u32| k < 32 implies !#[trigger] bit_at(0u32, k) by {
            assert(k < 32 ==> (0u32 >> k) & 1 == 0) by (bit_vector);
        }
        assert forall|p: int| 0 <= p < 8192 implies !#[trigger] flag_at(xora@, p) by {}
        assert forall|p: int| 0 <= p < 8192 implies !#[trigger] flag_at(xorb@, p) by {}
        assert forall|p: int| 0 <= p < 8192 implies !#[trigger] flag_at(orb@, p) by {}
    }
    let mut hi: usize = 1;
    while hi < 14
        invariant
            shaped(hier@),
            1 <= hi <= 14,
            xora@.len() == 256,
            xorb@.len() == 256,
            orb@.len() == 256,
            forall|h: int, j: int| 1 <= h < hi && #[trigger] is_slot(h, j) ==> slot_fed(*aig, hier@, h, j),
            forall|p: int|
                0 <= p < 8192 ==> #[trigger] flag_at(xora@, p) == (visited(p, hi as int, 0) && inverts_first(
                    *aig,
                    hier@,
                    p,
                )),
            forall|p: int|
                0 <= p < 8192 ==> #[trigger] flag_at(xorb@, p) == (visited(p, hi as int, 0) && inverts_second(
                    *aig,
                    hier@,
                    p,
                )),
            forall|p: int|
                0 <= p < 8192 ==> #[trigger] flag_at(orb@, p) == (visited(p, hi as int, 0) && passes_at(hier@, p)),
        decreases 14 - hi,
    {
        let hi_len = hier[hi].len();
        assert(hier@[hi as int]@.len() == width(hi as int));
        assert(hier@[hi - 1]@.len() == width(hi - 1));
        let mut j: usize = 0;
        while j < hi_len
            invariant
                shaped(hier@),
                1 <= hi <= 13,
                hi_len == width(hi as int),
                hier@[hi as int]@.len() == hi_len,
                hier@[hi - 1]@.len() == 2 * hi_len,
                j <= hi_len,
                xora@.len() == 256,
                xorb@.len() == 256,
                orb@.len() == 256,
                forall|h: int, j: int| 1 <= h < hi && #[trigger] is_slot(h, j) ==> slot_fed(*aig, hier@, h, j),
                forall|k: int| 0 <= k < j ==> #[trigger] slot_fed(*aig, hier@, hi as int, k),
                forall|p: int|
                    0 <= p < 8192 ==> #[trigger] flag_at(xora@, p) == (visited(p, hi as int, j as int)
                        && inverts_first(*aig, hier@, p)),
                forall|p: int|
                    0 <= p < 8192 ==> #[trigger] flag_at(xorb@, p) == (visited(p, hi as int, j as int)
                        && inverts_second(*aig, hier@, p)),
                forall|p: int|
                    0 <= p < 8192 ==> #[trigger] flag_at(orb@, p) == (visited(p, hi as int, j as int) && passes_at(
                        hier@,
                        p,
                    )),
            decreases hi_len - j,
        {
            let out = hier[hi][j];
            let a = hier[hi - 1][j];
            let b = hier[hi - 1][j + hi_len];
            let at: usize = hi_len + j;
            proof {
                assert(is_slot(hi as int, j as int));
                lemma_row_of(hi as int, j as int);
                assert(cell(hier@, hi as int, j as int) == out);
                assert(cell(hier@, hi - 1, j as int) == a);
                assert(cell(hier@, hi - 1, j + width(hi as int)) == b);
                assert forall|p: int| 0 <= p < 8192 implies visited(p, hi as int, j + 1) == (#[trigger] visited(
                    p,
                    hi as int,
                    j as int,
                ) || p == at) by {}
            }
            if out != usize::MAX {
                if out == a {
                    set_flag(&mut orb, at, 1);
                } else {
                    if out >= aig.drivers.len() {
                        assert(!slot_fed(*aig, hier@, hi as int, j as int));
                        return Err(FlattenError::Malformed);
                    }
                    match aig.drivers[out] {
                        DriverType::AndGate(a_iv, b_iv) => {
                            if a_iv / 2 != a || b_iv / 2 != b {
                                assert(!slot_fed(*aig, hier@, hi as int, j as int));
                                return Err(FlattenError::Malformed);
                            }
                            if a_iv % 2 != 0 {
                                set_flag(&mut xora, at, 1);
                            }
                            if b_iv % 2 != 0 {
                                set_flag(&mut xorb, at, 1);
                            }
                        },
                        _ => {
                            assert(!slot_fed(*aig, hier@, hi as int, j as int));
                            return Err(FlattenError::Malformed);
                        },
                    }
                }
            }
            assert(slot_fed(*aig, hier@, hi as int, j as int));
            j += 1;
        }
        proof {
            assert forall|p: int| 0 <= p < 8192 implies visited(p, hi + 1, 0) == #[trigger] visited(
                p,
                hi as int,
                hi_len as int,
            ) by {}
            assert forall|h: int, j: int| 1 <= h < hi + 1 && #[trigger] is_slot(h, j) implies slot_fed(
                *aig,
                hier@,
                h,
                j,
            ) by {
                if h == hi {
                    assert(slot_fed(*aig, hier@, hi as int, j));
                }
            }
            assert forall|p: int| 0 <= p < 8192 implies #[trigger] flag_at(xora@, p) == (visited(p, hi + 1, 0)
                && inverts_first(*aig, hier@, p)) by {
                assert(visited(p, hi as int, hi_len as int) == visited(p, hi + 1, 0));
            }
            assert forall|p: int| 0 <= p < 8192 implies #[trigger] flag_at(xorb@, p) == (visited(p, hi + 1, 0)
                && inverts_second(*aig, hier@, p)) by {
                assert(visited(p, hi as int, hi_len as int) == visited(p, hi + 1, 0));
            }
            assert forall|p: int| 0 <= p < 8192 implies #[trigger] flag_at(orb@, p) == (visited(p, hi + 1, 0)
                && passes_at(hier@, p)) by {
                assert(visited(p, hi as int, hi_len as int) == visited(p, hi + 1, 0));
            }
        }
        hi += 1;
    }
    proof {
        let fa = |p: int| inverts_first(*aig, hier@, p);
        let fb = |p: int| inverts_second(*aig, hier@, p);
        let fo = |p: int| passes_at(hier@, p);
        assert forall|p: int| 0 <= p < 8192 implies visited(p, 14, 0) == (p >= 1) by {}
        assert(has_flags(xora@, fa));
        assert(has_flags(xorb@, fb));
        assert(has_flags(orb@, fo));
        lemma_words_with(xora@, fa);
        lemma_words_with(xorb@, fb);
        lemma_words_with(orb@, fo);
    }
    push_interleaved(script, &xora, &xorb, &orb);
    Ok(())
}

/// Why can a stage not be emitted: because a slot is not fed, or because a pin of
/// its first row is not there?
pub open spec fn section_fault(
    aig: AIG,
    hier: Seq<Vec<usize>>,
    pos: Map<usize, usize>,
    stage: usize,
    e: FlattenError,
) -> bool {
    match e {
        FlattenError::Malformed => !all_fed(aig, hier),
        FlattenError::Missing(at, pin) => at == stage && pin != usize::MAX && hier[0]@.contains(pin)
            && !pos.contains_key(pin),
        _ => false,
    }
}

/// Appends the words of a stage.
pub fn push_stage(
    script: &mut Vec<u32>,
    aig: &AIG,
    hier: &Vec<Vec<usize>>,
    pos: &IndexMap<usize, usize>,
    stage: usize,
) -> (r: Result<(), FlattenError>)
    requires
        shaped(hier@),
    ensures
        r is Ok <==> all_fed(*aig, hier@) && row_there(hier@[0]@, map_view(*pos)),
        r is Ok ==> final(script)@ == old(script)@ + stage_words(*aig, hier@, map_view(*pos)),
        r matches Err(e) ==> section_fault(*aig, hier@, map_view(*pos), stage, e),
{
    let ghost s0 = script@;
    assert(hier@[0]@.len() == width(0));
    let row = &hier[0];
    let mut perm: Vec<u16> = Vec::new();
    let mut i: usize = 0;
    while i < 8192
        invariant
            row@.len() == 8192,
            row@ == hier@[0]@,
            i <= 8192,
            perm@.len() == i,
            forall|k: int| 0 <= k < i && #[trigger] row@[k] != usize::MAX ==> map_view(*pos).contains_key(row@[k]),
            forall|k: int|
                0 <= k < i ==> #[trigger] perm@[k] == (if row@[k] == usize::MAX {
                    0
                } else {
                    map_view(*pos)[row@[k]] as u16
                }),
        decreases 8192 - i,
    {
        let pin = row[i];
        if pin == usize::MAX {
            perm.push(0);
        } else {
            match map_get(pos, pin) {
                Some(p) => {
                    perm.push(p as u16);
                },
                None => {
                    assert(!row_there(hier@[0]@, map_view(*pos)));
                    assert(hier@[0]@[i as int] == pin);
                    return Err(FlattenError::Missing(stage, pin));
                },
            }
        }
        i += 1;
    }
    assert(perm@ =~= stage_perm(hier@[0]@, map_view(*pos)));
    push_packed(script, &perm);
    let r = push_flags(script, aig, hier);
    assert(r is Ok ==> script@ =~= s0 + stage_words(*aig, hier@, map_view(*pos)));
    r
}

/// What a thread computes for a position from its two operands, given its
/// flags.
pub open spec fn eval_slot(a: bool, b: bool, xora: bool, xorb: bool, orb: bool) -> bool {
    (a != xora) && ((b != xorb) || orb)
}

/// The flags make a stage compute its pins: if the slots that feed a slot hold
/// the values of their pins, then what is computed from them is the value of
/// the slot's pin.
pub proof fn law_flags_compute(aig: AIG, hier: Seq<Vec<usize>>, val: spec_fn(usize) -> bool, h: int, j: int, x: bool)
    requires
        respects_gates(aig, val),
        1 <= h,
        is_slot(h, j),
        !vacant(hier, h, j),
        slot_fed(aig, hier, h, j),
        passes_at(hier, width(h) + j) || x == val(cell(hier, h - 1, j + width(h))),
    ensures
        eval_slot(
            val(cell(hier, h - 1, j)),
            x,
            inverts_first(aig, hier, width(h) + j),
            inverts_second(aig, hier, width(h) + j),
            passes_at(hier, width(h) + j),
        ) == val(cell(hier, h, j)),
{
    lemma_row_of(h, j);
    let v = cell(hier, h, j);
    if cell(hier, h - 1, j) != v {
        assert(v < aig.drivers@.len());
        assert(aig.drivers@[v as int] matches DriverType::AndGate(a, b));
    }
}

} // verus!
