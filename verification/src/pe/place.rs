//! Placing pins into the boomerang hierarchy and taking them out again.

use super::cone::Cone;
use super::grid::{
    below, cell, counted, fed, is_slot, lemma_below_feeds, lemma_below_split, lemma_rows_count, lemma_rows_same,
    lemma_row_update, lemma_rows_update, lemma_settled_vacant, put, row_count, rows_count, same_elsewhere,
    settled_below, shaped, vacant, vacant_below, width,
};
use crate::aig::{DriverType, AIG};
use crate::collections::{map_get, map_insert, map_swap_remove, map_view};
use indexmap::IndexMap;
use vstd::prelude::*;

verus! {

/// Is a slot vacant, or does it hold a pin of the cone that is given in the
/// first row and made of the row before in others?
pub open spec fn slot_ok(
    aig: AIG,
    done: Set<usize>,
    cone: Cone,
    hier: Seq<Vec<usize>>,
    h: int,
    j: int,
) -> bool {
    !vacant(hier, h, j) ==> {
        let v = cell(hier, h, j);
        &&& cone.has(v)
        &&& cone.lvl(v) <= h
        &&& h >= 1 ==> fed(aig, hier, h, j)
    }
}

/// Are all slots below `(top, i)` right?
pub open spec fn ok_below(
    aig: AIG,
    done: Set<usize>,
    cone: Cone,
    hier: Seq<Vec<usize>>,
    top: int,
    i: int,
) -> bool {
    forall|h: int, j: int|
        is_slot(h, j) && #[trigger] below(top, i, h, j) ==> slot_ok(aig, done, cone, hier, h, j)
}

/// Counting after a pin came into a vacant slot.
proof fn lemma_counted_put(
    a: Seq<Vec<usize>>,
    b: Seq<Vec<usize>>,
    h: int,
    j: int,
    nd: usize,
    before: Map<usize, usize>,
    after: Map<usize, usize>,
)
    requires
        shaped(a),
        shaped(b),
        is_slot(h, j),
        1 <= h,
        nd != usize::MAX,
        vacant(a, h, j),
        forall|k: int| 0 <= k <= 13 && k != h ==> (#[trigger] b[k])@ == a[k]@,
        b[h]@ == a[h]@.update(j, nd),
        counted(a, before),
        after == before.insert(nd, (rows_count(a, 13, nd) + 1) as usize),
    ensures
        counted(b, after),
{
    lemma_rows_count(a, 13, nd);
    assert forall|v: usize| v != usize::MAX implies (#[trigger] after.contains_key(v) <==> rows_count(b, 13,
        v) > 0) by {
        lemma_rows_update(a, b, h, j, nd, 13, v);
        assert(before.contains_key(v) <==> rows_count(a, 13, v) > 0);
    }
    assert forall|v: usize| #[trigger] after.contains_key(v) implies after[v] == rows_count(b, 13, v) by {
        lemma_rows_update(a, b, h, j, nd, 13, v);
        if v != nd {
            assert(before.contains_key(v));
        }
    }
}

/// Counting after a slot became vacant.
proof fn lemma_counted_clear(
    a: Seq<Vec<usize>>,
    b: Seq<Vec<usize>>,
    h: int,
    j: int,
    before: Map<usize, usize>,
    after: Map<usize, usize>,
)
    requires
        shaped(a),
        shaped(b),
        is_slot(h, j),
        1 <= h,
        !vacant(a, h, j),
        forall|k: int| 0 <= k <= 13 && k != h ==> (#[trigger] b[k])@ == a[k]@,
        b[h]@ == a[h]@.update(j, usize::MAX),
        counted(a, before),
        after == (if rows_count(a, 13, cell(a, h, j)) == 1 {
            before.remove(cell(a, h, j))
        } else {
            before.insert(cell(a, h, j), (rows_count(a, 13, cell(a, h, j)) - 1) as usize)
        }),
    ensures
        counted(b, after),
{
    let nd = cell(a, h, j);
    lemma_rows_count(a, 13, nd);
    assert(rows_count(a, 13, nd) > 0);
    assert forall|v: usize| v != usize::MAX implies (#[trigger] after.contains_key(v) <==> rows_count(b, 13,
        v) > 0) by {
        lemma_rows_update(a, b, h, j, usize::MAX, 13, v);
        assert(before.contains_key(v) <==> rows_count(a, 13, v) > 0);
    }
    assert forall|v: usize| #[trigger] after.contains_key(v) implies after[v] == rows_count(b, 13, v) by {
        lemma_rows_update(a, b, h, j, usize::MAX, 13, v);
        if v != nd {
            assert(before.contains_key(v));
        }
    }
}

/// Counting looks at the contents behind the first row only.
pub(crate) proof fn lemma_counted_same(a: Seq<Vec<usize>>, b: Seq<Vec<usize>>, count: Map<usize, usize>)
    requires
        a.len() == 14,
        b.len() == 14,
        counted(a, count),
        forall|h: int| 1 <= h <= 13 ==> (#[trigger] a[h])@ == b[h]@,
    ensures
        counted(b, count),
{
    assert forall|v: usize| v != usize::MAX implies (#[trigger] count.contains_key(v) <==> rows_count(b, 13,
        v) > 0) by {
        lemma_rows_same(a, b, 13, v);
    }
    assert forall|v: usize| #[trigger] count.contains_key(v) implies count[v] == rows_count(b, 13, v) by {
        lemma_rows_same(a, b, 13, v);
    }
}

/// The number of slots that a slot of the given row is made of, without those of
/// the first row.
pub open spec fn span(h: int) -> nat
    decreases h,
{
    if h <= 0 {
        0
    } else {
        1 + 2 * span(h - 1)
    }
}

/// The number of slots of the first row of gates that a slot of the given row is
/// made of.
pub open spec fn feet(h: int) -> nat
    decreases h,
{
    if h <= 0 {
        0
    } else if h == 1 {
        1
    } else {
        2 * feet(h - 1)
    }
}

/// Places a pin into a slot below which everything is vacant, and below that
/// slot what the pin is made of.
#[verifier::rlimit(40)]
pub(crate) fn place_bit(
    aig: &AIG,
    hier: &mut Vec<Vec<usize>>,
    count: &mut IndexMap<usize, usize>,
    cone: &Cone,
    hi: usize,
    j: usize,
    nd: usize,
    Ghost(done): Ghost<Set<usize>>,
)
    requires
        aig.drivers_wf(),
        cone.graded(*aig, done),
        shaped(old(hier)@),
        is_slot(hi as int, j as int),
        vacant_below(old(hier)@, hi as int, j as int),
        cone.has(nd),
        cone.lvl(nd) <= hi,
        counted(old(hier)@, map_view(*old(count))),
    ensures
        shaped(final(hier)@),
        cell(final(hier)@, hi as int, j as int) == nd,
        same_elsewhere(old(hier)@, final(hier)@, hi as int, j as int),
        ok_below(*aig, done, *cone, final(hier)@, hi as int, j as int),
        settled_below(final(hier)@, hi as int, j as int),
        counted(final(hier)@, map_view(*final(count))),
        map_view(*old(count)).dom().finite() ==> map_view(*final(count)).dom().finite() && map_view(
            *final(count),
        ).dom().len() <= map_view(*old(count)).dom().len() + span(hi as int),
        row_count(final(hier)@[1]@, usize::MAX) + feet(hi as int) >= row_count(old(hier)@[1]@, usize::MAX),
    decreases hi,
{
    let ghost h0 = hier@;
    let ghost hh = hi as int;
    let ghost jj = j as int;
    proof {
        reveal_with_fuel(span, 2);
        reveal_with_fuel(feet, 2);
        lemma_below_split(hh, jj, hh, jj);
        assert(below(hh, jj, hh, jj));
        assert(vacant(h0, hh, jj));
    }
    put(hier, hi, j, nd);
    let ghost h1 = hier@;
    proof {
        assert forall|h: int, k: int| is_slot(h, k) && !(h == hh && k == jj) implies #[trigger] cell(h1, h, k) == cell(
            h0,
            h,
            k,
        ) by {
            if h != hh {
                assert(h1[h]@ == h0[h]@);
            }
        }
        assert(h0[1]@.len() == width(1));
        if hh == 1 {
            lemma_row_update(h0[1]@, jj, nd, usize::MAX);
        } else {
            assert(h1[1]@ == h0[1]@);
        }
    }
    if hi == 0 {
        proof {
            lemma_counted_same(h0, h1, map_view(*count));
            assert forall|h: int, k: int| is_slot(h, k) && #[trigger] below(hh, jj, h, k) implies slot_ok(
                *aig,
                done,
                *cone,
                h1,
                h,
                k,
            ) by {
                lemma_below_split(hh, jj, h, k);
            }
        }
        return ;
    }
    let times: usize = match map_get(count, nd) {
        Some(c) => c,
        None => 0,
    };
    proof {
        lemma_rows_count(h0, 13, nd);
        assert(times == rows_count(h0, 13, nd));
    }
    let _ = map_insert(count, nd, times + 1);
    proof {
        lemma_counted_put(h0, h1, hh, jj, nd, map_view(*old(count)), map_view(*count));
        lemma_below_feeds(hh, jj, hh, jj);
        assert(vacant_below(h1, hh - 1, jj)) by {
            assert forall|h: int, k: int| is_slot(h, k) && #[trigger] below(hh - 1, jj, h, k) implies vacant(h1, h,
                k) by {
                lemma_below_split(hh, jj, h, k);
                assert(below(hh, jj, h, k));
                assert(vacant(h0, h, k));
            }
        }
        assert(vacant_below(h1, hh - 1, jj + width(hh))) by {
            assert forall|h: int, k: int| is_slot(h, k) && #[trigger] below(hh - 1, jj + width(hh), h, k)
                implies vacant(
                h1,
                h,
                k,
            ) by {
                lemma_below_split(hh, jj, h, k);
                assert(below(hh, jj, h, k));
                assert(vacant(h0, h, k));
            }
        }
        cone.lemma_leveled(*aig, done, nd);
    }
    let lvlnd = cone.level_of(nd);
    if lvlnd != hi {
        place_bit(aig, hier, count, cone, hi - 1, j, nd, Ghost(done));
        proof {
            lemma_place_step(*aig, done, *cone, h0, h1, hier@, hier@, hh, jj);
        }
    } else {
        let (a, b): (usize, usize) = match aig.drivers[nd] {
            DriverType::AndGate(a, b) => (a, b),
            _ => {
                assert(false);
                (0, 0)
            },
        };
        assert(hier@[hh]@.len() == width(hh));
        let hier_hi_len = hier[hi].len();
        place_bit(aig, hier, count, cone, hi - 1, j, a / 2, Ghost(done));
        let ghost h2 = hier@;
        proof {
            assert forall|h: int, k: int| is_slot(h, k) && #[trigger] below(hh - 1, jj + width(hh), h, k)
                implies vacant(
                h2,
                h,
                k,
            ) by {
                lemma_below_split(hh, jj, h, k);
                assert(cell(h2, h, k) == cell(h1, h, k));
            }
        }
        place_bit(aig, hier, count, cone, hi - 1, j + hier_hi_len, b / 2, Ghost(done));
        proof {
            lemma_place_step(*aig, done, *cone, h0, h1, h2, hier@, hh, jj);
        }
    }
}

/// What placing into the two feeding slots makes of the slot that they feed.
proof fn lemma_place_step(
    aig: AIG,
    done: Set<usize>,
    cone: Cone,
    h0: Seq<Vec<usize>>,
    h1: Seq<Vec<usize>>,
    h2: Seq<Vec<usize>>,
    h3: Seq<Vec<usize>>,
    hh: int,
    jj: int,
)
    requires
        shaped(h0),
        shaped(h1),
        shaped(h2),
        shaped(h3),
        is_slot(hh, jj),
        1 <= hh,
        vacant_below(h0, hh, jj),
        forall|h: int, k: int|
            is_slot(h, k) && !(h == hh && k == jj) ==> #[trigger] cell(h1, h, k) == cell(h0, h, k),
        same_elsewhere(h1, h2, hh - 1, jj),
        ok_below(aig, done, cone, h2, hh - 1, jj),
        settled_below(h2, hh - 1, jj),
        h3 == h2 || (same_elsewhere(h2, h3, hh - 1, jj + width(hh)) && ok_below(
            aig,
            done,
            cone,
            h3,
            hh - 1,
            jj + width(hh),
        ) && settled_below(h3, hh - 1, jj + width(hh))),
        !vacant(h1, hh, jj),
        cone.has(cell(h1, hh, jj)),
        cone.lvl(cell(h1, hh, jj)) <= hh,
        ({
            let v = cell(h1, hh, jj);
            ||| cell(h2, hh - 1, jj) == v
            ||| aig.drivers@[v as int] matches DriverType::AndGate(a, b) && cell(h2, hh - 1, jj) == a / 2 && cell(
                h3,
                hh - 1,
                jj + width(hh),
            ) == b / 2
        }),
    ensures
        cell(h3, hh, jj) == cell(h1, hh, jj),
        same_elsewhere(h0, h3, hh, jj),
        ok_below(aig, done, cone, h3, hh, jj),
        settled_below(h3, hh, jj),
{
    let w = width(hh);
    assert(!below(hh - 1, jj, hh, jj));
    assert(!below(hh - 1, jj + w, hh, jj));
    assert(cell(h2, hh, jj) == cell(h1, hh, jj));
    lemma_below_feeds(hh, jj, hh, jj);
    lemma_below_split(hh - 1, jj, hh - 1, jj);
    lemma_below_split(hh, jj, hh - 1, jj);
    assert(!below(hh - 1, jj + w, hh - 1, jj));
    assert(cell(h3, hh - 1, jj) == cell(h2, hh - 1, jj));
    assert forall|h: int, k: int| is_slot(h, k) && !below(hh, jj, h, k) implies #[trigger] cell(h3, h, k) == cell(
        h0,
        h,
        k,
    ) by {
        lemma_below_split(hh, jj, h, k);
        assert(cell(h1, h, k) == cell(h0, h, k));
        assert(cell(h2, h, k) == cell(h1, h, k));
    }
    assert forall|h: int, k: int| is_slot(h, k) && #[trigger] below(hh, jj, h, k) implies slot_ok(
        aig,
        done,
        cone,
        h3,
        h,
        k,
    ) && (1 <= h && vacant(h3, h, k) ==> vacant(h3, h - 1, k) && vacant(h3, h - 1, k + width(h))) by {
        lemma_below_split(hh, jj, h, k);
        if h < hh {
            if 1 <= h {
                lemma_below_feeds(hh - 1, jj, h, k);
                lemma_below_feeds(hh - 1, jj + w, h, k);
                lemma_below_split(hh, jj, h - 1, k);
                lemma_below_split(hh, jj, h - 1, k + width(h));
            }
            if below(hh - 1, jj, h, k) {
                assert(slot_ok(aig, done, cone, h2, h, k));
                assert(cell(h3, h, k) == cell(h2, h, k));
                if 1 <= h {
                    assert(cell(h3, h - 1, k) == cell(h2, h - 1, k));
                    assert(cell(h3, h - 1, k + width(h)) == cell(h2, h - 1, k + width(h)));
                }
            } else {
                assert(below(hh - 1, jj + w, h, k));
                if h3 == h2 {
                    assert(cell(h2, h, k) == cell(h1, h, k));
                    assert(cell(h1, h, k) == cell(h0, h, k));
                    assert(vacant(h0, h, k));
                    if 1 <= h {
                        assert(cell(h2, h - 1, k) == cell(h1, h - 1, k));
                        assert(cell(h1, h - 1, k) == cell(h0, h - 1, k));
                        assert(below(hh, jj, h - 1, k));
                        assert(vacant(h0, h - 1, k));
                        assert(cell(h2, h - 1, k + width(h)) == cell(h1, h - 1, k + width(h)));
                        assert(cell(h1, h - 1, k + width(h)) == cell(h0, h - 1, k + width(h)));
                        assert(below(hh, jj, h - 1, k + width(h)));
                        assert(vacant(h0, h - 1, k + width(h)));
                    }
                } else {
                    assert(slot_ok(aig, done, cone, h3, h, k));
                }
            }
        }
    }
}

/// Vacates a slot and all slots below it.
pub(crate) fn purge_bit(
    hier: &mut Vec<Vec<usize>>,
    count: &mut IndexMap<usize, usize>,
    hi: usize,
    j: usize,
)
    requires
        shaped(old(hier)@),
        is_slot(hi as int, j as int),
        settled_below(old(hier)@, hi as int, j as int),
        counted(old(hier)@, map_view(*old(count))),
    ensures
        shaped(final(hier)@),
        same_elsewhere(old(hier)@, final(hier)@, hi as int, j as int),
        vacant_below(final(hier)@, hi as int, j as int),
        counted(final(hier)@, map_view(*final(count))),
    decreases hi,
{
    let ghost h0 = hier@;
    let ghost hh = hi as int;
    let ghost jj = j as int;
    assert(hier@[hh]@.len() == width(hh));
    if hier[hi][j] == usize::MAX {
        proof {
            lemma_settled_vacant(h0, hh, jj);
        }
        return ;
    }
    let nd = hier[hi][j];
    put(hier, hi, j, usize::MAX);
    let ghost h1 = hier@;
    proof {
        lemma_below_split(hh, jj, hh, jj);
        assert forall|h: int, k: int| is_slot(h, k) && !(h == hh && k == jj) implies #[trigger] cell(h1, h, k) == cell(
            h0,
            h,
            k,
        ) by {
            if h != hh {
                assert(h1[h]@ == h0[h]@);
            }
        }
    }
    if hi == 0 {
        proof {
            lemma_counted_same(h0, h1, map_view(*count));
            assert forall|h: int, k: int| is_slot(h, k) && #[trigger] below(hh, jj, h, k) implies vacant(h1, h, k) by {
                lemma_below_split(hh, jj, h, k);
            }
        }
        return ;
    }
    proof {
        lemma_rows_count(h0, 13, nd);
        assert(cell(h0, hh, jj) == nd);
        assert(map_view(*count).contains_key(nd));
    }
    let times: usize = match map_get(count, nd) {
        Some(c) => c,
        None => 1,
    };
    if times == 1 {
        let _ = map_swap_remove(count, nd);
    } else {
        let _ = map_insert(count, nd, times - 1);
    }
    proof {
        lemma_counted_clear(h0, h1, hh, jj, map_view(*old(count)), map_view(*count));
        lemma_below_feeds(hh, jj, hh, jj);
        lemma_purge_settled(h0, h1, hh, jj, jj);
    }
    let hier_hi_len = hier[hi].len();
    purge_bit(hier, count, hi - 1, j);
    let ghost h2 = hier@;
    proof {
        lemma_purge_settled(h0, h1, hh, jj, jj + width(hh));
        assert(settled_below(h2, hh - 1, jj + width(hh))) by {
            assert forall|h: int, k: int|
                1 <= h && is_slot(h, k) && #[trigger] below(hh - 1, jj + width(hh), h, k) && vacant(h2, h,
                    k) implies vacant(
                h2,
                h - 1,
                k,
            ) && vacant(h2, h - 1, k + width(h)) by {
                lemma_below_feeds(hh - 1, jj + width(hh), h, k);
                lemma_below_split(hh, jj, h, k);
                lemma_below_split(hh, jj, h - 1, k);
                lemma_below_split(hh, jj, h - 1, k + width(h));
                assert(cell(h2, h, k) == cell(h1, h, k));
                assert(cell(h2, h - 1, k) == cell(h1, h - 1, k));
                assert(cell(h2, h - 1, k + width(h)) == cell(h1, h - 1, k + width(h)));
                assert(vacant(h1, h, k));
            }
        }
    }
    purge_bit(hier, count, hi - 1, j + hier_hi_len);
    proof {
        let h3 = hier@;
        assert forall|h: int, k: int| is_slot(h, k) && !below(hh, jj, h, k) implies #[trigger] cell(h3, h, k) == cell(
            h0,
            h,
            k,
        ) by {
            lemma_below_split(hh, jj, h, k);
            assert(cell(h1, h, k) == cell(h0, h, k));
            assert(cell(h2, h, k) == cell(h1, h, k));
        }
        assert forall|h: int, k: int| is_slot(h, k) && #[trigger] below(hh, jj, h, k) implies vacant(h3, h, k) by {
            lemma_below_split(hh, jj, h, k);
            if h == hh {
                assert(cell(h2, h, k) == cell(h1, h, k));
                assert(cell(h3, h, k) == cell(h2, h, k));
            } else if below(hh - 1, jj, h, k) {
                assert(vacant(h2, h, k));
                assert(cell(h3, h, k) == cell(h2, h, k));
            }
        }
    }
}

proof fn lemma_purge_settled(h0: Seq<Vec<usize>>, h1: Seq<Vec<usize>>, hh: int, jj: int, i: int)
    requires
        shaped(h0),
        shaped(h1),
        is_slot(hh, jj),
        1 <= hh,
        i == jj || i == jj + width(hh),
        settled_below(h0, hh, jj),
        forall|h: int, k: int|
            is_slot(h, k) && !(h == hh && k == jj) ==> #[trigger] cell(h1, h, k) == cell(h0, h, k),
    ensures
        settled_below(h1, hh - 1, i),
{
    assert forall|h: int, k: int|
        1 <= h && is_slot(h, k) && #[trigger] below(hh - 1, i, h, k) && vacant(h1, h, k) implies vacant(h1, h - 1, k)
        && vacant(h1, h - 1, k + width(h)) by {
        lemma_below_feeds(hh, jj, h, k);
        lemma_below_split(hh, jj, h, k);
        assert(below(hh, jj, h, k));
        assert(cell(h1, h, k) == cell(h0, h, k));
        assert(vacant(h0, h, k));
        assert(cell(h1, h - 1, k) == cell(h0, h - 1, k));
        assert(cell(h1, h - 1, k + width(h)) == cell(h0, h - 1, k + width(h)));
    }
}

} // verus!
