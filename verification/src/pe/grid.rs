//! The boomerang hierarchy: rows of slots that halve in width, in which every
//! slot either passes on the slot of the same index in the row before it, or
//! conjoins that slot with the one half a row further.

use crate::aig::{DriverType, AIG};
use vstd::prelude::*;

verus! {

/// The number of boomerang stages.
///
/// This determines the shuffle width, i.e., kernel width.
/// `kernel width = (1 << BOOMERANG_NUM_STAGES)`.
pub const BOOMERANG_NUM_STAGES: usize = 13;

/// The width of a row.
pub open spec fn width(h: int) -> int {
    if h == 0 {
        8192
    } else if h == 1 {
        4096
    } else if h == 2 {
        2048
    } else if h == 3 {
        1024
    } else if h == 4 {
        512
    } else if h == 5 {
        256
    } else if h == 6 {
        128
    } else if h == 7 {
        64
    } else if h == 8 {
        32
    } else if h == 9 {
        16
    } else if h == 10 {
        8
    } else if h == 11 {
        4
    } else if h == 12 {
        2
    } else {
        1
    }
}

/// Is there a slot with this row and index?
pub open spec fn is_slot(h: int, j: int) -> bool {
    0 <= h <= 13 && 0 <= j < width(h)
}

/// The content of a slot.
pub open spec fn cell(hier: Seq<Vec<usize>>, h: int, j: int) -> usize {
    hier[h]@[j]
}

/// Are these the rows of a hierarchy?
pub open spec fn shaped(hier: Seq<Vec<usize>>) -> bool {
    &&& hier.len() == 14
    &&& forall|h: int| 0 <= h <= 13 ==> (#[trigger] hier[h])@.len() == width(h)
}

/// Does the slot hold nothing?
pub open spec fn vacant(hier: Seq<Vec<usize>>, h: int, j: int) -> bool {
    cell(hier, h, j) == usize::MAX
}

/// Is the pin in a row behind the first one? Those are the pins whose values
/// the hierarchy leaves behind.
pub open spec fn holds(hier: Seq<Vec<usize>>, v: usize) -> bool {
    exists|h: int, j: int| 1 <= h && is_slot(h, j) && #[trigger] cell(hier, h, j) == v
}

/// Does a slot pass on, or conjoin, what the row before it holds?
pub open spec fn fed(aig: AIG, hier: Seq<Vec<usize>>, h: int, j: int) -> bool {
    let v = cell(hier, h, j);
    ||| cell(hier, h - 1, j) == v
    ||| aig.drivers@[v as int] matches DriverType::AndGate(a, b) && cell(hier, h - 1, j) == a / 2 && cell(
        hier,
        h - 1,
        j + width(h),
    ) == b / 2
}

/// Is the slot one of those that the slot `(top, i)` is made of?
pub open spec fn below(top: int, i: int, h: int, j: int) -> bool {
    h <= top && j % width(top) == i
}

proof fn lemma_mod_double(k: int, w: int)
    requires
        0 < w,
        0 <= k,
    ensures
        k % (2 * w) == k % w || k % (2 * w) == k % w + w,
        0 <= k % w < w,
{
    let q = k / (2 * w);
    let r = k % (2 * w);
    vstd::arithmetic::div_mod::lemma_fundamental_div_mod(k, 2 * w);
    if r < w {
        assert(k == (2 * q) * w + r) by (nonlinear_arith)
            requires
                k == (2 * w) * q + r,
        ;
        vstd::arithmetic::div_mod::lemma_fundamental_div_mod_converse(k, w, 2 * q, r);
    } else {
        assert(k == (2 * q + 1) * w + (r - w)) by (nonlinear_arith)
            requires
                k == (2 * w) * q + r,
        ;
        vstd::arithmetic::div_mod::lemma_fundamental_div_mod_converse(k, w, 2 * q + 1, r - w);
    }
}

proof fn lemma_width_divides(top: int, h: int)
    requires
        0 <= h <= top <= 13,
    ensures
        width(h) % width(top) == 0,
    decreases top - h,
{
    if h < top {
        lemma_width_divides(top, h + 1);
        let w = width(top);
        let q = width(h + 1) / w;
        vstd::arithmetic::div_mod::lemma_fundamental_div_mod(width(h + 1), w);
        assert(width(h) == (2 * q) * w + 0) by (nonlinear_arith)
            requires
                width(h) == 2 * width(h + 1),
                width(h + 1) == w * q + 0,
        ;
        vstd::arithmetic::div_mod::lemma_fundamental_div_mod_converse(width(h), w, 2 * q, 0);
    } else {
        vstd::arithmetic::div_mod::lemma_mod_self_0(width(h));
    }
}

/// The slots below `(top, i)` are that slot and those below its two feeding
/// slots.
pub(crate) proof fn lemma_below_split(top: int, i: int, h: int, j: int)
    requires
        is_slot(top, i),
        is_slot(h, j),
    ensures
        h == top ==> (below(top, i, h, j) <==> j == i),
        h < top ==> (below(top, i, h, j) <==> (below(top - 1, i, h, j) || below(top - 1, i + width(top), h, j))),
        1 <= top ==> !(below(top - 1, i, h, j) && below(top - 1, i + width(top), h, j)),
{
    if h == top {
        vstd::arithmetic::div_mod::lemma_small_mod(j as nat, width(top) as nat);
    }
    if h < top {
        lemma_mod_double(j, width(top));
    }
}

/// The slots that feed a slot below `(top, i)` are below it, too.
pub(crate) proof fn lemma_below_feeds(top: int, i: int, h: int, j: int)
    requires
        is_slot(top, i),
        is_slot(h, j),
        1 <= h <= top,
    ensures
        below(top, i, h, j) == below(top, i, h - 1, j),
        below(top, i, h, j) == below(top, i, h - 1, j + width(h)),
        is_slot(h - 1, j),
        is_slot(h - 1, j + width(h)),
{
    lemma_width_divides(top, h);
    let w = width(top);
    vstd::arithmetic::div_mod::lemma_add_mod_noop(j, width(h), w);
    vstd::arithmetic::div_mod::lemma_mod_twice(j, w);
}

/// How often a pin occurs in a row.
pub open spec fn row_count(row: Seq<usize>, v: usize) -> nat
    decreases row.len(),
{
    if row.len() == 0 {
        0
    } else {
        row_count(row.drop_last(), v) + (if row.last() == v {
            1nat
        } else {
            0nat
        })
    }
}

/// How often a pin occurs in the rows from 1 up to `n`.
pub open spec fn rows_count(hier: Seq<Vec<usize>>, n: nat, v: usize) -> nat
    decreases n,
{
    if n == 0 {
        0
    } else {
        rows_count(hier, (n - 1) as nat, v) + row_count(hier[n as int]@, v)
    }
}

/// Counting after an update of a row.
pub(crate) proof fn lemma_row_update(row: Seq<usize>, j: int, x: usize, v: usize)
    requires
        0 <= j < row.len(),
    ensures
        row_count(row.update(j, x), v) + (if row[j] == v {
            1int
        } else {
            0int
        }) == row_count(row, v) + (if x == v {
            1int
        } else {
            0int
        }),
    decreases row.len(),
{
    let n = row.len() - 1;
    if j == n {
        assert(row.update(j, x).drop_last() =~= row.drop_last());
    } else {
        assert(row.update(j, x).drop_last() =~= row.drop_last().update(j, x));
        lemma_row_update(row.drop_last(), j, x, v);
    }
}

/// A pin occurs in a row just if it is counted there, and at most once per slot.
pub(crate) proof fn lemma_row_count(row: Seq<usize>, v: usize)
    ensures
        row_count(row, v) > 0 <==> row.contains(v),
        row_count(row, v) <= row.len(),
        row_count(row, v) == row.len() <==> forall|j: int| 0 <= j < row.len() ==> row[j] == v,
    decreases row.len(),
{
    if row.len() > 0 {
        let init = row.drop_last();
        lemma_row_count(init, v);
        if init.contains(v) {
            assert(row[init.index_of(v)] == v);
        }
        if row.contains(v) && row.last() != v {
            assert(init[row.index_of(v)] == v);
        }
        if row.last() == v {
            assert(row[row.len() - 1] == v);
        }
        if forall|j: int| 0 <= j < init.len() ==> init[j] == v {
            assert forall|j: int| 0 <= j < row.len() - 1 implies row[j] == v by {
                assert(init[j] == v);
            }
        }
        if forall|j: int| 0 <= j < row.len() ==> row[j] == v {
            assert forall|j: int| 0 <= j < init.len() implies init[j] == v by {
                assert(row[j] == v);
            }
            assert(row[row.len() - 1] == v);
        }
    }
}

pub(crate) proof fn lemma_rows_same(a: Seq<Vec<usize>>, b: Seq<Vec<usize>>, n: nat, v: usize)
    requires
        n <= 13,
        a.len() == 14,
        b.len() == 14,
        forall|h: int| 1 <= h <= n ==> (#[trigger] a[h])@ == b[h]@,
    ensures
        rows_count(a, n, v) == rows_count(b, n, v),
    decreases n,
{
    if n > 0 {
        lemma_rows_same(a, b, (n - 1) as nat, v);
    }
}

/// Counting after an update of a slot.
pub(crate) proof fn lemma_rows_update(a: Seq<Vec<usize>>, b: Seq<Vec<usize>>, h: int, j: int, x: usize, n: nat,
    v: usize)
    requires
        shaped(a),
        shaped(b),
        is_slot(h, j),
        1 <= h <= n <= 13,
        forall|k: int| 0 <= k <= 13 && k != h ==> (#[trigger] b[k])@ == a[k]@,
        b[h]@ == a[h]@.update(j, x),
    ensures
        rows_count(b, n, v) + (if a[h]@[j] == v {
            1int
        } else {
            0int
        }) == rows_count(a, n, v) + (if x == v {
            1int
        } else {
            0int
        }),
    decreases n,
{
    if n == h {
        lemma_rows_same(a, b, (n - 1) as nat, v);
        lemma_row_update(a[h]@, j, x, v);
    } else {
        assert(b[n as int]@ == a[n as int]@);
        lemma_rows_update(a, b, h, j, x, (n - 1) as nat, v);
    }
}

pub(crate) proof fn lemma_rows_count(hier: Seq<Vec<usize>>, n: nat, v: usize)
    requires
        shaped(hier),
        n <= 13,
    ensures
        rows_count(hier, n, v) > 0 <==> exists|h: int, j: int|
            1 <= h <= n && is_slot(h, j) && #[trigger] cell(hier, h, j) == v,
        rows_count(hier, n, v) <= n * 4096,
    decreases n,
{
    if n > 0 {
        let row = hier[n as int]@;
        lemma_rows_count(hier, (n - 1) as nat, v);
        lemma_row_count(row, v);
        if row.contains(v) {
            let j = row.index_of(v);
            assert(is_slot(n as int, j) && cell(hier, n as int, j) == v);
        }
        if exists|h: int, j: int| 1 <= h <= n && is_slot(h, j) && #[trigger] cell(hier, h, j) == v {
            let (h, j) = choose|h: int, j: int| 1 <= h <= n && is_slot(h, j) && #[trigger] cell(hier, h, j) == v;
            if h == n {
                assert(row[j] == v);
            } else {
                assert(1 <= h <= n - 1);
            }
        }
    }
}

/// Does the map count the occurrences of the pins behind the first row?
pub open spec fn counted(hier: Seq<Vec<usize>>, count: Map<usize, usize>) -> bool {
    &&& !count.contains_key(usize::MAX)
    &&& forall|v: usize|
        v != usize::MAX ==> (#[trigger] count.contains_key(v) <==> rows_count(hier, 13, v) > 0)
    &&& forall|v: usize| #[trigger] count.contains_key(v) ==> count[v] == rows_count(hier, 13, v)
}

/// The counted pins are those that the hierarchy holds.
pub(crate) proof fn lemma_counted(hier: Seq<Vec<usize>>, count: Map<usize, usize>)
    requires
        shaped(hier),
        counted(hier, count),
    ensures
        forall|v: usize| #[trigger] count.contains_key(v) <==> v != usize::MAX && holds(hier, v),
{
    assert forall|v: usize| #[trigger] count.contains_key(v) <==> v != usize::MAX && holds(hier, v) by {
        lemma_rows_count(hier, 13, v);
        if count.contains_key(v) {
            let (h, j) = choose|h: int, j: int| 1 <= h <= 13 && is_slot(h, j) && #[trigger] cell(hier, h, j) == v;
            assert(cell(hier, h, j) == v);
        }
        if v != usize::MAX && holds(hier, v) {
            let (h, j) = choose|h: int, j: int| 1 <= h && is_slot(h, j) && #[trigger] cell(hier, h, j) == v;
            assert(1 <= h <= 13 && is_slot(h, j) && cell(hier, h, j) == v);
        }
    }
}

/// Are all slots below `(top, i)` vacant?
pub open spec fn vacant_below(hier: Seq<Vec<usize>>, top: int, i: int) -> bool {
    forall|h: int, j: int| is_slot(h, j) && #[trigger] below(top, i, h, j) ==> vacant(hier, h, j)
}

/// Does no slot below `(top, i)` that is vacant have a feeding slot that is not?
pub open spec fn settled_below(hier: Seq<Vec<usize>>, top: int, i: int) -> bool {
    forall|h: int, j: int|
        1 <= h && is_slot(h, j) && #[trigger] below(top, i, h, j) && vacant(hier, h, j) ==> vacant(hier, h - 1, j)
            && vacant(hier, h - 1, j + width(h))
}

/// Are the slots outside those below `(top, i)` the same?
pub open spec fn same_elsewhere(a: Seq<Vec<usize>>, b: Seq<Vec<usize>>, top: int, i: int) -> bool {
    forall|h: int, j: int| is_slot(h, j) && !below(top, i, h, j) ==> #[trigger] cell(b, h, j) == cell(a, h, j)
}

/// A vacant slot whose surroundings are settled has nothing below it.
pub(crate) proof fn lemma_settled_vacant(hier: Seq<Vec<usize>>, top: int, i: int)
    requires
        shaped(hier),
        is_slot(top, i),
        vacant(hier, top, i),
        settled_below(hier, top, i),
    ensures
        vacant_below(hier, top, i),
    decreases top,
{
    if top > 0 {
        let w = width(top);
        lemma_below_feeds(top, i, top, i);
        lemma_below_split(top, i, top, i);
        assert(below(top, i, top, i));
        assert forall|h: int, j: int|
            1 <= h && is_slot(h, j) && #[trigger] below(top - 1, i, h, j) && vacant(hier, h, j) implies vacant(
            hier,
            h - 1,
            j,
        ) && vacant(hier, h - 1, j + width(h)) by {
            lemma_below_split(top, i, h, j);
            assert(below(top, i, h, j));
        }
        assert forall|h: int, j: int|
            1 <= h && is_slot(h, j) && #[trigger] below(top - 1, i + w, h, j) && vacant(hier, h, j) implies vacant(
            hier,
            h - 1,
            j,
        ) && vacant(hier, h - 1, j + width(h)) by {
            lemma_below_split(top, i, h, j);
            assert(below(top, i, h, j));
        }
        lemma_settled_vacant(hier, top - 1, i);
        lemma_settled_vacant(hier, top - 1, i + w);
    }
    assert forall|h: int, j: int| is_slot(h, j) && #[trigger] below(top, i, h, j) implies vacant(hier, h, j) by {
        lemma_below_split(top, i, h, j);
    }
}

/// Puts a pin into a slot.
pub(crate) fn put(hier: &mut Vec<Vec<usize>>, hi: usize, j: usize, nd: usize)
    requires
        shaped(old(hier)@),
        is_slot(hi as int, j as int),
    ensures
        shaped(final(hier)@),
        forall|h: int| 0 <= h <= 13 && h != hi ==> (#[trigger] final(hier)@[h])@ == old(hier)@[h]@,
        final(hier)@[hi as int]@ == old(hier)@[hi as int]@.update(j as int, nd),
{
    assert(hier@[hi as int]@.len() == width(hi as int));
    hier[hi][j] = nd;
}

} // verus!
