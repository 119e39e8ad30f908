//! Arranging partitions on blocks.

use crate::pe::process::lists;
use vstd::prelude::*;

verus! {

/// The fixed cost of each partition, in stages.
pub const EXECUTOR_FIXED_COST: usize = 3;

/// The stages that the first `n` parts of a block take, fixed costs included.
pub open spec fn block_cost(costs: Seq<usize>, block: Seq<usize>) -> nat
    decreases block.len(),
{
    if block.len() == 0 {
        0
    } else {
        block_cost(costs, block.drop_last()) + costs[block.last() as int] as nat + EXECUTOR_FIXED_COST as nat
    }
}

/// The first block among the first `n` that takes the fewest stages.
pub open spec fn cheapest(costs: Seq<usize>, blocks: Seq<Seq<usize>>, n: nat) -> int
    decreases n,
{
    if n <= 1 {
        0
    } else {
        let rest = cheapest(costs, blocks, (n - 1) as nat);
        if block_cost(costs, blocks[n - 1]) < block_cost(costs, blocks[rest]) {
            n - 1
        } else {
            rest
        }
    }
}

/// The first `n` parts on blocks: each block gets a part as long as there are
/// empty ones; each further part goes to the block that takes the fewest
/// stages so far.
pub open spec fn arranged(costs: Seq<usize>, num_blocks: nat, n: nat) -> Seq<Seq<usize>>
    decreases n,
{
    if n == 0 {
        Seq::new(num_blocks, |b: int| Seq::<usize>::empty())
    } else {
        let rest = arranged(costs, num_blocks, (n - 1) as nat);
        let b = if n - 1 < num_blocks {
            n - 1
        } else {
            cheapest(costs, rest, num_blocks)
        };
        rest.update(b, rest[b].push((n - 1) as usize))
    }
}

/// The sum of the costs of the first `n` parts.
pub open spec fn total_cost(costs: Seq<usize>, n: nat) -> nat
    decreases n,
{
    if n == 0 {
        0
    } else {
        total_cost(costs, (n - 1) as nat) + costs[n - 1] as nat + EXECUTOR_FIXED_COST as nat
    }
}

proof fn lemma_cheapest(costs: Seq<usize>, blocks: Seq<Seq<usize>>, n: nat)
    requires
        1 <= n <= blocks.len(),
    ensures
        0 <= cheapest(costs, blocks, n) < n,
    decreases n,
{
    if n > 1 {
        lemma_cheapest(costs, blocks, (n - 1) as nat);
    }
}

/// The shape of an arrangement.
pub(crate) proof fn lemma_arranged(costs: Seq<usize>, num_blocks: nat, n: nat)
    requires
        num_blocks >= 1,
        n <= costs.len(),
        n <= usize::MAX,
    ensures
        arranged(costs, num_blocks, n).len() == num_blocks,
        forall|b: int, k: int|
            0 <= b < num_blocks && 0 <= k < arranged(costs, num_blocks, n)[b].len() ==> #[trigger] arranged(
                costs,
                num_blocks,
                n,
            )[b][k] < n,
        forall|b: int|
            0 <= b < num_blocks ==> block_cost(costs, #[trigger] arranged(costs, num_blocks, n)[b]) <= total_cost(
                costs,
                n,
            ),
    decreases n,
{
    if n > 0 {
        lemma_arranged(costs, num_blocks, (n - 1) as nat);
        let rest = arranged(costs, num_blocks, (n - 1) as nat);
        let all = arranged(costs, num_blocks, n);
        lemma_cheapest(costs, rest, num_blocks);
        let c = if n - 1 < num_blocks {
            n - 1
        } else {
            cheapest(costs, rest, num_blocks)
        };
        assert(all =~= rest.update(c, rest[c].push((n - 1) as usize)));
        assert forall|b: int, k: int| 0 <= b < num_blocks && 0 <= k < all[b].len() implies #[trigger] all[b][k] < n by {
            if b != c {
                assert(rest[b][k] < n - 1);
            } else if k < rest[b].len() {
                assert(rest[b][k] < n - 1);
            }
        }
        assert forall|b: int| 0 <= b < num_blocks implies block_cost(costs, #[trigger] all[b]) <= total_cost(costs,
            n) by {
            assert(block_cost(costs, rest[b]) <= total_cost(costs, (n - 1) as nat));
            if b == c {
                assert(all[b].drop_last() =~= rest[b]);
            }
        }
    }
}

/// Every part is on exactly one block, in ascending order.
pub proof fn law_arranged_once(costs: Seq<usize>, num_blocks: nat, n: nat, i: usize)
    requires
        num_blocks >= 1,
        n <= costs.len(),
        n <= usize::MAX,
        i < n,
    ensures
        exists|b: int| 0 <= b < num_blocks && (#[trigger] arranged(costs, num_blocks, n)[b]).contains(i),
        forall|b: int, k: int, c: int, l: int|
            0 <= b < num_blocks && 0 <= c < num_blocks && 0 <= k < arranged(costs, num_blocks, n)[b].len() && 0 <= l
                < arranged(costs, num_blocks, n)[c].len() && #[trigger] arranged(costs, num_blocks, n)[b][k] == i
                && #[trigger] arranged(costs, num_blocks, n)[c][l] == i ==> b == c && k == l,
    decreases n,
{
    lemma_arranged(costs, num_blocks, (n - 1) as nat);
    let rest = arranged(costs, num_blocks, (n - 1) as nat);
    let all = arranged(costs, num_blocks, n);
    lemma_cheapest(costs, rest, num_blocks);
    let c = if n - 1 < num_blocks {
        n - 1
    } else {
        cheapest(costs, rest, num_blocks)
    };
    assert(all =~= rest.update(c, rest[c].push((n - 1) as usize)));
    if i == n - 1 {
        assert(all[c][rest[c].len() as int] == i);
        assert(all[c].contains(i));
        assert forall|b: int, k: int, d: int, l: int|
            0 <= b < num_blocks && 0 <= d < num_blocks && 0 <= k < all[b].len() && 0 <= l < all[d].len()
                && #[trigger] all[b][k] == i && #[trigger] all[d][l] == i implies b == d && k == l by {
            lemma_newest(rest, all, num_blocks as int, c, n, b, k);
            lemma_newest(rest, all, num_blocks as int, c, n, d, l);
        }
    } else {
        law_arranged_once(costs, num_blocks, (n - 1) as nat, i);
        let b = choose|b: int| 0 <= b < num_blocks && (#[trigger] rest[b]).contains(i);
        assert(all[b][rest[b].index_of(i)] == i);
        assert(all[b].contains(i));
        assert forall|b: int, k: int, d: int, l: int|
            0 <= b < num_blocks && 0 <= d < num_blocks && 0 <= k < all[b].len() && 0 <= l < all[d].len()
                && #[trigger] all[b][k] == i && #[trigger] all[d][l] == i implies b == d && k == l by {
            assert(rest[b][k] == i);
            assert(rest[d][l] == i);
        }
    }
}

proof fn lemma_newest(
    rest: Seq<Seq<usize>>,
    all: Seq<Seq<usize>>,
    num_blocks: int,
    c: int,
    n: nat,
    b: int,
    k: int,
)
    requires
        0 < n <= usize::MAX,
        rest.len() == num_blocks,
        0 <= c < num_blocks,
        all == rest.update(c, rest[c].push((n - 1) as usize)),
        forall|b: int, k: int| 0 <= b < num_blocks && 0 <= k < rest[b].len() ==> #[trigger] rest[b][k] < n - 1,
        0 <= b < num_blocks,
        0 <= k < all[b].len(),
        all[b][k] == n - 1,
    ensures
        b == c,
        k == rest[c].len(),
{
    if b != c || k < rest[c].len() {
        assert(rest[b][k] < n - 1);
    }
}

/// Arranges parts on blocks, given their numbers of stages.
pub fn arrange_blocks(costs: &Vec<usize>, num_blocks: usize) -> (blocks: Vec<Vec<usize>>)
    requires
        num_blocks >= 1,
        total_cost(costs@, costs@.len()) <= usize::MAX,
    ensures
        lists(blocks@) == arranged(costs@, num_blocks as nat, costs@.len()),
{
    let mut blocks: Vec<Vec<usize>> = Vec::new();
    while blocks.len() < num_blocks
        invariant
            blocks@.len() <= num_blocks,
            forall|b: int| 0 <= b < blocks@.len() ==> (#[trigger] blocks@[b])@ == Seq::<usize>::empty(),
        decreases num_blocks - blocks@.len(),
    {
        blocks.push(Vec::new());
        assert(blocks@.last()@ =~= Seq::<usize>::empty());
    }
    let mut totals: Vec<usize> = vec![0; num_blocks];
    let n = costs.len();
    assert(lists(blocks@) =~= arranged(costs@, num_blocks as nat, 0));
    let mut i: usize = 0;
    while i < n
        invariant
            num_blocks >= 1,
            n == costs@.len(),
            i <= n,
            total_cost(costs@, n as nat) <= usize::MAX,
            blocks@.len() == num_blocks,
            totals@.len() == num_blocks,
            lists(blocks@) == arranged(costs@, num_blocks as nat, i as nat),
            forall|b: int| 0 <= b < num_blocks ==> #[trigger] totals@[b] == block_cost(costs@, blocks@[b]@),
        decreases n - i,
    {
        let ghost old_lists = lists(blocks@);
        let ghost t0 = totals@;
        let mut put: usize = 0;
        if i < num_blocks {
            put = i;
        } else {
            let mut b: usize = 1;
            while b < num_blocks
                invariant
                    1 <= b <= num_blocks,
                    put < b,
                    blocks@.len() == num_blocks,
                    totals@.len() == num_blocks,
                    old_lists == lists(blocks@),
                    put == cheapest(costs@, old_lists, b as nat),
                    forall|b: int| 0 <= b < num_blocks ==> #[trigger] totals@[b] == block_cost(costs@, blocks@[b]@),
                decreases num_blocks - b,
            {
                assert(totals@[b as int] == block_cost(costs@, old_lists[b as int]));
                assert(totals@[put as int] == block_cost(costs@, old_lists[put as int]));
                if totals[b] < totals[put] {
                    put = b;
                }
                b += 1;
            }
        }
        proof {
            lemma_arranged(costs@, num_blocks as nat, i as nat);
            lemma_total_grows(costs@, (i + 1) as nat, n as nat);
            assert(block_cost(costs@, old_lists[put as int]) <= total_cost(costs@, i as nat));
            assert(totals@[put as int] == block_cost(costs@, old_lists[put as int]));
        }
        let more: usize = costs[i] + EXECUTOR_FIXED_COST;
        let ghost b0 = blocks@;
        blocks[put].push(i);
        totals.set(put, totals[put] + more);
        proof {
            assert(blocks@[put as int]@.drop_last() =~= b0[put as int]@);
            assert(lists(blocks@) =~= old_lists.update(put as int, old_lists[put as int].push(i)));
            assert forall|b: int| 0 <= b < num_blocks implies #[trigger] totals@[b] == block_cost(
                costs@,
                blocks@[b]@,
            ) by {
                assert(t0[b] == block_cost(costs@, b0[b]@));
            }
        }
        i += 1;
    }
    blocks
}

pub(crate) proof fn lemma_total_grows(costs: Seq<usize>, a: nat, b: nat)
    requires
        a <= b,
    ensures
        total_cost(costs, a) <= total_cost(costs, b),
    decreases b,
{
    if a < b {
        lemma_total_grows(costs, a, (b - 1) as nat);
    }
}

/// The first cheapest block is as cheap as any, and cheaper than those before it.
proof fn lemma_cheapest_least(costs: Seq<usize>, blocks: Seq<Seq<usize>>, n: nat, c: int)
    requires
        1 <= n <= blocks.len(),
        0 <= c < n,
    ensures
        0 <= cheapest(costs, blocks, n) < n,
        block_cost(costs, blocks[cheapest(costs, blocks, n)]) <= block_cost(costs, blocks[c]),
    decreases n,
{
    if n > 1 {
        let x = if c < n - 1 {
            c
        } else {
            0
        };
        lemma_cheapest_least(costs, blocks, (n - 1) as nat, x);
    }
}

/// The work is shared out evenly: while there are empty blocks, the next part starts one;
/// later, before a block got its last part, it took no more stages, with three for each
/// part on top, than any other block does at last.
pub proof fn law_blocks_are_balanced(costs: Seq<usize>, num_blocks: nat, n: nat, b: int, c: int)
    requires
        num_blocks >= 1,
        n <= costs.len(),
        n <= usize::MAX,
        0 <= b < num_blocks,
        0 <= c < num_blocks,
    ensures
        ({
            let blocks = arranged(costs, num_blocks, n);
            &&& blocks.len() == num_blocks
            &&& b < n ==> blocks[b].len() >= 1 && blocks[b][0] == b
            &&& b >= n ==> blocks[b].len() == 0
            &&& blocks[b].len() >= 2 ==> stages_of(costs, blocks[b].drop_last()) <= stages_of(costs, blocks[c])
        }),
    decreases n,
{
    if n > 0 {
        law_blocks_are_balanced(costs, num_blocks, (n - 1) as nat, b, c);
        lemma_arranged(costs, num_blocks, (n - 1) as nat);
        let rest = arranged(costs, num_blocks, (n - 1) as nat);
        let all = arranged(costs, num_blocks, n);
        lemma_cheapest_least(costs, rest, num_blocks, c);
        let x = if n - 1 < num_blocks {
            n - 1
        } else {
            cheapest(costs, rest, num_blocks)
        };
        assert(all =~= rest.update(x, rest[x].push((n - 1) as usize)));
        assert(rest[x].push((n - 1) as usize).drop_last() =~= rest[x]);
        lemma_stages_of(costs, rest[c]);
        lemma_stages_of(costs, rest[x]);
        if n - 1 < num_blocks && b == x {
            law_blocks_are_balanced(costs, num_blocks, (n - 1) as nat, x, c);
        }
    }
}

/// The stages that the parts of a block take together, with three for each part on top.
pub open spec fn stages_of(costs: Seq<usize>, block: Seq<usize>) -> nat
    decreases block.len(),
{
    if block.len() == 0 {
        0
    } else {
        stages_of(costs, block.drop_last()) + costs[block.last() as int] as nat + 3
    }
}

proof fn lemma_stages_of(costs: Seq<usize>, block: Seq<usize>)
    ensures
        stages_of(costs, block) == block_cost(costs, block),
    decreases block.len(),
{
    if block.len() > 0 {
        lemma_stages_of(costs, block.drop_last());
    }
}

} // verus!
