//! Fan-out lists.

use super::graph::is_graph_of;
use crate::aig::{is_valuation, nonzero, DriverType};
use crate::aig::AIG;
use crate::endpoints::lemma_nonzero_has;
use crate::macros::instances::law_outputs_follow_slots;
use crate::netlist::Netlist;
use vstd::prelude::*;

verus! {

/// The combinational edges into the first `n` pins, each from a pin to a pin
/// that depends on it.
pub open spec fn edges_into(aig: AIG, n: nat) -> Seq<(usize, usize)>
    decreases n,
{
    if n == 0 {
        Seq::empty()
    } else {
        edges_into(aig, (n - 1) as nat) + edges_of(aig, (n - 1) as usize)
    }
}

/// The combinational edges into a pin.
pub open spec fn edges_of(aig: AIG, u: usize) -> Seq<(usize, usize)> {
    Seq::new(aig.fanin(u).len(), |k: int| (aig.fanin(u)[k], u))
}

/// Where the first `n` edges from a pin lead.
pub open spec fn targets(edges: Seq<(usize, usize)>, n: nat, src: usize) -> Seq<usize>
    decreases n,
{
    if n == 0 {
        Seq::empty()
    } else {
        let rest = targets(edges, (n - 1) as nat, src);
        if edges[n - 1].0 == src {
            rest.push(edges[n - 1].1)
        } else {
            rest
        }
    }
}

/// The number of the first `n` edges that come from pins below `x`.
pub open spec fn edges_below(edges: Seq<(usize, usize)>, n: nat, x: nat) -> nat
    decreases x,
{
    if x == 0 {
        0
    } else {
        edges_below(edges, n, (x - 1) as nat) + targets(edges, n, (x - 1) as usize).len()
    }
}

/// Do the arrays list the pins that depend on each pin, the last one first?
pub open spec fn fanouts_ok(aig: AIG, start: Seq<usize>, items: Seq<usize>) -> bool {
    let edges = edges_into(aig, aig.drivers@.len());
    &&& start.len() == aig.num_aigpins + 2
    &&& items.len() == edges.len()
    &&& start[0] == 0
    &&& start[aig.num_aigpins + 1] == items.len()
    &&& forall|src: usize| src <= aig.num_aigpins ==> #[trigger] has_slice(start, items, src)
    &&& forall|src: usize|
        src <= aig.num_aigpins ==> #[trigger] slice_of(start, items, src) == targets(
            edges,
            edges.len(),
            src,
        ).reverse()
}

/// Does a part of the array belong to a pin?
pub open spec fn has_slice(start: Seq<usize>, items: Seq<usize>, src: usize) -> bool {
    start[src as int] <= start[src + 1] <= items.len()
}

/// The part of the array that belongs to a pin.
pub open spec fn slice_of(start: Seq<usize>, items: Seq<usize>, src: usize) -> Seq<usize> {
    items.subrange(start[src as int] as int, start[src + 1] as int)
}

proof fn lemma_targets_grow(edges: Seq<(usize, usize)>, m: nat, n: nat, src: usize)
    requires
        m <= n,
    ensures
        targets(edges, m, src).len() <= targets(edges, n, src).len(),
        m < n && edges[m as int].0 == src ==> targets(edges, m, src).len() < targets(edges, n, src).len(),
    decreases n,
{
    if m < n {
        lemma_targets_grow(edges, m, (n - 1) as nat, src);
    }
}

proof fn lemma_below_grows(edges: Seq<(usize, usize)>, n: nat, x: nat, y: nat)
    requires
        x <= y,
    ensures
        edges_below(edges, n, x) <= edges_below(edges, n, y),
    decreases y,
{
    if x < y {
        lemma_below_grows(edges, n, x, (y - 1) as nat);
    }
}

proof fn lemma_below_step(edges: Seq<(usize, usize)>, n: nat, x: nat)
    requires
        n < edges.len(),
        x <= usize::MAX + 1,
    ensures
        edges_below(edges, n + 1, x) == edges_below(edges, n, x) + (if edges[n as int].0 < x {
            1nat
        } else {
            0nat
        }),
    decreases x,
{
    if x > 0 {
        lemma_below_step(edges, n, (x - 1) as nat);
    }
}

/// Every edge comes from a pin.
proof fn lemma_below_all(edges: Seq<(usize, usize)>, n: nat, x: nat)
    requires
        n <= edges.len(),
        x <= usize::MAX + 1,
        forall|k: int| 0 <= k < edges.len() ==> (#[trigger] edges[k]).0 < x,
    ensures
        edges_below(edges, n, x) == n,
    decreases n,
{
    if n > 0 {
        lemma_below_all(edges, (n - 1) as nat, x);
        lemma_below_step(edges, (n - 1) as nat, x);
        assert(edges[n - 1].0 < x);
    } else {
        lemma_below_none(edges, x);
    }
}

proof fn lemma_below_none(edges: Seq<(usize, usize)>, x: nat)
    ensures
        edges_below(edges, 0, x) == 0,
    decreases x,
{
    if x > 0 {
        lemma_below_none(edges, (x - 1) as nat);
    }
}

/// Lists all combinational edges.
fn list_edges(aig: &AIG) -> (edges: Vec<(usize, usize)>)
    requires
        aig.walkable(),
    ensures
        edges@ == edges_into(*aig, aig.drivers@.len()),
        forall|k: int| 0 <= k < edges@.len() ==> (#[trigger] edges@[k]).0 <= aig.num_aigpins,
{
    let n = aig.drivers.len();
    let mut edges: Vec<(usize, usize)> = Vec::new();
    let mut u: usize = 0;
    while u < n
        invariant
            aig.walkable(),
            n == aig.drivers@.len(),
            u <= n,
            edges@ == edges_into(*aig, u as nat),
            forall|k: int| 0 <= k < edges@.len() ==> (#[trigger] edges@[k]).0 <= aig.num_aigpins,
        decreases n - u,
    {
        let ghost e0 = edges@;
        let pins = aig.fanin_pins(u);
        let mut k: usize = 0;
        while k < pins.len()
            invariant
                aig.walkable(),
                u < aig.drivers@.len(),
                pins@ == aig.fanin(u),
                k <= pins@.len(),
                edges@ == e0 + edges_of(*aig, u).take(k as int),
                forall|k: int| 0 <= k < edges@.len() ==> (#[trigger] edges@[k]).0 <= aig.num_aigpins,
            decreases pins@.len() - k,
        {
            assert(aig.fanin(u).contains(pins@[k as int]));
            edges.push((pins[k], u));
            assert(edges@ =~= e0 + edges_of(*aig, u).take(k + 1));
            k += 1;
        }
        assert(edges_of(*aig, u).take(pins@.len() as int) =~= edges_of(*aig, u));
        u += 1;
    }
    edges
}

/// Counts the edges from each pin, and sums the counts up.
fn count_edges(edges: &Vec<(usize, usize)>, num_aigpins: usize) -> (start: Vec<usize>)
    requires
        num_aigpins <= usize::MAX - 2,
        forall|k: int| 0 <= k < edges@.len() ==> (#[trigger] edges@[k]).0 <= num_aigpins,
    ensures
        start@.len() == num_aigpins + 2,
        forall|i: int|
            0 <= i < start@.len() ==> #[trigger] start@[i] == edges_below(edges@, edges@.len(), (i + 1) as nat),
{
    let n = edges.len();
    let mut start: Vec<usize> = vec![0usize; num_aigpins + 2];
    let mut k: usize = 0;
    while k < n
        invariant
            n == edges@.len(),
            k <= n,
            start@.len() == num_aigpins + 2,
            forall|k: int| 0 <= k < edges@.len() ==> (#[trigger] edges@[k]).0 <= num_aigpins,
            forall|i: usize|
                i < start@.len() ==> #[trigger] start@[i as int] == targets(edges@, k as nat, i).len(),
            forall|i: int| 0 <= i < start@.len() ==> #[trigger] start@[i] <= k,
        decreases n - k,
    {
        let src = edges[k].0;
        let ghost s0 = start@;
        assert(start@[src as int] <= k);
        start[src] = start[src] + 1;
        proof {
            assert forall|i: usize| i < start@.len() implies #[trigger] start@[i as int] == targets(
                edges@,
                (k + 1) as nat,
                i,
            ).len() by {
                assert(s0[i as int] == targets(edges@, k as nat, i).len());
            }
        }
        k += 1;
    }
    let ghost counts = start@;
    let mut i: usize = 1;
    proof {
        assert(edges_below(edges@, n as nat, 0) == 0);
        assert(counts[0usize as int] == targets(edges@, n as nat, 0).len());
        assert(edges_below(edges@, n as nat, 1) == edges_below(edges@, n as nat, 0) + targets(
            edges@,
            n as nat,
            0,
        ).len());
    }
    while i < num_aigpins + 2
        invariant
            n == edges@.len(),
            1 <= i <= num_aigpins + 2,
            num_aigpins <= usize::MAX - 2,
            start@.len() == num_aigpins + 2,
            counts.len() == num_aigpins + 2,
            forall|k: int| 0 <= k < edges@.len() ==> (#[trigger] edges@[k]).0 <= num_aigpins,
            forall|j: usize|
                j < counts.len() ==> #[trigger] counts[j as int] == targets(edges@, n as nat, j).len(),
            forall|j: int| i <= j < start@.len() ==> #[trigger] start@[j] == counts[j],
            forall|j: int| 0 <= j < i ==> #[trigger] start@[j] == edges_below(edges@, n as nat, (j + 1) as nat),
        decreases num_aigpins + 2 - i,
    {
        proof {
            assert(start@[i - 1] == edges_below(edges@, n as nat, i as nat));
            assert(counts[i as int] == targets(edges@, n as nat, i).len());
            assert(edges_below(edges@, n as nat, (i + 1) as nat) == start@[i - 1] + counts[i as int]);
            lemma_below_grows(edges@, n as nat, (i + 1) as nat, (num_aigpins + 2) as nat);
            lemma_below_all(edges@, n as nat, (num_aigpins + 2) as nat);
        }
        start[i] = start[i] + start[i - 1];
        i += 1;
    }
    start
}

/// Lists the pins that depend on each pin.
pub fn build_fanouts(aig: &AIG) -> (r: (Vec<usize>, Vec<usize>))
    requires
        aig.walkable(),
    ensures
        fanouts_ok(*aig, r.0@, r.1@),
{
    let edges = list_edges(aig);
    let ghost es = edges@;
    let n = edges.len();
    let np = aig.num_aigpins;
    let mut start = count_edges(&edges, np);
    let ghost ends = start@;
    proof {
        lemma_below_all(es, n as nat, (np + 2) as nat);
        assert(ends[np + 1] == edges_below(es, n as nat, (np + 2) as nat));
    }
    let mut items: Vec<usize> = vec![0usize; n];
    let mut k: usize = 0;
    while k < n
        invariant
            es == edges@,
            n == es.len(),
            k <= n,
            np <= usize::MAX - 2,
            start@.len() == np + 2,
            ends.len() == np + 2,
            items@.len() == n,
            forall|k: int| 0 <= k < es.len() ==> (#[trigger] es[k]).0 <= np,
            forall|i: int| 0 <= i < ends.len() ==> #[trigger] ends[i] == edges_below(es, n as nat, (i + 1) as nat),
            ends[np + 1] == n,
            forall|i: usize|
                i < start@.len() ==> #[trigger] start@[i as int] == ends[i as int] - targets(es, k as nat, i).len(),
            forall|i: usize, j: int|
                i < start@.len() && 0 <= j < targets(es, k as nat, i).len() ==> items@[ends[i as int] - 1 - j]
                    == #[trigger] targets(es, k as nat, i)[j],
        decreases n - k,
    {
        let (src, u) = edges[k];
        let ghost s0 = start@;
        let ghost i0 = items@;
        assert(es[k as int].0 <= np);
        proof {
            lemma_targets_grow(es, k as nat, n as nat, src);
            assert(s0[src as int] == ends[src as int] - targets(es, k as nat, src).len());
            assert(ends[src as int] == edges_below(es, n as nat, (src + 1) as nat));
            assert(edges_below(es, n as nat, (src + 1) as nat) == edges_below(es, n as nat, src as nat) + targets(
                es,
                n as nat,
                src,
            ).len());
            lemma_below_grows(es, n as nat, (src + 1) as nat, (np + 2) as nat);
        }
        let st = start[src] - 1;
        start[src] = st;
        items[st] = u;
        proof {
            assert forall|i: usize| i < start@.len() implies #[trigger] start@[i as int] == ends[i as int] - targets(
                es,
                (k + 1) as nat,
                i,
            ).len() by {
                assert(s0[i as int] == ends[i as int] - targets(es, k as nat, i).len());
            }
            assert forall|i: usize, j: int|
                i < start@.len() && 0 <= j < targets(es, (k + 1) as nat, i).len() implies items@[ends[i as int] - 1 - j]
                == #[trigger] targets(es, (k + 1) as nat, i)[j] by {
                let t0 = targets(es, k as nat, i);
                let t1 = targets(es, (k + 1) as nat, i);
                if j < t0.len() {
                    assert(t1[j] == t0[j]);
                    let at = ends[i as int] - 1 - j;
                    assert(i0[at] == t0[j]);
                    lemma_targets_grow(es, k as nat, n as nat, i);
                    lemma_below_grows(es, n as nat, (i + 1) as nat, (np + 2) as nat);
                    assert(edges_below(es, n as nat, (np + 2) as nat) == ends[np + 1]);
                    assert(ends[i as int] == edges_below(es, n as nat, i as nat) + targets(es, n as nat, i).len());
                    assert(0 <= at < n);
                    // Another entry was written.
                    if i < src {
                        assert(ends[i as int] == edges_below(es, n as nat, (i + 1) as nat));
                        lemma_below_grows(es, n as nat, (i + 1) as nat, src as nat);
                    } else if i > src {
                        lemma_targets_grow(es, k as nat, n as nat, i);
                        assert(ends[i as int] == edges_below(es, n as nat, i as nat) + targets(es, n as nat, i).len());
                        lemma_below_grows(es, n as nat, (src + 1) as nat, i as nat);
                    }
                    assert(at != st);
                } else {
                    assert(i == src);
                    assert(t1[j] == u);
                    assert(st == ends[i as int] - 1 - j);
                }
            }
        }
        k += 1;
    }
    proof {
        assert forall|src: usize| src <= np implies #[trigger] slice_at(es, n as nat, start@, src) by {
            assert(ends[src as int] == edges_below(es, n as nat, (src + 1) as nat));
            assert(start@[src as int] == ends[src as int] - targets(es, n as nat, src).len());
            let next = (src + 1) as usize;
            assert(ends[next as int] == edges_below(es, n as nat, (next + 1) as nat));
            assert(start@[next as int] == ends[next as int] - targets(es, n as nat, next).len());
        }
        assert(start@[0int] == edges_below(es, n as nat, 0)) by {
            assert(slice_at(es, n as nat, start@, 0));
        }
        assert(start@[np + 1] == n) by {
            let last = (np + 1) as usize;
            assert(start@[last as int] == ends[last as int] - targets(es, n as nat, last).len());
            lemma_no_targets(es, n as nat, last);
        }
        assert forall|src: usize| src <= np implies #[trigger] has_slice(start@, items@, src) by {
            assert(slice_at(es, n as nat, start@, src));
            lemma_below_grows(es, n as nat, src as nat, (src + 1) as nat);
            lemma_below_grows(es, n as nat, (src + 1) as nat, (np + 2) as nat);
        }
        assert forall|src: usize| src <= np implies #[trigger] slice_of(start@, items@, src) == targets(
            es,
            es.len(),
            src,
        ).reverse() by {
            let t = targets(es, n as nat, src);
            let s = slice_of(start@, items@, src);
            assert(has_slice(start@, items@, src));
            assert(slice_at(es, n as nat, start@, src));
            assert(start@[src + 1] == ends[src as int]);
            assert(start@[src as int] == ends[src as int] - t.len());
            assert forall|x: int| 0 <= x < s.len() implies s[x] == t.reverse()[x] by {
                let j = t.len() - 1 - x;
                assert(items@[ends[src as int] - 1 - j] == t[j]);
            }
            assert(s =~= t.reverse());
        }
    }
    (start, items)
}

/// Does the part that belongs to a pin hold as many entries as there are edges?
spec fn slice_at(edges: Seq<(usize, usize)>, n: nat, start: Seq<usize>, src: usize) -> bool {
    start[src as int] == edges_below(edges, n, src as nat) && start[src + 1] == edges_below(
        edges,
        n,
        (src + 1) as nat,
    )
}

/// No edge comes from a pin that does not exist.
proof fn lemma_no_targets(edges: Seq<(usize, usize)>, n: nat, x: usize)
    requires
        n <= edges.len(),
        forall|k: int| 0 <= k < edges.len() ==> (#[trigger] edges[k]).0 < x,
    ensures
        targets(edges, n, x).len() == 0,
    decreases n,
{
    if n > 0 {
        lemma_no_targets(edges, (n - 1) as nat, x);
        assert(edges[n - 1].0 < x);
    }
}

/// Is there an edge between the pins?
spec fn has_edge(edges: Seq<(usize, usize)>, src: usize, u: usize) -> bool {
    exists|k: int| 0 <= k < edges.len() && #[trigger] edges[k] == (src, u)
}

proof fn lemma_edges_into(aig: AIG, n: nat, src: usize, u: usize)
    requires
        n <= usize::MAX,
    ensures
        has_edge(edges_into(aig, n), src, u) <==> u < n && aig.fanin(u).contains(src),
    decreases n,
{
    if n > 0 {
        lemma_edges_into(aig, (n - 1) as nat, src, u);
        let rest = edges_into(aig, (n - 1) as nat);
        let last = edges_of(aig, (n - 1) as usize);
        let all = edges_into(aig, n);
        if has_edge(all, src, u) {
            let k = choose|k: int| 0 <= k < all.len() && #[trigger] all[k] == (src, u);
            if k < rest.len() {
                assert(rest[k] == (src, u));
            } else {
                assert(last[k - rest.len()] == (src, u));
                assert(aig.fanin(u)[k - rest.len()] == src);
            }
        }
        if has_edge(rest, src, u) {
            let k = choose|k: int| 0 <= k < rest.len() && #[trigger] rest[k] == (src, u);
            assert(all[k] == (src, u));
        }
        if u == n - 1 && aig.fanin(u).contains(src) {
            let k = aig.fanin(u).index_of(src);
            assert(last[k] == (src, u));
            assert(all[rest.len() + k] == (src, u));
        }
    }
}

proof fn lemma_targets_of(edges: Seq<(usize, usize)>, n: nat, src: usize, u: usize)
    requires
        n <= edges.len(),
    ensures
        targets(edges, n, src).contains(u) <==> has_edge(edges.take(n as int), src, u),
    decreases n,
{
    if n > 0 {
        lemma_targets_of(edges, (n - 1) as nat, src, u);
        let rest = targets(edges, (n - 1) as nat, src);
        let all = targets(edges, n, src);
        let before = edges.take(n - 1);
        let now = edges.take(n as int);
        let e = edges[n - 1];
        assert(e == (e.0, e.1));
        if has_edge(now, src, u) {
            let k = choose|k: int| 0 <= k < now.len() && #[trigger] now[k] == (src, u);
            if k < n - 1 {
                assert(before[k] == (src, u));
            }
        }
        if has_edge(before, src, u) {
            let k = choose|k: int| 0 <= k < before.len() && #[trigger] before[k] == (src, u);
            assert(now[k] == (src, u));
        }
        if e == (src, u) {
            assert(now[n - 1] == (src, u));
            assert(all[rest.len() as int] == u);
        }
        if rest.contains(u) {
            assert(all[rest.index_of(u)] == u);
        }
        if all.contains(u) {
            let k = all.index_of(u);
            if k < rest.len() {
                assert(rest[k] == u);
            }
        }
    }
}

/// Fan-outs are fan-ins turned around: a pin is in the slice of another one if and only if
/// it depends on it.
pub proof fn law_fanouts_turn_fanins(nl: Netlist, aig: AIG, src: usize, u: usize)
    requires
        is_graph_of(nl, aig),
        aig.drivers@.len() <= usize::MAX,
        src <= aig.num_aigpins,
    ensures
        0 <= aig.fanouts_start@[src as int] <= aig.fanouts_start@[src + 1] <= aig.fanouts@.len(),
        aig.fanouts@.subrange(
            aig.fanouts_start@[src as int] as int,
            aig.fanouts_start@[src + 1] as int,
        ).contains(u) <==> u < aig.drivers@.len() && aig.fanin(u).contains(src),
{
    let edges = edges_into(aig, aig.drivers@.len());
    let slice = slice_of(aig.fanouts_start@, aig.fanouts@, src);
    let all = targets(edges, edges.len(), src);
    assert(has_slice(aig.fanouts_start@, aig.fanouts@, src));
    assert(slice == all.reverse());
    assert(edges.take(edges.len() as int) =~= edges);
    lemma_targets_of(edges, edges.len(), src, u);
    lemma_edges_into(aig, aig.drivers@.len(), src, u);
    if all.contains(u) {
        let k = all.index_of(u);
        assert(slice[all.len() - 1 - k] == u);
    }
    if slice.contains(u) {
        let k = slice.index_of(u);
        assert(all[all.len() - 1 - k] == u);
    }
}

/// Values come from fan-ins: two valuations that agree on the fan-in of an and gate agree
/// on its output.
pub proof fn law_fanin_decides_gates(
    aig: AIG,
    x: spec_fn(usize) -> bool,
    y: spec_fn(usize) -> bool,
    u: usize,
)
    requires
        is_valuation(aig, x),
        is_valuation(aig, y),
        u < aig.drivers@.len(),
        aig.drivers@[u as int] is AndGate,
        forall|w: usize| #[trigger] aig.fanin(u).contains(w) ==> x(w) == y(w),
    ensures
        x(u) == y(u),
{
    if let DriverType::AndGate(a, b) = aig.drivers@[u as int] {
        let s = seq![(a / 2) as usize, (b / 2) as usize];
        assert(s[0] == a / 2 && s[1] == b / 2);
        lemma_nonzero_has(s, (a / 2) as usize);
        lemma_nonzero_has(s, (b / 2) as usize);
        assert(aig.fanin(u) == nonzero(s));
        assert(x((a / 2) as usize) == y((a / 2) as usize));
        assert(x((b / 2) as usize) == y((b / 2) as usize));
    }
}

/// An output of a macro depends on the pins at the inputs that it is computed from, and
/// what is there when a cycle starts depends on nothing: neither inputs nor registers nor
/// memories have fan-in.
pub proof fn law_fanin_of_other_pins(aig: AIG, u: usize, w: usize)
    ensures
        aig.drivers@[u as int] matches DriverType::Macro(c, slot) ==> aig.macros.has(c) ==> (aig.fanin(u).contains(w)
            <==> w != 0 && exists|s: usize|
            aig.macros.at(c).kind.spec_comb_fanin(slot).contains(s) && #[trigger] aig.macros.at(c).inputs@[s as int]
                / 2 == w),
        !(aig.drivers@[u as int] is AndGate) && !(aig.drivers@[u as int] is Macro) ==> aig.fanin(u).len() == 0,
        aig.drivers@[u as int] matches DriverType::AndGate(a, b) ==> (aig.fanin(u).contains(w) <==> w != 0 && (a / 2
            == w || b / 2 == w)),
{
    match aig.drivers@[u as int] {
        DriverType::Macro(c, slot) => {
            law_outputs_follow_slots(aig.macros.at(c), slot, w);
        },
        DriverType::AndGate(a, b) => {
            let s = seq![(a / 2) as usize, (b / 2) as usize];
            assert(s[0] == a / 2 && s[1] == b / 2);
            lemma_nonzero_has(s, w);
        },
        _ => {},
    }
}

} // verus!
