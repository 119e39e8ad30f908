//! And-inverter graphs.
//!
//! A literal is an AIG pin index with an inversion bit behind it; literals 0
//! and 1 are the constants. Names that end in `iv` hold literals.

use crate::collections::{
    gate_get, gate_insert, gate_view, set_at, set_contains, set_insert, set_items, set_len, set_new, Table,
};
use crate::macros::{lemma_comb_slots_in_range, MacroInst};
use indexmap::{IndexMap, IndexSet};
use vstd::prelude::*;

verus! {

/// A D flip-flop.
#[derive(Debug, Clone, Copy, PartialEq, Eq, Structural)]
pub struct DFF {
    /// The D input pin with invert.
    pub d_iv: usize,
    /// If the DFF is enabled, i.e., if the clock, S, or R is active.
    pub en_iv: usize,
    /// The Q pin output, without invert.
    pub q: usize,
}

impl Default for DFF {
    fn default() -> (d: DFF)
        ensures
            d == (DFF { d_iv: 0, en_iv: 0, q: 0 }),
    {
        DFF { d_iv: 0, en_iv: 0, q: 0 }
    }
}

/// A ram block resembling the interface of `$__RAMGEM_SYNC_`.
#[derive(Debug, Clone, Copy)]
pub struct RAMBlock {
    pub port_r_addr_iv: [usize; 13],
    /// controls whether r_rd_data should update. (from read clock)
    pub port_r_en_iv: usize,
    pub port_r_rd_data: [usize; 32],
    pub port_w_addr_iv: [usize; 13],
    /// controls whether memory should be updated: a combination of write
    /// enable and write clock.
    pub port_w_wr_en_iv: [usize; 32],
    pub port_w_wr_data_iv: [usize; 32],
}

impl RAMBlock {
    /// A block with every port tied to zero.
    pub fn new() -> (r: RAMBlock)
        ensures
            r.port_r_en_iv == 0,
            forall|i: int| 0 <= i < 13 ==> #[trigger] r.port_r_addr_iv@[i] == 0,
            forall|i: int| 0 <= i < 13 ==> #[trigger] r.port_w_addr_iv@[i] == 0,
            forall|i: int| 0 <= i < 32 ==> #[trigger] r.port_r_rd_data@[i] == 0,
            forall|i: int| 0 <= i < 32 ==> #[trigger] r.port_w_wr_en_iv@[i] == 0,
            forall|i: int| 0 <= i < 32 ==> #[trigger] r.port_w_wr_data_iv@[i] == 0,
    {
        RAMBlock {
            port_r_addr_iv: [0; 13],
            port_r_en_iv: 0,
            port_r_rd_data: [0; 32],
            port_w_addr_iv: [0; 13],
            port_w_wr_en_iv: [0; 32],
            port_w_wr_data_iv: [0; 32],
        }
    }
}

impl Default for RAMBlock {
    fn default() -> (r: RAMBlock)
        ensures
            r.port_r_en_iv == 0,
            forall|i: int| 0 <= i < 13 ==> #[trigger] r.port_r_addr_iv@[i] == 0,
            forall|i: int| 0 <= i < 13 ==> #[trigger] r.port_w_addr_iv@[i] == 0,
            forall|i: int| 0 <= i < 32 ==> #[trigger] r.port_r_rd_data@[i] == 0,
            forall|i: int| 0 <= i < 32 ==> #[trigger] r.port_w_wr_en_iv@[i] == 0,
            forall|i: int| 0 <= i < 32 ==> #[trigger] r.port_w_wr_data_iv@[i] == 0,
    {
        RAMBlock::new()
    }
}

/// A type of endpoint group: a primary output-related pin, a D flip-flop, a
/// ram block or a stateful macro.
///
/// A group means a task for the partition to complete. For primary output
/// pins, the task is just to store. For DFFs, the task is to store only when
/// the clock is enabled. For RAMBlocks, the task is to simulate a sync SRAM. A
/// StagedIOPin indicates a temporary live pin between different major stages
/// of the same simulated cycle.
#[derive(Debug, Copy, Clone)]
pub enum EndpointGroup<'i> {
    PrimaryOutput(usize),
    DFF(&'i DFF),
    RAMBlock(&'i RAMBlock),
    /// A stateful word-level macro: compute the next state and commit it under
    /// the macro's clock enable.
    Macro(&'i MacroInst),
    StagedIOPin(usize),
}

/// The nonzero pins of a sequence of pins.
pub open spec fn nonzero(s: Seq<usize>) -> Seq<usize>
    decreases s.len(),
{
    if s.len() == 0 {
        Seq::empty()
    } else {
        let rest = nonzero(s.drop_last());
        if s.last() != 0 {
            rest.push(s.last())
        } else {
            rest
        }
    }
}

/// Nonzero pins are among the pins.
pub(crate) proof fn lemma_nonzero(s: Seq<usize>, w: usize)
    requires
        nonzero(s).contains(w),
    ensures
        s.contains(w),
        w != 0,
    decreases s.len(),
{
    if s.len() > 0 {
        let rest = nonzero(s.drop_last());
        let i = nonzero(s).index_of(w);
        if i < rest.len() {
            assert(rest[i] == w);
            lemma_nonzero(s.drop_last(), w);
            let k = s.drop_last().index_of(w);
            assert(s[k] == w);
        } else {
            assert(s[s.len() - 1] == w);
        }
    }
}

/// The pins of an SRAM's inputs: the read enable, then the two addresses bit
/// by bit, then write enables and write data bit by bit.
pub open spec fn ram_pins(r: RAMBlock) -> Seq<usize> {
    Seq::new(
        91,
        |k: int|
            if k == 0 {
                r.port_r_en_iv / 2
            } else if k < 27 {
                if (k - 1) % 2 == 0 {
                    r.port_r_addr_iv@[(k - 1) / 2] / 2
                } else {
                    r.port_w_addr_iv@[(k - 1) / 2] / 2
                }
            } else {
                if (k - 27) % 2 == 0 {
                    r.port_w_wr_en_iv@[(k - 27) / 2] / 2
                } else {
                    r.port_w_wr_data_iv@[(k - 27) / 2] / 2
                }
            },
    )
}

impl<'i> EndpointGroup<'i> {
    /// The input pins of a group, constants left out.
    pub open spec fn input_pins(self) -> Seq<usize> {
        match self {
            EndpointGroup::PrimaryOutput(idx) => nonzero(seq![(idx / 2) as usize]),
            EndpointGroup::DFF(dff) => nonzero(seq![(dff.en_iv / 2) as usize, (dff.d_iv / 2) as usize]),
            EndpointGroup::RAMBlock(ram) => nonzero(ram_pins(*ram)),
            EndpointGroup::Macro(m) => m.state_pins(),
            EndpointGroup::StagedIOPin(idx) => nonzero(seq![idx]),
        }
    }

    /// The slots that a macro group reads exist.
    pub open spec fn wf(self) -> bool {
        self matches EndpointGroup::Macro(m) ==> m.wf()
    }

    /// All AIG pins that are inputs of this endpoint group. There may be
    /// duplicates.
    pub fn for_each_input(self) -> (pins: Vec<usize>)
        requires
            self.wf(),
        ensures
            pins@ == self.input_pins(),
    {
        let mut all: Vec<usize> = Vec::new();
        match self {
            EndpointGroup::PrimaryOutput(idx) => {
                all.push(idx / 2);
                assert(all@ =~= seq![(idx / 2) as usize]);
            },
            EndpointGroup::DFF(dff) => {
                all.push(dff.en_iv / 2);
                all.push(dff.d_iv / 2);
                assert(all@ =~= seq![(dff.en_iv / 2) as usize, (dff.d_iv / 2) as usize]);
            },
            EndpointGroup::RAMBlock(ram) => {
                all.push(ram.port_r_en_iv / 2);
                let mut i: usize = 0;
                while i < 13
                    invariant
                        i <= 13,
                        all@ =~= ram_pins(*ram).take(1 + 2 * i),
                    decreases 13 - i,
                {
                    all.push(ram.port_r_addr_iv[i] / 2);
                    all.push(ram.port_w_addr_iv[i] / 2);
                    i += 1;
                }
                let mut j: usize = 0;
                while j < 32
                    invariant
                        j <= 32,
                        all@ =~= ram_pins(*ram).take(27 + 2 * j),
                    decreases 32 - j,
                {
                    all.push(ram.port_w_wr_en_iv[j] / 2);
                    all.push(ram.port_w_wr_data_iv[j] / 2);
                    j += 1;
                }
                assert(all@ =~= ram_pins(*ram));
            },
            EndpointGroup::Macro(m) => {
                return m.for_each_state_fanin();
            },
            EndpointGroup::StagedIOPin(idx) => {
                all.push(idx);
                assert(all@ =~= seq![idx]);
            },
        }
        drop_zeros(&all)
    }
}

fn drop_zeros(v: &Vec<usize>) -> (r: Vec<usize>)
    ensures
        r@ == nonzero(v@),
{
    let mut r: Vec<usize> = Vec::new();
    let mut i: usize = 0;
    while i < v.len()
        invariant
            i <= v.len(),
            r@ == nonzero(v@.take(i as int)),
        decreases v.len() - i,
    {
        assert(v@.take(i + 1).drop_last() =~= v@.take(i as int));
        if v[i] != 0 {
            r.push(v[i]);
        }
        i += 1;
    }
    assert(v@.take(v@.len() as int) =~= v@);
    r
}

/// The driver type of an AIG pin.
#[derive(Debug, Clone, Copy, PartialEq, Eq, Structural)]
pub enum DriverType {
    /// Driven by an and gate of two literals.
    AndGate(usize, usize),
    /// Driven by a primary input port (with its netlist pin).
    InputPort(usize),
    /// Driven by a clock flag (with clock port pin, and pos/negedge)
    InputClockFlag(usize, u8),
    /// Driven by a DFF (with its cell)
    DFF(usize),
    /// Driven by a 13-bit by 32-bit RAM block (with its cell)
    SRAM(usize),
    /// Driven by an output of a word-level macro (cell id, output slot).
    Macro(usize, usize),
    /// Tied to zero. Only the 0-th aig pin has this.
    Tie0,
}

/// An and-inverter graph.
pub struct AIG {
    /// The number of AIG pins, numbered from 1. The AIG pin id 0 is tied to 0.
    pub num_aigpins: usize,
    /// The literal of each netlist pin; `usize::MAX` where there is none.
    pub pin2aigpin_iv: Vec<usize>,
    /// The clock pins. Every clock pin has a pair of flag pins for its
    /// positive and negative edge; a flag that is not used is `usize::MAX`.
    pub clock_pin2aigpins: Table<(usize, usize)>,
    /// The driver types of AIG pins.
    pub drivers: Vec<DriverType>,
    /// A cache for identical and gates.
    pub and_gate_cache: IndexMap<(usize, usize), usize>,
    /// Unique primary output literals
    pub primary_outputs: IndexSet<usize>,
    /// The D flip-flops, by cell id
    pub dffs: Table<DFF>,
    /// The SRAMs, by cell id
    pub srams: Table<RAMBlock>,
    /// The natively evaluated word-level macros, by cell id.
    pub macros: Table<MacroInst>,
    /// Positions within `macros` of the macros that appear as endpoint groups,
    /// ascending.
    pub stateful_macros: Vec<usize>,
    /// Macro output pin to position within `macros` of the macro that drives it.
    pub aigpin2macro: IndexMap<usize, usize>,
    /// The fanout CSR start array.
    pub fanouts_start: Vec<usize>,
    /// The fanout CSR array.
    pub fanouts: Vec<usize>,
}

/// The opposite literal.
pub open spec fn spec_invert(iv: usize) -> usize {
    if iv % 2 == 0 {
        (iv + 1) as usize
    } else {
        (iv - 1) as usize
    }
}

/// The opposite literal.
pub fn invert(iv: usize) -> (r: usize)
    ensures
        r == spec_invert(iv),
{
    if iv % 2 == 0 {
        iv + 1
    } else {
        iv - 1
    }
}

/// The literal, inverted if the flag says so.
pub open spec fn flip(iv: usize, inverted: bool) -> usize {
    if inverted {
        spec_invert(iv)
    } else {
        iv
    }
}

/// Does the netlist pin with this literal have a value in the graph? Pins that
/// carry a gated clock have none.
pub open spec fn defined(iv: usize) -> bool {
    iv / 2 != usize::MAX / 2
}

/// Is `o` the literal of the conjunction of `a` and `b`?
///
/// Constants are folded; any other conjunction is the one pin that is driven
/// by an and gate of the two literals, the smaller one first.
pub open spec fn and_lit(drivers: Seq<DriverType>, a: usize, b: usize, o: usize) -> bool {
    if a == 0 || b == 0 {
        o == 0
    } else if a == 1 {
        o == b
    } else if b == 1 {
        o == a
    } else {
        o % 2 == 0 && o / 2 < drivers.len() && drivers[(o / 2) as int] == (if a < b {
            DriverType::AndGate(a, b)
        } else {
            DriverType::AndGate(b, a)
        })
    }
}

/// The drivers with the given one among them, and its literal: it is the one
/// that is there, or else a new one at the end.
pub open spec fn with_driver(drivers: Seq<DriverType>, driver: DriverType) -> (Seq<DriverType>, usize) {
    if drivers.contains(driver) {
        (drivers, (drivers.index_of(driver) * 2) as usize)
    } else {
        (drivers.push(driver), (drivers.len() * 2) as usize)
    }
}

/// The drivers with one for a conjunction, where it takes any, and the literal
/// of the conjunction.
pub open spec fn with_and(drivers: Seq<DriverType>, a: usize, b: usize) -> (Seq<DriverType>, usize) {
    if a == 0 || b == 0 {
        (drivers, 0)
    } else if a == 1 {
        (drivers, b)
    } else if b == 1 {
        (drivers, a)
    } else if a < b {
        with_driver(drivers, DriverType::AndGate(a, b))
    } else {
        with_driver(drivers, DriverType::AndGate(b, a))
    }
}

/// The most pins that a graph may have: a literal and its successor stay
/// below `usize::MAX`.
pub const MAX_AIGPINS: usize = usize::MAX / 4;

impl AIG {
    /// The drivers of the pins, in topological order as far as and gates are
    /// concerned.
    pub open spec fn drivers_wf(self) -> bool {
        &&& self.drivers@.len() == self.num_aigpins + 1
        &&& self.num_aigpins <= MAX_AIGPINS
        &&& self.drivers@[0] == DriverType::Tie0
        &&& forall|i: int| 1 <= i <= self.num_aigpins ==> #[trigger] self.drivers@[i] != DriverType::Tie0
        &&& forall|i: int|
            0 <= i <= self.num_aigpins ==> (#[trigger] self.drivers@[i] matches DriverType::AndGate(a, b)
                ==> 2 <= a <= b && b / 2 < i)
    }

    /// The cache knows exactly the and gates, so no two of them are alike.
    pub open spec fn cache_wf(self) -> bool {
        &&& forall|a: usize, b: usize|
            #[trigger] gate_view(self.and_gate_cache).contains_key((a, b)) ==> {
                let o = gate_view(self.and_gate_cache)[(a, b)];
                o <= self.num_aigpins && self.drivers@[o as int] == DriverType::AndGate(a, b)
            }
        &&& forall|i: int|
            0 <= i <= self.num_aigpins ==> (#[trigger] self.drivers@[i] matches DriverType::AndGate(a, b)
                ==> gate_view(self.and_gate_cache).contains_key((a, b)) && gate_view(self.and_gate_cache)[(a, b)]
                == i)
    }

    /// Everything but the pins and the cache of gates is the same.
    pub open spec fn same_but_pins(self, other: AIG) -> bool {
        &&& self.pin2aigpin_iv@ == other.pin2aigpin_iv@
        &&& self.clock_pin2aigpins == other.clock_pin2aigpins
        &&& self.primary_outputs == other.primary_outputs
        &&& self.dffs == other.dffs
        &&& self.srams == other.srams
        &&& self.macros == other.macros
        &&& self.stateful_macros == other.stateful_macros
        &&& self.aigpin2macro == other.aigpin2macro
        &&& self.fanouts_start == other.fanouts_start
        &&& self.fanouts == other.fanouts
    }

    /// Adds a pin that is not an and gate. There is `None` when literals run
    /// out.
    pub(crate) fn add_aigpin(&mut self, driver: DriverType) -> (r: Option<usize>)
        requires
            old(self).drivers_wf(),
            old(self).cache_wf(),
            !(driver is AndGate) && !(driver is Tie0),
        ensures
            final(self).drivers_wf(),
            final(self).cache_wf(),
            final(self).same_but_pins(*old(self)),
            r is None <==> old(self).num_aigpins == MAX_AIGPINS,
            r is None ==> final(self).drivers@ == old(self).drivers@,
            r matches Some(o) ==> o == final(self).num_aigpins && final(self).drivers@ == old(self).drivers@.push(
                driver,
            ),
    {
        if self.num_aigpins >= MAX_AIGPINS {
            return None;
        }
        self.num_aigpins = self.num_aigpins + 1;
        self.drivers.push(driver);
        Some(self.num_aigpins)
    }

    /// The literal of the conjunction of two literals, for which a pin is
    /// added if there is none. There is `None` when literals run out.
    pub(crate) fn add_and_gate(&mut self, a: usize, b: usize) -> (r: Option<usize>)
        requires
            old(self).drivers_wf(),
            old(self).cache_wf(),
            a / 2 <= old(self).num_aigpins,
            b / 2 <= old(self).num_aigpins,
        ensures
            final(self).drivers_wf(),
            final(self).cache_wf(),
            final(self).same_but_pins(*old(self)),
            old(self).drivers@.is_prefix_of(final(self).drivers@),
            final(self).num_aigpins <= old(self).num_aigpins + 1,
            forall|i: int|
                old(self).num_aigpins < i <= final(self).num_aigpins ==> #[trigger] final(self).drivers@[i] is AndGate,
            r is None ==> old(self).num_aigpins == MAX_AIGPINS,
            r matches Some(o) ==> and_lit(final(self).drivers@, a, b, o) && o / 2 <= final(self).num_aigpins,
            r is None ==> *final(self) == *old(self),
            (exists|o: usize| #[trigger] and_lit(old(self).drivers@, a, b, o)) ==> r is Some && *final(self)
                == *old(self),
            r matches Some(o) ==> (final(self).drivers@, o) == with_and(old(self).drivers@, a, b),
    {
        let ghost a0 = a;
        let ghost b0 = b;
        if a == 0 || b == 0 {
            return Some(0);
        }
        if a == 1 {
            return Some(b);
        }
        if b == 1 {
            return Some(a);
        }
        let (a, b): (usize, usize) = if a < b {
            (a, b)
        } else {
            (b, a)
        };
        if let Some(o) = gate_get(&self.and_gate_cache, a, b) {
            assert(gate_view(self.and_gate_cache).contains_key((a, b)));
            proof {
                let g = DriverType::AndGate(a, b);
                assert(self.drivers@[o as int] == g);
                assert(self.drivers@.contains(g));
                assert(self.drivers@[self.drivers@.index_of(g)] == g);
            }
            return Some(o * 2);
        }
        proof {
            if exists|o: usize| #[trigger] and_lit(old(self).drivers@, a, b, o) {
                let o = choose|o: usize| #[trigger] and_lit(old(self).drivers@, a, b, o);
                assert(old(self).drivers@[(o / 2) as int] == DriverType::AndGate(a, b));
                assert(false);
            }
            assert forall|o: usize| !#[trigger] and_lit(old(self).drivers@, a0, b0, o) by {
                assert(and_lit(old(self).drivers@, a0, b0, o) ==> and_lit(old(self).drivers@, a, b, o));
            }
        }
        if self.num_aigpins >= MAX_AIGPINS {
            return None;
        }
        self.num_aigpins = self.num_aigpins + 1;
        self.drivers.push(DriverType::AndGate(a, b));
        let aigpin = self.num_aigpins;
        gate_insert(&mut self.and_gate_cache, a, b, aigpin);
        proof {
            assert(self.drivers@[aigpin as int] == DriverType::AndGate(a, b));
            assert forall|i: int| 0 <= i <= self.num_aigpins implies (
            #[trigger] self.drivers@[i] matches DriverType::AndGate(x, y) ==> gate_view(
                self.and_gate_cache,
            ).contains_key((x, y)) && gate_view(self.and_gate_cache)[(x, y)] == i) by {
                if i < self.num_aigpins {
                    assert(self.drivers@[i] == old(self).drivers@[i]);
                }
            }
        }
        Some(aigpin * 2)
    }
}

/// The pins of an optional set.
pub open spec fn pin_set(s: Option<&IndexSet<usize>>) -> Set<usize> {
    match s {
        Some(s) => set_items(*s).to_set(),
        None => Set::empty(),
    }
}

/// A sequence of distinct pins below `n` has at most `n` entries.
pub(crate) proof fn lemma_distinct_len(s: Seq<usize>, n: int)
    requires
        s.no_duplicates(),
        forall|i: int| 0 <= i < s.len() ==> #[trigger] s[i] < n,
    ensures
        s.len() <= n || s.len() == 0,
{
    if s.len() > 0 {
        assert(s[0] < n);
        s.unique_seq_to_set();
        let t = s.to_set().map(|p: usize| p as int);
        vstd::set_lib::lemma_map_size(s.to_set(), t, |p: usize| p as int);
        let all = vstd::set_lib::set_int_range(0, n);
        vstd::set_lib::lemma_int_range(0, n);
        assert forall|x: int| t.contains(x) implies all.contains(x) by {
            let p = choose|p: usize| s.to_set().contains(p) && x == p as int;
            assert(s.contains(p));
        }
        vstd::set_lib::lemma_len_subset(t, all);
    }
}

/// How far a depth-first traversal has come: the pins that it entered, and those
/// that it left, in order.
pub ghost struct Trail {
    pub entered: Set<usize>,
    pub left: Seq<usize>,
}

/// The trail with the given pins entered and left.
pub open spec fn trail_of(entered: Seq<usize>, left: Seq<usize>) -> Trail {
    Trail { entered: entered.to_set(), left }
}

/// Does the rank fall along every combinational edge that traversal follows?
pub open spec fn ranks(aig: AIG, stop: Set<usize>, rank: spec_fn(usize) -> nat) -> bool {
    forall|u: usize, w: usize|
        u <= aig.num_aigpins && !stop.contains(u) && #[trigger] aig.fanin(u).contains(w) ==> rank(w) < rank(u)
}

impl AIG {
    /// The combinational fan-in of a pin, constants left out. Only and gates
    /// and macro outputs that are not state reads have any.
    pub open spec fn fanin(self, u: usize) -> Seq<usize> {
        match self.drivers@[u as int] {
            DriverType::AndGate(a, b) => nonzero(seq![(a / 2) as usize, (b / 2) as usize]),
            DriverType::Macro(cell, slot) => if self.macros.has(cell) {
                self.macros.at(cell).comb_pins(slot)
            } else {
                Seq::empty()
            },
            _ => Seq::empty(),
        }
    }

    /// Macros have all their slots, and every macro driver names one of them.
    pub open spec fn macros_wf(self) -> bool {
        &&& self.macros.wf()
        &&& forall|i: int| 0 <= i < self.macros.vals().len() ==> (#[trigger] self.macros.vals()[i]).wf()
        &&& forall|u: int|
            0 <= u < self.drivers@.len() ==> (#[trigger] self.drivers@[u] matches DriverType::Macro(cell, slot)
                ==> self.macros.has(cell) && slot < self.macros.at(cell).kind.spec_num_outputs())
    }

    /// Fan-in stays within the graph.
    pub open spec fn closed_fanin(self) -> bool {
        forall|u: usize, w: usize|
            u <= self.num_aigpins && #[trigger] self.fanin(u).contains(w) ==> w <= self.num_aigpins
    }

    /// The graph can be walked from any pin.
    pub open spec fn walkable(self) -> bool {
        &&& self.drivers@.len() == self.num_aigpins + 1
        &&& self.num_aigpins <= MAX_AIGPINS
        &&& self.macros_wf()
        &&& self.closed_fanin()
    }

    /// Does the walk go from its pin `i`, which is not in `stop`, to a fan-in?
    pub open spec fn is_step(self, stop: Set<usize>, s: Seq<usize>, i: int) -> bool {
        !stop.contains(s[i]) && self.fanin(s[i]).contains(s[i + 1])
    }

    /// Is this a walk along fan-in edges that does not leave the pins in
    /// `stop`?
    pub open spec fn is_walk(self, stop: Set<usize>, s: Seq<usize>) -> bool {
        &&& s.len() >= 1
        &&& forall|i: int| 0 <= i < s.len() - 1 ==> #[trigger] self.is_step(stop, s, i)
    }

    /// Does `u` depend on `v` through fan-in edges out of pins that are not in
    /// `stop`?
    pub open spec fn reaches(self, stop: Set<usize>, u: usize, v: usize) -> bool {
        exists|s: Seq<usize>| #[trigger] self.is_walk(stop, s) && s[0] == u && s.last() == v
    }

    /// Is there no cycle among the pins that traversal follows?
    pub open spec fn acyclic(self, stop: Set<usize>) -> bool {
        exists|rank: spec_fn(usize) -> nat| #[trigger] ranks(self, stop, rank)
    }

    /// Every pin reaches itself.
    pub(crate) proof fn lemma_reaches_self(self, stop: Set<usize>, u: usize)
        ensures
            self.reaches(stop, u, u),
    {
        assert(self.is_walk(stop, seq![u]));
    }

    /// A walk from a pin leads to pins.
    pub(crate) proof fn lemma_reaches_pins(self, stop: Set<usize>, u: usize, v: usize)
        requires
            self.closed_fanin(),
            u <= self.num_aigpins,
            self.reaches(stop, u, v),
        ensures
            v <= self.num_aigpins,
    {
        let s = choose|s: Seq<usize>| #[trigger] self.is_walk(stop, s) && s[0] == u && s.last() == v;
        self.lemma_walk_pins(stop, s, s.len() - 1);
    }

    proof fn lemma_walk_pins(self, stop: Set<usize>, s: Seq<usize>, i: int)
        requires
            self.closed_fanin(),
            self.is_walk(stop, s),
            s[0] <= self.num_aigpins,
            0 <= i < s.len(),
        ensures
            s[i] <= self.num_aigpins,
        decreases i,
    {
        if i > 0 {
            self.lemma_walk_pins(stop, s, i - 1);
            assert(self.is_step(stop, s, i - 1));
        }
    }

    /// A walk goes on where another one ends.
    pub(crate) proof fn lemma_reaches_trans(self, stop: Set<usize>, u: usize, v: usize, w: usize)
        requires
            self.reaches(stop, u, v),
            self.reaches(stop, v, w),
        ensures
            self.reaches(stop, u, w),
    {
        let a = choose|s: Seq<usize>| #[trigger] self.is_walk(stop, s) && s[0] == u && s.last() == v;
        let s = choose|s: Seq<usize>| #[trigger] self.is_walk(stop, s) && s[0] == v && s.last() == w;
        let all = a + s.subrange(1, s.len() as int);
        assert forall|i: int| 0 <= i < all.len() - 1 implies #[trigger] self.is_step(stop, all, i) by {
            if i < a.len() - 1 {
                assert(self.is_step(stop, a, i));
                assert(all[i] == a[i] && all[i + 1] == a[i + 1]);
            } else {
                let k = i - (a.len() - 1);
                assert(self.is_step(stop, s, k));
                assert(all[i + 1] == s[k + 1]);
                if k == 0 {
                    assert(all[i] == a.last());
                } else {
                    assert(all[i] == s[k]);
                }
            }
        }
        assert(self.is_walk(stop, all));
        assert(all[0] == u);
        assert(all.last() == w) by {
            if s.len() == 1 {
                assert(all =~= a);
            }
        }
    }

    /// A walk can be prolonged at its start.
    pub(crate) proof fn lemma_reaches_step(self, stop: Set<usize>, u: usize, w: usize, v: usize)
        requires
            !stop.contains(u),
            self.fanin(u).contains(w),
            self.reaches(stop, w, v),
        ensures
            self.reaches(stop, u, v),
    {
        let s = choose|s: Seq<usize>| #[trigger] self.is_walk(stop, s) && s[0] == w && s.last() == v;
        let t = seq![u] + s;
        assert forall|i: int| 0 <= i < t.len() - 1 implies #[trigger] self.is_step(stop, t, i) by {
            if i > 0 {
                assert(self.is_step(stop, s, i - 1));
                assert(t[i] == s[i - 1]);
                assert(t[i + 1] == s[i]);
            }
        }
        assert(self.is_walk(stop, t));
        assert(t.last() == v);
    }

    /// What a set of pins that is closed under fan-in contains.
    pub(crate) proof fn lemma_closed_reach(self, stop: Set<usize>, done: Seq<usize>, u: usize, v: usize)
        requires
            done.contains(u),
            self.reaches(stop, u, v),
            forall|x: usize, w: usize|
                done.contains(x) && !stop.contains(x) && #[trigger] self.fanin(x).contains(w) ==> done.contains(w),
        ensures
            done.contains(v),
    {
        let s = choose|s: Seq<usize>| #[trigger] self.is_walk(stop, s) && s[0] == u && s.last() == v;
        self.lemma_closed_walk(stop, done, s, s.len() - 1);
    }

    proof fn lemma_closed_walk(self, stop: Set<usize>, done: Seq<usize>, s: Seq<usize>, k: int)
        requires
            self.is_walk(stop, s),
            done.contains(s[0]),
            0 <= k < s.len(),
            forall|x: usize, w: usize|
                done.contains(x) && !stop.contains(x) && #[trigger] self.fanin(x).contains(w) ==> done.contains(w),
        ensures
            done.contains(s[k]),
        decreases k,
    {
        if k > 0 {
            self.lemma_closed_walk(stop, done, s, k - 1);
            assert(self.is_step(stop, s, k - 1));
            assert(self.fanin(s[k - 1]).contains(s[k]));
        }
    }

    /// The combinational fan-in of a pin.
    pub(crate) fn fanin_pins(&self, u: usize) -> (pins: Vec<usize>)
        requires
            u < self.drivers@.len(),
            self.macros_wf(),
        ensures
            pins@ == self.fanin(u),
    {
        match self.drivers[u] {
            DriverType::AndGate(a, b) => {
                let mut all: Vec<usize> = Vec::new();
                all.push(a / 2);
                all.push(b / 2);
                assert(all@ =~= seq![(a / 2) as usize, (b / 2) as usize]);
                drop_zeros(&all)
            },
            DriverType::Macro(cell, slot) => {
                match self.macros.get(cell) {
                    Some(m) => {
                        proof {
                            self.macros.lemma_wf();
                            assert(self.drivers@[u as int] matches DriverType::Macro(cell, slot));
                            assert(self.macros.keys()[self.macros.slot(cell)] == cell);
                            assert(self.macros.vals()[self.macros.slot(cell)].wf());
                            lemma_comb_slots_in_range(m.kind, slot);
                        }
                        m.for_each_comb_fanin(slot)
                    },
                    None => {
                        Vec::new()
                    },
                }
            },
            _ => {
                assert(self.fanin(u) =~= Seq::<usize>::empty());
                Vec::new()
            },
        }
    }

    /// What the traversal keeps: `vis` holds the pins that were entered, `ret`
    /// those that were left, and the others are on the way to the current one.
    spec fn topo_inv(
        self,
        stop: Set<usize>,
        rank: spec_fn(usize) -> nat,
        vis: Seq<usize>,
        ret: Seq<usize>,
    ) -> bool {
        &&& vis.no_duplicates()
        &&& ret.no_duplicates()
        &&& forall|i: int| 0 <= i < vis.len() ==> #[trigger] vis[i] <= self.num_aigpins
        &&& forall|v: usize| ret.contains(v) ==> #[trigger] vis.contains(v)
        &&& forall|x: usize, w: usize|
            ret.contains(x) && !stop.contains(x) && #[trigger] self.fanin(x).contains(w) ==> vis.contains(w)
        &&& ranks(self, stop, rank) ==> forall|i: int, w: usize|
            0 <= i < ret.len() && !stop.contains(ret[i]) && #[trigger] self.fanin(ret[i]).contains(w)
                ==> ret.take(i).contains(w)
    }

    /// Enters a pin in a depth-first traversal, and leaves it when its fan-in
    /// is left, as long as there is fuel.
    pub open spec fn visit(self, stop: Set<usize>, t: Trail, u: usize, fuel: nat) -> Trail
        decreases fuel, 0nat,
    {
        if t.entered.contains(u) || fuel == 0 {
            t
        } else {
            let inside = Trail { entered: t.entered.insert(u), left: t.left };
            let after = if stop.contains(u) {
                inside
            } else {
                self.visit_all(stop, inside, self.fanin(u), (fuel - 1) as nat)
            };
            Trail { entered: after.entered, left: after.left.push(u) }
        }
    }

    /// Visits pins one after the other.
    pub open spec fn visit_all(self, stop: Set<usize>, t: Trail, pins: Seq<usize>, fuel: nat) -> Trail
        decreases fuel, pins.len() + 1,
    {
        if pins.len() == 0 {
            t
        } else {
            self.visit(stop, self.visit_all(stop, t, pins.drop_last(), fuel), pins.last(), fuel)
        }
    }

    /// The pins at which traversal starts, in order.
    pub open spec fn start_pins(self, endpoints: Option<&Vec<usize>>) -> Seq<usize> {
        match endpoints {
            Some(e) => e@,
            None => Seq::new(self.num_aigpins as nat, |i: int| (i + 1) as usize),
        }
    }

    fn dfs_topo(
        &self,
        vis: &mut IndexSet<usize>,
        ret: &mut Vec<usize>,
        is_primary_input: Option<&IndexSet<usize>>,
        u: usize,
        Ghost(rank): Ghost<spec_fn(usize) -> nat>,
        Ghost(fuel): Ghost<nat>,
    )
        requires
            self.walkable(),
            u <= self.num_aigpins,
            fuel + set_items(*old(vis)).len() >= self.num_aigpins + 1,
            self.topo_inv(pin_set(is_primary_input), rank, set_items(*old(vis)), old(ret)@),
            ranks(*self, pin_set(is_primary_input), rank) ==> forall|v: usize|
                #[trigger] set_items(*old(vis)).contains(v) && !old(ret)@.contains(v) ==> rank(v) > rank(u),
        ensures
            self.topo_inv(pin_set(is_primary_input), rank, set_items(*final(vis)), final(ret)@),
            trail_of(set_items(*final(vis)), final(ret)@) == self.visit(
                pin_set(is_primary_input),
                trail_of(set_items(*old(vis)), old(ret)@),
                u,
                fuel,
            ),
            set_items(*final(vis)).contains(u),
            set_items(*final(vis)).len() >= set_items(*old(vis)).len(),
            old(ret)@.is_prefix_of(final(ret)@),
            forall|v: usize| set_items(*old(vis)).contains(v) ==> #[trigger] set_items(*final(vis)).contains(v),
            forall|v: usize|
                #[trigger] set_items(*final(vis)).contains(v) && !final(ret)@.contains(v) ==> set_items(
                    *old(vis),
                ).contains(v) && !old(ret)@.contains(v),
            forall|v: usize|
                #[trigger] final(ret)@.contains(v) && !old(ret)@.contains(v) ==> !set_items(*old(vis)).contains(v)
                    && self.reaches(pin_set(is_primary_input), u, v),
        decreases self.num_aigpins + 1 - set_items(*old(vis)).len(),
    {
        let ghost stop = pin_set(is_primary_input);
        let ghost vis0 = set_items(*vis);
        let ghost ret0 = ret@;
        if set_contains(vis, u) {
            return ;
        }
        let _ = set_insert(vis, u);
        let ghost vis1 = set_items(*vis);
        proof {
            assert(vis1[vis0.len() as int] == u);
            assert forall|v: usize| vis1.contains(v) <==> (vis0.contains(v) || v == u) by {
                if vis0.contains(v) {
                    assert(vis1[vis0.index_of(v)] == v);
                }
                if vis1.contains(v) && v != u {
                    assert(vis0[vis1.index_of(v)] == v);
                }
            }
            lemma_distinct_len(vis1, self.num_aigpins + 1);
            self.lemma_reaches_self(stop, u);
            assert(vis1.to_set() =~= vis0.to_set().insert(u));
        }
        let ghost inside = trail_of(vis1, ret0);
        let ghost less = (fuel - 1) as nat;
        let expand = match is_primary_input {
            Some(s) => !set_contains(s, u),
            None => true,
        };
        assert(expand == !stop.contains(u));
        if expand {
            let fanin = self.fanin_pins(u);
            let mut i: usize = 0;
            assert(fanin@.take(0) =~= Seq::<usize>::empty());
            while i < fanin.len()
                invariant
                    less + vis1.len() >= self.num_aigpins + 1,
                    trail_of(set_items(*vis), ret@) == self.visit_all(stop, inside, fanin@.take(i as int), less),
                    self.walkable(),
                    u <= self.num_aigpins,
                    stop == pin_set(is_primary_input),
                    !stop.contains(u),
                    fanin@ == self.fanin(u),
                    i <= fanin.len(),
                    self.topo_inv(stop, rank, set_items(*vis), ret@),
                    vis1.len() <= self.num_aigpins + 1,
                    vis1.len() == vis0.len() + 1,
                    vis0 == set_items(*old(vis)),
                    set_items(*vis).len() >= vis1.len(),
                    ret0.is_prefix_of(ret@),
                    self.reaches(stop, u, u),
                    vis1.contains(u),
                    !vis0.contains(u),
                    !ret@.contains(u),
                    forall|v: usize| vis1.contains(v) <==> (vis0.contains(v) || v == u),
                    forall|v: usize| vis1.contains(v) ==> #[trigger] set_items(*vis).contains(v),
                    forall|v: usize|
                        #[trigger] set_items(*vis).contains(v) && !ret@.contains(v) ==> vis1.contains(v)
                            && !ret0.contains(v),
                    forall|v: usize|
                        #[trigger] ret@.contains(v) && !ret0.contains(v) ==> !vis1.contains(v) && self.reaches(
                            stop,
                            u,
                            v,
                        ),
                    forall|k: int| 0 <= k < i ==> set_items(*vis).contains(#[trigger] fanin@[k]),
                    ranks(*self, stop, rank) ==> forall|v: usize|
                        #[trigger] vis0.contains(v) && !ret0.contains(v) ==> rank(v) > rank(u),
                decreases fanin.len() - i,
            {
                let w = fanin[i];
                let ghost vis2 = set_items(*vis);
                let ghost ret2 = ret@;
                assert(self.fanin(u).contains(w));
                assert(ranks(*self, stop, rank) ==> forall|v: usize|
                    #[trigger] vis2.contains(v) && !ret2.contains(v) ==> rank(v) > rank(w)) by {
                    if ranks(*self, stop, rank) {
                        assert(rank(w) < rank(u));
                    }
                }
                proof {
                    lemma_distinct_len(vis2, self.num_aigpins + 1);
                }
                self.dfs_topo(vis, ret, is_primary_input, w, Ghost(rank), Ghost(less));
                proof {
                    assert(fanin@.take(i + 1).drop_last() =~= fanin@.take(i as int));
                    assert(fanin@.take(i + 1).last() == w);
                    assert forall|v: usize| #[trigger] ret@.contains(v) && !ret0.contains(v) implies !vis1.contains(v)
                        && self.reaches(stop, u, v) by {
                        if !ret2.contains(v) {
                            assert(!vis2.contains(v));
                            self.lemma_reaches_step(stop, u, w, v);
                        }
                    }
                    assert(vis2.contains(u));
                    assert(!ret2.contains(u));
                    if ret@.contains(u) {
                        assert(!vis2.contains(u));
                    }
                    assert forall|v: usize| #[trigger] set_items(*vis).contains(v) && !ret@.contains(v)
                        implies vis1.contains(v)
                        && !ret0.contains(v) by {
                        assert(vis2.contains(v));
                    }
                    assert forall|v: usize| vis1.contains(v) implies #[trigger] set_items(*vis).contains(v) by {
                        assert(vis2.contains(v));
                    }
                    assert forall|k: int| 0 <= k < i + 1 implies set_items(*vis).contains(#[trigger] fanin@[k]) by {
                        if k < i {
                            assert(vis2.contains(fanin@[k]));
                        }
                    }
                }
                i += 1;
            }
            assert(fanin@.take(fanin@.len() as int) =~= fanin@);
        }
        let ghost ret3 = ret@;
        ret.push(u);
        proof {
            assert(ret@[ret3.len() as int] == u);
            assert forall|v: usize| ret@.contains(v) <==> (ret3.contains(v) || v == u) by {
                if ret3.contains(v) {
                    assert(ret@[ret3.index_of(v)] == v);
                }
                if ret@.contains(v) && v != u {
                    assert(ret3[ret@.index_of(v)] == v);
                }
            }
            assert forall|v: usize| #[trigger] ret@.contains(v) && !ret0.contains(v) implies !vis0.contains(v)
                && self.reaches(stop, u, v) by {
                if v != u {
                    assert(ret3.contains(v));
                }
            }
            assert forall|x: usize, w: usize|
                ret@.contains(x) && !stop.contains(x) && #[trigger] self.fanin(x).contains(w) implies set_items(
                *vis,
            ).contains(w) by {
                if x == u {
                    let k = self.fanin(u).index_of(w);
                    assert(self.fanin(u)[k] == w);
                } else {
                    assert(ret3.contains(x));
                }
            }
            if ranks(*self, stop, rank) {
                assert forall|i: int, w: usize|
                    0 <= i < ret@.len() && !stop.contains(ret@[i])
                        && #[trigger] self.fanin(ret@[i]).contains(w) implies ret@.take(
                i).contains(w) by {
                    if i < ret3.len() {
                        assert(ret3[i] == ret@[i]);
                        assert(ret3.take(i) =~= ret@.take(i));
                    } else {
                        assert(ret@.take(i) =~= ret3);
                        let k = self.fanin(u).index_of(w);
                        assert(self.fanin(u)[k] == w);
                        assert(set_items(*vis).contains(w));
                        assert(rank(w) < rank(u));
                        if !ret3.contains(w) {
                            assert(vis1.contains(w));
                            assert(vis0.contains(w) && !ret0.contains(w));
                            assert(false);
                        }
                    }
                }
            }
        }
    }

    /// The pins that some pins depend on, those pins included, each once.
    /// Without given endpoints, all pins are endpoints. Fan-in of the given
    /// primary inputs is not followed. They come in the order in which a
    /// depth-first traversal leaves them; in a graph without combinational
    /// cycles, fan-ins come first.
    pub fn topo_traverse_generic(
        &self,
        endpoints: Option<&Vec<usize>>,
        is_primary_input: Option<&IndexSet<usize>>,
    ) -> (ret: Vec<usize>)
        requires
            self.walkable(),
            endpoints matches Some(e) ==> forall|i: int| 0 <= i < e@.len() ==> #[trigger] e@[i] <= self.num_aigpins,
        ensures
            ret@.no_duplicates(),
            forall|v: usize| #[trigger]
                ret@.contains(v) <==> exists|u: usize| #[trigger]
                    self.is_endpoint(endpoints, u) && self.reaches(pin_set(is_primary_input), u, v),
            self.acyclic(pin_set(is_primary_input)) ==> self.is_topological(pin_set(is_primary_input), ret@),
            forall|v: usize| #[trigger] ret@.contains(v) ==> v <= self.num_aigpins,
            ret@ == self.visit_all(
                pin_set(is_primary_input),
                trail_of(Seq::empty(), Seq::empty()),
                self.start_pins(endpoints),
                (self.num_aigpins + 1) as nat,
            ).left,
    {
        let mut vis = set_new();
        let mut ret: Vec<usize> = Vec::new();
        let ghost stop = pin_set(is_primary_input);
        let ghost rank = choose|rank: spec_fn(usize) -> nat| #[trigger] ranks(*self, stop, rank);
        let mut i: usize = 0;
        let n: usize = match endpoints {
            Some(e) => e.len(),
            None => self.num_aigpins,
        };
        let ghost first = trail_of(Seq::empty(), Seq::empty());
        let ghost starts = self.start_pins(endpoints);
        let ghost fuel = (self.num_aigpins + 1) as nat;
        assert(starts.take(0) =~= Seq::<usize>::empty());
        while i < n
            invariant
                starts == self.start_pins(endpoints),
                starts.len() == n,
                fuel == self.num_aigpins + 1,
                trail_of(set_items(vis), ret@) == self.visit_all(stop, first, starts.take(i as int), fuel),
                self.walkable(),
                endpoints matches Some(e) ==> forall|i: int|
                    0 <= i < e@.len() ==> #[trigger] e@[i] <= self.num_aigpins,
                n == (match endpoints {
                    Some(e) => e@.len() as usize,
                    None => self.num_aigpins,
                }),
                i <= n,
                stop == pin_set(is_primary_input),
                self.topo_inv(stop, rank, set_items(vis), ret@),
                forall|v: usize| #[trigger] set_items(vis).contains(v) ==> ret@.contains(v),
                forall|v: usize| #[trigger]
                    ret@.contains(v) ==> exists|u: usize| #[trigger]
                        self.is_endpoint(endpoints, u) && self.reaches(stop, u, v),
                endpoints matches Some(e) ==> forall|k: int| 0 <= k < i ==> ret@.contains(#[trigger] e@[k]),
                endpoints is None ==> forall|k: usize| 1 <= k <= i ==> #[trigger] ret@.contains(k),
            decreases n - i,
        {
            let u: usize = match endpoints {
                Some(e) => e[i],
                None => i + 1,
            };
            let ghost ret0 = ret@;
            assert(self.is_endpoint(endpoints, u));
            self.dfs_topo(&mut vis, &mut ret, is_primary_input, u, Ghost(rank), Ghost(fuel));
            proof {
                assert(starts.take(i + 1).drop_last() =~= starts.take(i as int));
                assert(starts.take(i + 1).last() == u);
                assert forall|v: usize| ret0.contains(v) implies #[trigger] ret@.contains(v) by {
                    assert(ret@[ret0.index_of(v)] == v);
                }
            }
            i += 1;
        }
        proof {
            assert(starts.take(n as int) =~= starts);
            assert forall|v: usize| (exists|u: usize| #[trigger]
                self.is_endpoint(endpoints, u) && self.reaches(stop, u, v)) implies #[trigger] ret@.contains(v) by {
                let u = choose|u: usize| #[trigger] self.is_endpoint(endpoints, u) && self.reaches(stop, u, v);
                assert(ret@.contains(u));
                self.lemma_closed_reach(stop, ret@, u, v);
            }
            assert forall|v: usize| #[trigger] ret@.contains(v) implies v <= self.num_aigpins by {
                assert(set_items(vis).contains(v));
                assert(set_items(vis)[set_items(vis).index_of(v)] == v);
            }
        }
        ret
    }

    /// Does traversal start at this pin?
    pub open spec fn is_endpoint(self, endpoints: Option<&Vec<usize>>, u: usize) -> bool {
        match endpoints {
            Some(e) => e@.contains(u),
            None => 1 <= u <= self.num_aigpins,
        }
    }

    /// Does every pin stand behind its fan-in?
    pub open spec fn is_topological(self, stop: Set<usize>, order: Seq<usize>) -> bool {
        forall|i: int, w: usize|
            0 <= i < order.len() && !stop.contains(order[i]) && #[trigger] self.fanin(order[i]).contains(w)
                ==> order.take(i).contains(w)
    }

    /// The endpoint groups: primary outputs, then DFFs, then SRAMs, then
    /// stateful macros.
    pub open spec fn endpoint_count(self) -> nat {
        set_items(self.primary_outputs).len() + self.dffs.vals().len() + self.srams.vals().len()
            + self.stateful_macros@.len()
    }

    /// The tables of endpoints can be indexed.
    pub open spec fn endpoints_wf(self) -> bool {
        &&& self.dffs.wf()
        &&& self.srams.wf()
        &&& self.macros.wf()
        &&& forall|i: int|
            0 <= i < self.stateful_macros@.len() ==> #[trigger] self.stateful_macros@[i] < self.macros.vals().len()
        &&& self.endpoint_count() <= usize::MAX
    }

    /// The endpoint group with the given number.
    pub open spec fn endpoint(&self, i: int) -> EndpointGroup<'_> {
        let n_po = set_items(self.primary_outputs).len();
        let n_dff = self.dffs.vals().len();
        let n_sram = self.srams.vals().len();
        if i < n_po {
            EndpointGroup::PrimaryOutput(set_items(self.primary_outputs)[i])
        } else if i < n_po + n_dff {
            EndpointGroup::DFF(&self.dffs.vals()[i - n_po])
        } else if i < n_po + n_dff + n_sram {
            EndpointGroup::RAMBlock(&self.srams.vals()[i - n_po - n_dff])
        } else {
            EndpointGroup::Macro(
                &self.macros.vals()[self.stateful_macros@[i - n_po - n_dff - n_sram] as int],
            )
        }
    }

    /// Are there any natively evaluated macros?
    ///
    /// A simulation entry point that cannot evaluate macros must refuse such a
    /// graph rather than silently produce wrong waveforms.
    pub fn has_unscheduled_macros(&self) -> (r: bool)
        requires
            self.macros.wf(),
        ensures
            r == (self.macros.vals().len() != 0),
    {
        self.macros.len() != 0
    }

    /// The number of endpoint groups, which are laid out as four consecutive
    /// ranges:
    ///
    /// ```text
    ///   [ primary outputs | DFFs | SRAMs | stateful macros ]
    /// ```
    ///
    /// Stateful macros come last so that every other endpoint id means the
    /// same with and without macros.
    pub fn num_endpoint_groups(&self) -> (n: usize)
        requires
            self.endpoints_wf(),
        ensures
            n == self.endpoint_count(),
    {
        set_len(&self.primary_outputs) + self.dffs.len() + self.srams.len() + self.stateful_macros.len()
    }

    /// The endpoint group with the given id.
    pub fn get_endpoint_group(&self, endpt_id: usize) -> (r: EndpointGroup<'_>)
        requires
            self.endpoints_wf(),
            endpt_id < self.endpoint_count(),
        ensures
            r == self.endpoint(endpt_id as int),
    {
        let n_po = set_len(&self.primary_outputs);
        let n_dff = self.dffs.len();
        let n_sram = self.srams.len();
        if endpt_id < n_po {
            EndpointGroup::PrimaryOutput(set_at(&self.primary_outputs, endpt_id))
        } else if endpt_id < n_po + n_dff {
            EndpointGroup::DFF(self.dffs.value(endpt_id - n_po))
        } else if endpt_id < n_po + n_dff + n_sram {
            EndpointGroup::RAMBlock(self.srams.value(endpt_id - n_po - n_dff))
        } else {
            let macro_i = self.stateful_macros[endpt_id - n_po - n_dff - n_sram];
            EndpointGroup::Macro(self.macros.value(macro_i))
        }
    }

    /// The endpoint group id of a stateful macro, given its position in
    /// `stateful_macros`.
    pub fn macro_endpoint_id(&self, stateful_idx: usize) -> (id: usize)
        requires
            self.endpoints_wf(),
            stateful_idx < self.stateful_macros@.len(),
        ensures
            id == self.endpoint_count() - self.stateful_macros@.len() + stateful_idx,
            self.endpoint(id as int) == EndpointGroup::Macro(
                &self.macros.vals()[self.stateful_macros@[stateful_idx as int] as int],
            ),
    {
        set_len(&self.primary_outputs) + self.dffs.len() + self.srams.len() + stateful_idx
    }
}

/// The value of a literal.
pub open spec fn literal_value(val: spec_fn(usize) -> bool, iv: usize) -> bool {
    val((iv / 2) as usize) != (iv % 2 == 1)
}

/// Does a valuation of the pins make every and gate the conjunction of its
/// operands?
pub open spec fn respects_gates(aig: AIG, val: spec_fn(usize) -> bool) -> bool {
    forall|v: usize|
        v < aig.drivers@.len() ==> (#[trigger] aig.drivers@[v as int] matches DriverType::AndGate(a, b) ==> val(v) == (
        literal_value(val, a) && literal_value(val, b)))
}

/// Does a valuation of the pins make pin 0 false, and every and gate the
/// conjunction of its operands?
pub open spec fn is_valuation(aig: AIG, val: spec_fn(usize) -> bool) -> bool {
    !val(0) && respects_gates(aig, val)
}

/// The literal of a conjunction has the value of the conjunction.
pub proof fn law_conjunction(aig: AIG, val: spec_fn(usize) -> bool, a: usize, b: usize, o: usize)
    requires
        is_valuation(aig, val),
        and_lit(aig.drivers@, a, b, o),
        aig.drivers@.len() <= MAX_AIGPINS + 1,
    ensures
        literal_value(val, o) == (literal_value(val, a) && literal_value(val, b)),
{
    if a > 1 && b > 1 {
        let v = (o / 2) as usize;
        assert(aig.drivers@[v as int] is AndGate);
    }
}

/// The opposite literal has the opposite value.
pub proof fn law_inversion(val: spec_fn(usize) -> bool, iv: usize)
    ensures
        literal_value(val, spec_invert(iv)) == !literal_value(val, iv),
        spec_invert(spec_invert(iv)) == iv,
{
}

/// Endpoint groups other than macros have the same numbers with and without
/// macros.
pub proof fn law_macro_endpoints_come_last(a: AIG, b: AIG, i: int)
    requires
        a.primary_outputs == b.primary_outputs,
        a.dffs == b.dffs,
        a.srams == b.srams,
        0 <= i < a.endpoint_count() - a.stateful_macros@.len(),
    ensures
        a.endpoint(i) == b.endpoint(i),
        !(a.endpoint(i) is Macro),
{
}

} // verus!
