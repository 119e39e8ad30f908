//! Gate-level netlists, as far as graph construction reads them.

use crate::text::same_str;
use vstd::prelude::*;

verus! {

/// Direction of a pin as seen from its cell.
#[derive(Debug, Clone, Copy, PartialEq, Eq, Structural)]
pub enum Direction {
    /// input
    I,
    /// output
    O,
}

/// An inclusive bus range, most significant bit first.
#[derive(Debug, Clone, Copy, PartialEq, Eq, Structural)]
pub struct BusRange(pub isize, pub isize);

/// The library name of a pin and, for bus pins, its bit.
#[derive(Debug)]
pub struct PinName {
    pub name: String,
    pub bit: Option<isize>,
}

/// A flattened netlist.
///
/// Cell 0 is the top-level design itself: its output pins are the input ports
/// of the design, and its input pins are the output ports.
#[derive(Debug)]
pub struct Netlist {
    /// The library cell of each cell.
    pub celltypes: Vec<String>,
    /// The pins of each cell.
    pub cell_pins: Vec<Vec<usize>>,
    /// The cell of each pin.
    pub pin2cell: Vec<usize>,
    /// The net of each pin.
    pub pin2net: Vec<usize>,
    pub pindirect: Vec<Direction>,
    pub pinnames: Vec<PinName>,
    /// The pin that drives each net.
    pub net_roots: Vec<usize>,
    /// The net that is tied to constant zero.
    pub net_zero: Option<usize>,
    /// The net that is tied to constant one.
    pub net_one: Option<usize>,
}

/// Are all entries below a bound?
pub(crate) fn all_below(v: &Vec<usize>, n: usize) -> (b: bool)
    ensures
        b == forall|i: int| 0 <= i < v@.len() ==> #[trigger] v@[i] < n,
{
    let mut i: usize = 0;
    while i < v.len()
        invariant
            i <= v@.len(),
            forall|k: int| 0 <= k < i ==> #[trigger] v@[k] < n,
        decreases v@.len() - i,
    {
        if v[i] >= n {
            assert(v@[i as int] >= n);
            return false;
        }
        i += 1;
    }
    true
}

impl Netlist {
    pub open spec fn num_pins(self) -> nat {
        self.pin2cell@.len()
    }

    pub open spec fn num_cells(self) -> nat {
        self.celltypes@.len()
    }

    /// All indices lead somewhere.
    pub open spec fn wf(self) -> bool {
        &&& self.cell_pins@.len() == self.num_cells()
        &&& self.pin2net@.len() == self.num_pins()
        &&& self.pindirect@.len() == self.num_pins()
        &&& self.pinnames@.len() == self.num_pins()
        &&& forall|p: int| 0 <= p < self.num_pins() ==> #[trigger] self.pin2cell@[p] < self.num_cells()
        &&& forall|p: int| 0 <= p < self.num_pins() ==> #[trigger] self.pin2net@[p] < self.net_roots@.len()
        &&& forall|n: int| 0 <= n < self.net_roots@.len() ==> #[trigger] self.net_roots@[n] < self.num_pins()
        &&& forall|c: int, i: int|
            0 <= c < self.num_cells() && 0 <= i < self.cell_pins@[c]@.len()
                ==> #[trigger] self.cell_pins@[c]@[i] < self.num_pins()
    }

    /// Decides whether all indices lead somewhere.
    pub fn is_wf(&self) -> (b: bool)
        ensures
            b == self.wf(),
    {
        let cells = self.celltypes.len();
        let pins = self.pin2cell.len();
        if self.cell_pins.len() != cells || self.pin2net.len() != pins || self.pindirect.len() != pins
            || self.pinnames.len() != pins {
            return false;
        }
        if !all_below(&self.pin2cell, cells) || !all_below(&self.pin2net, self.net_roots.len()) || !all_below(
            &self.net_roots,
            pins,
        ) {
            return false;
        }
        let mut c: usize = 0;
        while c < cells
            invariant
                cells == self.num_cells(),
                pins == self.num_pins(),
                self.cell_pins@.len() == cells,
                c <= cells,
                forall|k: int, i: int|
                    0 <= k < c && 0 <= i < self.cell_pins@[k]@.len() ==> #[trigger] self.cell_pins@[k]@[i] < pins,
            decreases cells - c,
        {
            if !all_below(&self.cell_pins[c], pins) {
                return false;
            }
            c += 1;
        }
        true
    }

    /// The library cell of a cell.
    pub open spec fn celltype(self, c: usize) -> Seq<char> {
        self.celltypes@[c as int]@
    }

    /// The library name of a pin.
    pub open spec fn name(self, p: usize) -> Seq<char> {
        self.pinnames@[p as int].name@
    }

    /// The bit of a bus pin.
    pub open spec fn bit(self, p: usize) -> Option<usize> {
        match self.pinnames@[p as int].bit {
            Some(b) => Some(b as usize),
            None => None,
        }
    }

    pub open spec fn is_input(self, p: usize) -> bool {
        self.pindirect@[p as int] == Direction::I
    }

    /// Is the pin on the net that is tied to zero?
    pub open spec fn on_zero(self, p: usize) -> bool {
        self.net_zero == Some(self.pin2net@[p as int])
    }

    /// Is the pin on the net that is tied to one?
    pub open spec fn on_one(self, p: usize) -> bool {
        self.net_one == Some(self.pin2net@[p as int])
    }

    /// The pin that drives the net of a pin.
    pub open spec fn root(self, p: usize) -> usize {
        self.net_roots@[self.pin2net@[p as int] as int]
    }

    /// The pins of a cell.
    pub open spec fn pins(self, c: usize) -> Seq<usize> {
        self.cell_pins@[c as int]@
    }

    /// The last of some pins that has the given name.
    pub open spec fn last_named(self, pins: Seq<usize>, name: Seq<char>) -> Option<usize>
        decreases pins.len(),
    {
        if pins.len() == 0 {
            None
        } else if self.name(pins.last()) == name {
            Some(pins.last())
        } else {
            self.last_named(pins.drop_last(), name)
        }
    }

    /// The pin of a cell that has the given name.
    pub open spec fn cell_pin(self, c: usize, name: Seq<char>) -> Option<usize> {
        self.last_named(self.pins(c), name)
    }

    /// The last of some pins that has the given name and bit.
    pub open spec fn last_bit(self, pins: Seq<usize>, name: Seq<char>, bit: usize) -> Option<usize>
        decreases pins.len(),
    {
        if pins.len() == 0 {
            None
        } else if self.name(pins.last()) == name && self.bit(pins.last()) == Some(bit) {
            Some(pins.last())
        } else {
            self.last_bit(pins.drop_last(), name, bit)
        }
    }

    /// The pin of a cell that has the given name and bit.
    pub open spec fn cell_bit(self, c: usize, name: Seq<char>, bit: usize) -> Option<usize> {
        self.last_bit(self.pins(c), name, bit)
    }

    /// The pin found by name is one of the pins and has that name.
    pub(crate) proof fn lemma_last_named(self, pins: Seq<usize>, name: Seq<char>)
        ensures
            self.last_named(pins, name) matches Some(p) ==> pins.contains(p) && self.name(p) == name,
        decreases pins.len(),
    {
        if pins.len() != 0 {
            if self.name(pins.last()) == name {
                assert(pins[pins.len() - 1] == pins.last());
            } else {
                self.lemma_last_named(pins.drop_last(), name);
                if let Some(p) = self.last_named(pins, name) {
                    let i = choose|i: int| 0 <= i < pins.drop_last().len() && pins.drop_last()[i] == p;
                    assert(pins[i] == p);
                }
            }
        }
    }

    /// Finds the pin of a cell that has the given name.
    pub fn find_pin(&self, c: usize, name: &str) -> (r: Option<usize>)
        requires
            self.wf(),
            c < self.num_cells(),
        ensures
            r == self.cell_pin(c, name@),
            r matches Some(p) ==> p < self.num_pins() && self.name(p) == name@,
    {
        let pins = &self.cell_pins[c];
        let mut r: Option<usize> = None;
        let mut i: usize = 0;
        while i < pins.len()
            invariant
                self.wf(),
                c < self.num_cells(),
                *pins == self.cell_pins@[c as int],
                i <= pins.len(),
                r == self.last_named(self.pins(c).take(i as int), name@),
                r matches Some(p) ==> p < self.num_pins() && self.name(p) == name@,
            decreases pins.len() - i,
        {
            let p = pins[i];
            assert(self.cell_pins@[c as int]@[i as int] < self.num_pins());
            assert(self.pins(c).take(i + 1).drop_last() =~= self.pins(c).take(i as int));
            if same_str(self.pinnames[p].name.as_str(), name) {
                r = Some(p);
            }
            i += 1;
        }
        assert(self.pins(c).take(pins@.len() as int) =~= self.pins(c));
        r
    }

    /// Finds the pin of a cell that has the given name and bit.
    pub fn find_bit(&self, c: usize, name: &str, bit: usize) -> (r: Option<usize>)
        requires
            self.wf(),
            c < self.num_cells(),
        ensures
            r == self.cell_bit(c, name@, bit),
            r matches Some(p) ==> p < self.num_pins(),
    {
        let pins = &self.cell_pins[c];
        let mut r: Option<usize> = None;
        let mut i: usize = 0;
        while i < pins.len()
            invariant
                self.wf(),
                c < self.num_cells(),
                *pins == self.cell_pins@[c as int],
                i <= pins.len(),
                r == self.last_bit(self.pins(c).take(i as int), name@, bit),
                r matches Some(p) ==> p < self.num_pins(),
            decreases pins.len() - i,
        {
            let p = pins[i];
            assert(self.cell_pins@[c as int]@[i as int] < self.num_pins());
            assert(self.pins(c).take(i + 1).drop_last() =~= self.pins(c).take(i as int));
            if same_str(self.pinnames[p].name.as_str(), name) {
                if let Some(b) = self.bit_of(p) {
                    if b == bit {
                        r = Some(p);
                    }
                }
            }
            i += 1;
        }
        assert(self.pins(c).take(pins@.len() as int) =~= self.pins(c));
        r
    }
}

} // verus!
