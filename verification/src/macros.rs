//! Word-level hardware macros that are evaluated natively.
//!
//! Pin names, bit widths, slot ordering and combinational fan-in of CARRY4,
//! DSP48E2 and SRLC32E. Netlist pin typing and graph construction both read
//! them from here.
//!
//! Cell parameters do not reach the netlist, so whatever changes how a DSP48E2
//! is evaluated is part of its cell type name: the base name selects the ALU
//! state (`BYPASS`, `MULT`, `MAC`) and the suffix `_PREADD` the pre-adder.
//!
//! The inputs and outputs of a macro are addressed by dense slot indices.

pub mod instances;
pub mod laws;
pub mod model;

use crate::netlist::{BusRange, Direction};
use crate::text::same_str;
use vstd::prelude::*;

verus! {

/// The 2-bit ALU state of a DSP48E2. The fourth code is reserved.
#[derive(Debug, Clone, Copy, PartialEq, Eq, Structural)]
pub enum DspState {
    /// `P_next = C`
    Bypass,
    /// `P_next = M`
    Mult,
    /// `P_next = P_current + M`
    Mac,
}

impl DspState {
    /// The number by which the script refers to the state.
    pub open spec fn spec_code(self) -> usize {
        match self {
            DspState::Bypass => 0,
            DspState::Mult => 1,
            DspState::Mac => 2,
        }
    }

    /// The number by which the script refers to the state.
    pub fn code(&self) -> (c: usize)
        ensures
            c == self.spec_code(),
    {
        match self {
            DspState::Bypass => 0,
            DspState::Mult => 1,
            DspState::Mac => 2,
        }
    }
}

/// A natively evaluated hardware macro kind.
#[derive(Debug, Clone, Copy, PartialEq, Eq, Structural)]
pub enum MacroKind {
    /// 4-bit carry chain. Purely combinational.
    Carry4,
    /// DSP48E2 simplified subset. Only `PREG` is clocked.
    Dsp48e2 { state: DspState, use_preadder: bool },
    /// 32-bit shift register LUT with a dynamic combinational read port.
    Srlc32e,
}

// CARRY4 inputs: CI, CYINIT, DI[3:0], S[3:0]
pub const C4_IN_CI: usize = 0;
pub const C4_IN_CYINIT: usize = 1;
pub const C4_IN_DI: usize = 2;
pub const C4_IN_S: usize = 6;
pub const C4_NUM_INPUTS: usize = 10;

// CARRY4 outputs: O[3:0], CO[3:0]
pub const C4_OUT_O: usize = 0;
pub const C4_OUT_CO: usize = 4;
pub const C4_NUM_OUTPUTS: usize = 8;

// DSP48E2 inputs: A[26:0], B[17:0], C[47:0], D[26:0], CEP
pub const DSP_IN_A: usize = 0;
pub const DSP_IN_B: usize = 27;
pub const DSP_IN_C: usize = 45;
pub const DSP_IN_D: usize = 93;
pub const DSP_IN_CEP: usize = 120;
pub const DSP_NUM_INPUTS: usize = 121;

// DSP48E2 outputs: P[47:0]
pub const DSP_OUT_P: usize = 0;
pub const DSP_NUM_OUTPUTS: usize = 48;

// SRLC32E inputs: D, CE, A[4:0]
pub const SRL_IN_D: usize = 0;
pub const SRL_IN_CE: usize = 1;
pub const SRL_IN_A: usize = 2;
pub const SRL_NUM_INPUTS: usize = 7;

// SRLC32E outputs: Q, Q31
pub const SRL_OUT_Q: usize = 0;
pub const SRL_OUT_Q31: usize = 1;
pub const SRL_NUM_OUTPUTS: usize = 2;

/// u32 words per macro lane.
pub const MACRO_LANE_WORDS: usize = 12;
/// Input codes stored per lane. CARRY4 uses all of them; SRLC32E uses 7.
pub const MACRO_LANE_IN_SLOTS: usize = 10;
/// Output positions stored per lane. CARRY4 uses all of them; SRLC32E uses 2.
pub const MACRO_LANE_OUT_SLOTS: usize = 8;
/// Lanes per phase: one warp, so the carry scan never crosses a shuffle
/// boundary.
pub const MACRO_MAX_LANES: usize = 32;

pub const MACRO_PERM_POS_MASK: u16 = 0x1fff;
pub const MACRO_PERM_INV_BIT: u16 = 13;
pub const MACRO_PERM_CONST_BIT: u16 = 14;
/// Marks an output slot that the macro does not drive.
pub const MACRO_POS_NONE: u16 = 0xffff;

// descriptor word fields
pub const MACRO_DESC_KIND_MASK: u32 = 0x3;
pub const MACRO_DESC_CHAIN_START_BIT: u32 = 2;
pub const MACRO_DESC_VALID_BIT: u32 = 3;
pub const MACRO_DESC_STATE_SHIFT: u32 = 16;

/// Script kind codes. DSP48E2 never appears in a macro phase: its `P` port is
/// a pure state read, so it is scheduled as an endpoint instead.
pub const MACRO_KIND_CARRY4: u32 = 0;
pub const MACRO_KIND_SRLC32E: u32 = 1;

/// The slots of `S[0], DI[0], S[1], DI[1], ..` for the lowest `n` bits.
pub open spec fn carry_links(n: nat) -> Seq<usize> {
    Seq::new(
        2 * n,
        |k: int|
            if k % 2 == 0 {
                (C4_IN_S + k / 2) as usize
            } else {
                (C4_IN_DI + k / 2) as usize
            },
    )
}

/// Does the slot name a bus bit: is there a bit number below `width`?
pub open spec fn bus_slot(base: usize, width: usize, bit: Option<usize>) -> Option<usize> {
    match bit {
        Some(i) => if i < width {
            Some((base + i) as usize)
        } else {
            None
        },
        None => None,
    }
}

/// The slot of a pin without bits.
pub open spec fn scalar_slot(slot: usize, bit: Option<usize>) -> Option<usize> {
    if bit is None {
        Some(slot)
    } else {
        None
    }
}

fn bus(base: usize, width: usize, bit: Option<usize>) -> (r: Option<usize>)
    requires
        base + width <= usize::MAX,
    ensures
        r == bus_slot(base, width, bit),
{
    match bit {
        Some(i) => if i < width {
            Some(base + i)
        } else {
            None
        },
        None => None,
    }
}

fn scalar(slot: usize, bit: Option<usize>) -> (r: Option<usize>)
    ensures
        r == scalar_slot(slot, bit),
{
    match bit {
        None => Some(slot),
        Some(_) => None,
    }
}

/// The kind of a DSP48E2 with the given ALU state.
pub open spec fn dsp_kind(state: DspState, use_preadder: bool) -> Option<MacroKind> {
    Some(MacroKind::Dsp48e2 { state, use_preadder })
}

impl MacroKind {
    /// What [`MacroKind::from_celltype`] returns for a name.
    pub open spec fn spec_from_celltype(name: Seq<char>) -> Option<MacroKind> {
        if name == "CARRY4"@ {
            Some(MacroKind::Carry4)
        } else if name == "SRLC32E"@ {
            Some(MacroKind::Srlc32e)
        } else if name == "DSP48E2_BYPASS"@ {
            dsp_kind(DspState::Bypass, false)
        } else if name == "DSP48E2_BYPASS_PREADD"@ {
            dsp_kind(DspState::Bypass, true)
        } else if name == "DSP48E2_MULT"@ {
            dsp_kind(DspState::Mult, false)
        } else if name == "DSP48E2_MULT_PREADD"@ {
            dsp_kind(DspState::Mult, true)
        } else if name == "DSP48E2_MAC"@ {
            dsp_kind(DspState::Mac, false)
        } else if name == "DSP48E2_MAC_PREADD"@ {
            dsp_kind(DspState::Mac, true)
        } else {
            None
        }
    }

    /// Recognises a (possibly mangled) cell type name.
    ///
    /// Returns `None` for any cell type that is not an intercepted macro. A
    /// bare `DSP48E2` carries its configuration in parameters, which are not
    /// there any more, so that name is left out.
    pub fn from_celltype(celltype: &str) -> (r: Option<MacroKind>)
        requires
            celltype@ != "DSP48E2"@,
        ensures
            r == MacroKind::spec_from_celltype(celltype@),
    {
        if same_str(celltype, "CARRY4") {
            Some(MacroKind::Carry4)
        } else if same_str(celltype, "SRLC32E") {
            Some(MacroKind::Srlc32e)
        } else if same_str(celltype, "DSP48E2_BYPASS") {
            Some(MacroKind::Dsp48e2 { state: DspState::Bypass, use_preadder: false })
        } else if same_str(celltype, "DSP48E2_BYPASS_PREADD") {
            Some(MacroKind::Dsp48e2 { state: DspState::Bypass, use_preadder: true })
        } else if same_str(celltype, "DSP48E2_MULT") {
            Some(MacroKind::Dsp48e2 { state: DspState::Mult, use_preadder: false })
        } else if same_str(celltype, "DSP48E2_MULT_PREADD") {
            Some(MacroKind::Dsp48e2 { state: DspState::Mult, use_preadder: true })
        } else if same_str(celltype, "DSP48E2_MAC") {
            Some(MacroKind::Dsp48e2 { state: DspState::Mac, use_preadder: false })
        } else if same_str(celltype, "DSP48E2_MAC_PREADD") {
            Some(MacroKind::Dsp48e2 { state: DspState::Mac, use_preadder: true })
        } else {
            None
        }
    }

    /// The number of input slots.
    pub open spec fn spec_num_inputs(self) -> usize {
        match self {
            MacroKind::Carry4 => C4_NUM_INPUTS,
            MacroKind::Dsp48e2 { .. } => DSP_NUM_INPUTS,
            MacroKind::Srlc32e => SRL_NUM_INPUTS,
        }
    }

    /// The number of input slots.
    pub fn num_inputs(&self) -> (n: usize)
        ensures
            n == self.spec_num_inputs(),
    {
        match self {
            MacroKind::Carry4 => C4_NUM_INPUTS,
            MacroKind::Dsp48e2 { .. } => DSP_NUM_INPUTS,
            MacroKind::Srlc32e => SRL_NUM_INPUTS,
        }
    }

    /// The number of output slots.
    pub open spec fn spec_num_outputs(self) -> usize {
        match self {
            MacroKind::Carry4 => C4_NUM_OUTPUTS,
            MacroKind::Dsp48e2 { .. } => DSP_NUM_OUTPUTS,
            MacroKind::Srlc32e => SRL_NUM_OUTPUTS,
        }
    }

    /// The number of output slots.
    pub fn num_outputs(&self) -> (n: usize)
        ensures
            n == self.spec_num_outputs(),
    {
        match self {
            MacroKind::Carry4 => C4_NUM_OUTPUTS,
            MacroKind::Dsp48e2 { .. } => DSP_NUM_OUTPUTS,
            MacroKind::Srlc32e => SRL_NUM_OUTPUTS,
        }
    }

    /// Does this macro have a `CLK` pin that must be traced?
    ///
    /// CARRY4 is purely combinational and has none.
    pub fn has_clock(&self) -> (b: bool)
        ensures
            b == !(self is Carry4),
    {
        !matches!(self, MacroKind::Carry4)
    }

    /// The literal that an input slot takes when the pin is absent.
    pub open spec fn spec_default_input(self, slot: usize) -> usize {
        match self {
            MacroKind::Dsp48e2 { .. } => if slot == DSP_IN_CEP {
                1
            } else {
                0
            },
            MacroKind::Srlc32e => if slot == SRL_IN_CE {
                1
            } else {
                0
            },
            MacroKind::Carry4 => 0,
        }
    }

    /// The literal that an input slot takes when the pin is absent from the
    /// instantiation: constant 1 for the enable-like pins, constant 0 for
    /// data pins.
    pub fn default_input(&self, slot: usize) -> (iv: usize)
        ensures
            iv == self.spec_default_input(slot),
    {
        match self {
            MacroKind::Dsp48e2 { .. } => if slot == DSP_IN_CEP {
                1
            } else {
                0
            },
            MacroKind::Srlc32e => if slot == SRL_IN_CE {
                1
            } else {
                0
            },
            MacroKind::Carry4 => 0,
        }
    }

    /// The input slot of a pin, by its name and bit.
    pub open spec fn spec_input_slot(self, pin: Seq<char>, bit: Option<usize>) -> Option<usize> {
        match self {
            MacroKind::Carry4 => if pin == "CI"@ || pin == "CIN"@ {
                scalar_slot(C4_IN_CI, bit)
            } else if pin == "CYINIT"@ {
                scalar_slot(C4_IN_CYINIT, bit)
            } else if pin == "DI"@ {
                bus_slot(C4_IN_DI, 4, bit)
            } else if pin == "S"@ {
                bus_slot(C4_IN_S, 4, bit)
            } else {
                None
            },
            MacroKind::Dsp48e2 { .. } => if pin == "A"@ {
                bus_slot(DSP_IN_A, 27, bit)
            } else if pin == "B"@ {
                bus_slot(DSP_IN_B, 18, bit)
            } else if pin == "C"@ {
                bus_slot(DSP_IN_C, 48, bit)
            } else if pin == "D"@ {
                bus_slot(DSP_IN_D, 27, bit)
            } else if pin == "CEP"@ {
                scalar_slot(DSP_IN_CEP, bit)
            } else {
                None
            },
            MacroKind::Srlc32e => if pin == "D"@ {
                scalar_slot(SRL_IN_D, bit)
            } else if pin == "CE"@ {
                scalar_slot(SRL_IN_CE, bit)
            } else if pin == "A"@ {
                bus_slot(SRL_IN_A, 5, bit)
            } else {
                None
            },
        }
    }

    /// Maps a netlist input pin (name, bit) to its dense slot index.
    ///
    /// `CLK` is not mapped: it is consumed by clock tracing. The cascade input
    /// of a CARRY4 may be spelled `CI` or `CIN`.
    pub fn input_slot(&self, pin: &str, bit: Option<usize>) -> (slot: Option<usize>)
        ensures
            slot == self.spec_input_slot(pin@, bit),
    {
        match self {
            MacroKind::Carry4 => if same_str(pin, "CI") || same_str(pin, "CIN") {
                scalar(C4_IN_CI, bit)
            } else if same_str(pin, "CYINIT") {
                scalar(C4_IN_CYINIT, bit)
            } else if same_str(pin, "DI") {
                bus(C4_IN_DI, 4, bit)
            } else if same_str(pin, "S") {
                bus(C4_IN_S, 4, bit)
            } else {
                None
            },
            MacroKind::Dsp48e2 { .. } => if same_str(pin, "A") {
                bus(DSP_IN_A, 27, bit)
            } else if same_str(pin, "B") {
                bus(DSP_IN_B, 18, bit)
            } else if same_str(pin, "C") {
                bus(DSP_IN_C, 48, bit)
            } else if same_str(pin, "D") {
                bus(DSP_IN_D, 27, bit)
            } else if same_str(pin, "CEP") {
                scalar(DSP_IN_CEP, bit)
            } else {
                None
            },
            MacroKind::Srlc32e => if same_str(pin, "D") {
                scalar(SRL_IN_D, bit)
            } else if same_str(pin, "CE") {
                scalar(SRL_IN_CE, bit)
            } else if same_str(pin, "A") {
                bus(SRL_IN_A, 5, bit)
            } else {
                None
            },
        }
    }

    /// The output slot of a pin, by its name and bit.
    pub open spec fn spec_output_slot(self, pin: Seq<char>, bit: Option<usize>) -> Option<usize> {
        match self {
            MacroKind::Carry4 => if pin == "O"@ {
                bus_slot(C4_OUT_O, 4, bit)
            } else if pin == "CO"@ {
                bus_slot(C4_OUT_CO, 4, bit)
            } else {
                None
            },
            MacroKind::Dsp48e2 { .. } => if pin == "P"@ {
                bus_slot(DSP_OUT_P, 48, bit)
            } else {
                None
            },
            MacroKind::Srlc32e => if pin == "Q"@ {
                scalar_slot(SRL_OUT_Q, bit)
            } else if pin == "Q31"@ {
                scalar_slot(SRL_OUT_Q31, bit)
            } else {
                None
            },
        }
    }

    /// Maps a netlist output pin (name, bit) to its dense slot index.
    pub fn output_slot(&self, pin: &str, bit: Option<usize>) -> (slot: Option<usize>)
        ensures
            slot == self.spec_output_slot(pin@, bit),
    {
        match self {
            MacroKind::Carry4 => if same_str(pin, "O") {
                bus(C4_OUT_O, 4, bit)
            } else if same_str(pin, "CO") {
                bus(C4_OUT_CO, 4, bit)
            } else {
                None
            },
            MacroKind::Dsp48e2 { .. } => if same_str(pin, "P") {
                bus(DSP_OUT_P, 48, bit)
            } else {
                None
            },
            MacroKind::Srlc32e => if same_str(pin, "Q") {
                scalar(SRL_OUT_Q, bit)
            } else if same_str(pin, "Q31") {
                scalar(SRL_OUT_Q31, bit)
            } else {
                None
            },
        }
    }

    /// The input slots that an output slot depends on combinationally.
    ///
    /// With `C[0]` the carry-in of a CARRY4 and `C[i+1]` its `i`-th carry-out,
    /// `O[i] = S[i] ^ C[i]` and `CO[i] = C[i+1]`, where `C[i+1]` is computed
    /// from `C[i]`, `S[i]` and `DI[i]`.
    pub open spec fn spec_comb_fanin(self, out_slot: usize) -> Seq<usize> {
        match self {
            MacroKind::Carry4 => {
                if out_slot < C4_OUT_CO {
                    seq![C4_IN_CI, C4_IN_CYINIT] + carry_links(out_slot as nat) + seq![
                        (C4_IN_S + out_slot) as usize,
                    ]
                } else {
                    seq![C4_IN_CI, C4_IN_CYINIT] + carry_links((out_slot - C4_OUT_CO + 1) as nat)
                }
            },
            MacroKind::Dsp48e2 { .. } => Seq::empty(),
            MacroKind::Srlc32e => if out_slot == SRL_OUT_Q {
                Seq::new(5, |i: int| (SRL_IN_A + i) as usize)
            } else {
                Seq::empty()
            },
        }
    }

    /// The input slots that an output slot depends on combinationally, within
    /// the same simulated cycle.
    ///
    /// - CARRY4 is fully combinational, but the dependency is triangular:
    ///   `O[i]` cannot see `S[3]` for `i < 3`.
    /// - DSP48E2 exports nothing combinationally: `P` is a read of `PREG`.
    /// - SRLC32E: `Q31` is a plain register read, but the read port
    ///   `Q = state[A]` is combinational in `A[4:0]`.
    pub fn comb_fanin_of_output(&self, out_slot: usize) -> (deps: Vec<usize>)
        requires
            out_slot <= usize::MAX - 2,
        ensures
            deps@ == self.spec_comb_fanin(out_slot),
    {
        match self {
            MacroKind::Carry4 => {
                let mut deps: Vec<usize> = Vec::new();
                deps.push(C4_IN_CI);
                deps.push(C4_IN_CYINIT);
                let links: usize = if out_slot < C4_OUT_CO {
                    out_slot - C4_OUT_O
                } else {
                    out_slot - C4_OUT_CO + 1
                };
                let mut j: usize = 0;
                while j < links
                    invariant
                        j <= links,
                        links <= usize::MAX - 5,
                        deps@ == seq![C4_IN_CI, C4_IN_CYINIT] + carry_links(j as nat),
                    decreases links - j,
                {
                    deps.push(C4_IN_S + j);
                    deps.push(C4_IN_DI + j);
                    proof {
                        assert(deps@ =~= seq![C4_IN_CI, C4_IN_CYINIT] + carry_links((j + 1) as nat));
                    }
                    j += 1;
                }
                if out_slot < C4_OUT_CO {
                    deps.push(C4_IN_S + out_slot);
                }
                assert(deps@ =~= self.spec_comb_fanin(out_slot));
                deps
            },
            MacroKind::Dsp48e2 { .. } => Vec::new(),
            MacroKind::Srlc32e => {
                let mut deps: Vec<usize> = Vec::new();
                if out_slot == SRL_OUT_Q {
                    let mut i: usize = 0;
                    while i < 5
                        invariant
                            i <= 5,
                            deps@ == Seq::new(i as nat, |i: int| (SRL_IN_A + i) as usize),
                        decreases 5 - i,
                    {
                        deps.push(SRL_IN_A + i);
                        assert(deps@ =~= Seq::new((i + 1) as nat, |i: int| (SRL_IN_A + i) as usize));
                        i += 1;
                    }
                }
                assert(deps@ =~= self.spec_comb_fanin(out_slot));
                deps
            },
        }
    }

    /// Is some output a read of clocked state rather than a combinational
    /// function of the current inputs?
    pub fn is_stateful(&self) -> (b: bool)
        ensures
            b == self.spec_has_state(),
    {
        self.has_state()
    }

    /// Does this macro carry persistent state?
    pub open spec fn spec_has_state(self) -> bool {
        self is Dsp48e2 || self is Srlc32e
    }

    /// Does this macro carry persistent state in the global macro-state array?
    pub fn has_state(&self) -> (b: bool)
        ensures
            b == self.spec_has_state(),
    {
        matches!(self, MacroKind::Dsp48e2 { .. } | MacroKind::Srlc32e)
    }

    /// Does the mid-partition phase itself commit the next state?
    ///
    /// True for SRLC32E, whose phase reads the shift register anyway. False
    /// for DSP48E2, whose ports do not fit a lane: its commit goes through
    /// the write-out path like that of an SRAM.
    pub fn commits_state_in_phase(&self) -> (b: bool)
        ensures
            b == (self is Srlc32e),
    {
        matches!(self, MacroKind::Srlc32e)
    }

    /// Does this macro need an endpoint group to commit its state?
    pub open spec fn spec_is_endpoint(self) -> bool {
        self.spec_has_state() && !(self is Srlc32e)
    }

    /// Does this macro need an endpoint group to commit its state?
    pub fn is_endpoint(&self) -> (b: bool)
        ensures
            b == self.spec_is_endpoint(),
            b == (self is Dsp48e2),
    {
        self.has_state() && !self.commits_state_in_phase()
    }

    /// The input slots that feed the clocked next-state computation.
    pub open spec fn spec_state_fanin(self) -> Seq<usize> {
        match self {
            MacroKind::Carry4 => Seq::empty(),
            MacroKind::Dsp48e2 { .. } => Seq::new(DSP_NUM_INPUTS as nat, |i: int| i as usize),
            MacroKind::Srlc32e => seq![SRL_IN_D, SRL_IN_CE],
        }
    }

    /// The input slots that feed the clocked next-state computation.
    ///
    /// For an SRLC32E only the serial input and its enable: the address has no
    /// influence on the next state.
    pub fn state_fanin(&self) -> (slots: Vec<usize>)
        ensures
            slots@ == self.spec_state_fanin(),
    {
        let mut slots: Vec<usize> = Vec::new();
        match self {
            MacroKind::Carry4 => {},
            MacroKind::Dsp48e2 { .. } => {
                let mut i: usize = 0;
                while i < DSP_NUM_INPUTS
                    invariant
                        i <= DSP_NUM_INPUTS,
                        slots@ == Seq::new(i as nat, |i: int| i as usize),
                    decreases DSP_NUM_INPUTS - i,
                {
                    slots.push(i);
                    assert(slots@ =~= Seq::new((i + 1) as nat, |i: int| i as usize));
                    i += 1;
                }
            },
            MacroKind::Srlc32e => {
                slots.push(SRL_IN_D);
                slots.push(SRL_IN_CE);
            },
        }
        assert(slots@ =~= self.spec_state_fanin());
        slots
    }

    /// Does this output have to be produced part-way through a partition?
    pub open spec fn spec_needs_eval(self, out_slot: usize) -> bool {
        self is Srlc32e || self.spec_comb_fanin(out_slot).len() != 0
    }

    /// Does this output have to be produced part-way through a partition,
    /// rather than being available from state memory at cycle start?
    ///
    /// SRLC32E `Q31` has no combinational fan-in, but it is a tap on state
    /// that only exists inside the macro-state array, so the phase has to
    /// produce it too.
    pub fn output_needs_mid_partition_eval(&self, out_slot: usize) -> (b: bool)
        requires
            out_slot <= usize::MAX - 2,
        ensures
            b == self.spec_needs_eval(out_slot),
    {
        if matches!(self, MacroKind::Srlc32e) {
            return true;
        }
        self.comb_fanin_of_output(out_slot).len() != 0
    }

    /// Does any output of this macro need mid-partition evaluation?
    pub fn needs_mid_partition_eval(&self) -> (b: bool)
        ensures
            b == exists|s: usize| s < self.spec_num_outputs() && #[trigger] self.spec_needs_eval(s),
            b == !(self is Dsp48e2),
    {
        let n = self.num_outputs();
        let mut s: usize = 0;
        while s < n
            invariant
                n == self.spec_num_outputs(),
                s <= n,
                forall|t: usize| t < s ==> !#[trigger] self.spec_needs_eval(t),
            decreases n - s,
        {
            if self.output_needs_mid_partition_eval(s) {
                return true;
            }
            s += 1;
        }
        proof {
            assert(!self.spec_needs_eval(0));
        }
        false
    }

    /// Width in bits of the clocked state.
    pub open spec fn spec_state_bits(self) -> usize {
        match self {
            MacroKind::Carry4 => 0,
            MacroKind::Dsp48e2 { .. } => 48,
            MacroKind::Srlc32e => 32,
        }
    }

    /// Width in bits of the clocked state this macro carries.
    pub fn state_bits(&self) -> (n: usize)
        ensures
            n == self.spec_state_bits(),
    {
        match self {
            MacroKind::Carry4 => 0,
            MacroKind::Dsp48e2 { .. } => 48,
            MacroKind::Srlc32e => 32,
        }
    }

    /// State size in `u32` words.
    pub open spec fn spec_state_words(self) -> usize {
        ((self.spec_state_bits() + 31) / 32) as usize
    }

    /// State size in `u32` words, as laid out in the global macro-state array.
    pub fn state_words(&self) -> (n: usize)
        ensures
            n == self.spec_state_words(),
            32 * n >= self.spec_state_bits(),
            32 * n < self.spec_state_bits() + 32,
    {
        (self.state_bits() + 31) / 32
    }

    /// Number of `u32` words that hold one bit per input.
    pub open spec fn spec_input_words(self) -> usize {
        ((self.spec_num_inputs() + 31) / 32) as usize
    }

    /// Number of `u32` permute words needed to gather this macro's inputs.
    pub fn input_words(&self) -> (n: usize)
        ensures
            n == self.spec_input_words(),
            32 * n >= self.spec_num_inputs(),
            32 * n < self.spec_num_inputs() + 32,
    {
        (self.num_inputs() + 31) / 32
    }

    /// Direction of a pin, or `None` if the macro has no such pin.
    pub open spec fn spec_direction_of(self, pin: Seq<char>, bit: Option<isize>) -> Option<Direction> {
        let ubit = match bit {
            Some(b) => Some(b as usize),
            None => None,
        };
        if bit is Some && bit->0 < 0 {
            None
        } else if !(self is Carry4) && pin == "CLK"@ && bit is None {
            Some(Direction::I)
        } else if self.spec_input_slot(pin, ubit) is Some {
            Some(Direction::I)
        } else if self.spec_output_slot(pin, ubit) is Some {
            Some(Direction::O)
        } else {
            None
        }
    }

    /// Direction of a pin, or `None` if the macro has no such pin.
    pub fn direction_of(&self, pin: &str, bit: Option<isize>) -> (dir: Option<Direction>)
        ensures
            dir == self.spec_direction_of(pin@, bit),
    {
        let ubit: Option<usize> = match bit {
            Some(b) => {
                if b < 0 {
                    return None;
                }
                Some(b as usize)
            },
            None => None,
        };
        if self.has_clock() && same_str(pin, "CLK") && ubit.is_none() {
            return Some(Direction::I);
        }
        if self.input_slot(pin, ubit).is_some() {
            return Some(Direction::I);
        }
        if self.output_slot(pin, ubit).is_some() {
            return Some(Direction::O);
        }
        None
    }

    /// Bus range of a pin.
    pub open spec fn spec_width_of(self, pin: Seq<char>) -> Option<BusRange> {
        match self {
            MacroKind::Carry4 => if pin == "DI"@ || pin == "S"@ || pin == "O"@ || pin == "CO"@ {
                Some(BusRange(3, 0))
            } else {
                None
            },
            MacroKind::Dsp48e2 { .. } => if pin == "A"@ || pin == "D"@ {
                Some(BusRange(26, 0))
            } else if pin == "B"@ {
                Some(BusRange(17, 0))
            } else if pin == "C"@ || pin == "P"@ {
                Some(BusRange(47, 0))
            } else {
                None
            },
            MacroKind::Srlc32e => if pin == "A"@ {
                Some(BusRange(4, 0))
            } else {
                None
            },
        }
    }

    /// Bus range of a pin, most significant bit first.
    ///
    /// `None` means the pin is scalar (or unknown: unknown pins are rejected
    /// by [`MacroKind::direction_of`]).
    pub fn width_of(&self, pin: &str) -> (range: Option<BusRange>)
        ensures
            range == self.spec_width_of(pin@),
    {
        match self {
            MacroKind::Carry4 => if same_str(pin, "DI") || same_str(pin, "S") || same_str(pin, "O")
                || same_str(pin, "CO") {
                Some(BusRange(3, 0))
            } else {
                None
            },
            MacroKind::Dsp48e2 { .. } => if same_str(pin, "A") || same_str(pin, "D") {
                Some(BusRange(26, 0))
            } else if same_str(pin, "B") {
                Some(BusRange(17, 0))
            } else if same_str(pin, "C") || same_str(pin, "P") {
                Some(BusRange(47, 0))
            } else {
                None
            },
            MacroKind::Srlc32e => if same_str(pin, "A") {
                Some(BusRange(4, 0))
            } else {
                None
            },
        }
    }

    /// The code written into a macro lane descriptor.
    pub open spec fn spec_script_kind_code(self) -> u32 {
        match self {
            MacroKind::Srlc32e => MACRO_KIND_SRLC32E,
            _ => MACRO_KIND_CARRY4,
        }
    }

    /// The code written into a macro lane descriptor.
    ///
    /// A DSP48E2 has no mid-partition phase and therefore no code.
    pub fn script_kind_code(&self) -> (code: u32)
        requires
            !(self is Dsp48e2),
        ensures
            code == self.spec_script_kind_code(),
    {
        match self {
            MacroKind::Srlc32e => MACRO_KIND_SRLC32E,
            _ => MACRO_KIND_CARRY4,
        }
    }
}

/// The script code of a constant input: bit 14 marks it, bit 13 is its value.
pub open spec fn code_of_constant(pin_iv: usize) -> u16 {
    (0x4000 + pin_iv * 0x2000) as u16
}

/// The script code of an input that is read from position `pos`: bit 13 says
/// whether it is inverted.
pub open spec fn code_of_position(pin_iv: usize, pos: u16) -> u16 {
    (pos % 0x2000 + (pin_iv % 2) * 0x2000) as u16
}

/// The position that a script code reads.
pub open spec fn position_of_code(code: u16) -> usize {
    (code % 0x2000) as usize
}

/// The inversion bit of a script code.
pub open spec fn inversion_of_code(code: u16) -> u8 {
    ((code / 0x2000) % 2) as u8
}

/// Does a script code stand for a constant?
pub open spec fn is_constant_code(code: u16) -> bool {
    (code / 0x4000) % 2 == 1
}

/// The AIG pin of a literal: a literal is a pin index with an inversion bit
/// behind it.
pub open spec fn pin_of(pin_iv: usize) -> usize {
    pin_iv / 2
}

/// Encodes one macro input as a script permutation code.
///
/// `pin_iv` is an AIG pin index with its inversion bit. Values 0 and 1 are the
/// tie-low and tie-high constants. Any other pin must have a position: the
/// scheduler realises it before its phase.
pub fn macro_encode_input(pin_iv: usize, pos_of: impl Fn(usize) -> Option<u16>) -> (code: u16)
    requires
        pin_iv > 1 ==> pos_of.requires((pin_of(pin_iv),)),
        pin_iv > 1 ==> forall|r: Option<u16>| #[trigger] pos_of.ensures((pin_of(pin_iv),), r) ==> r is Some,
    ensures
        pin_iv <= 1 ==> code == code_of_constant(pin_iv),
        pin_iv > 1 ==> exists|pos: u16|
            #[trigger] pos_of.ensures((pin_of(pin_iv),), Some(pos)) && code == code_of_position(pin_iv, pos),
{
    if pin_iv <= 1 {
        let v: u16 = pin_iv as u16;
        assert((1u16 << 14) | (v << 13) == 0x4000 + v * 0x2000) by (bit_vector)
            requires
                v <= 1,
        ;
        return (1u16 << MACRO_PERM_CONST_BIT) | (v << MACRO_PERM_INV_BIT);
    }
    let place = pos_of(pin_iv / 2);
    match place {
        Some(pos) => {
            let inv: u16 = (pin_iv % 2) as u16;
            assert((pos & 0x1fff) | (inv << 13) == pos % 0x2000 + inv * 0x2000) by (bit_vector)
                requires
                    inv <= 1,
            ;
            (pos & MACRO_PERM_POS_MASK) | (inv << MACRO_PERM_INV_BIT)
        },
        None => 0,
    }
}

/// Decodes a macro input code against a bit-addressable state array.
pub fn macro_decode_input(code: u16, read_bit: impl Fn(usize) -> u8) -> (bit: u8)
    requires
        !is_constant_code(code) ==> read_bit.requires((position_of_code(code),)),
    ensures
        is_constant_code(code) ==> bit == inversion_of_code(code),
        !is_constant_code(code) ==> exists|b: u8|
            #[trigger] read_bit.ensures((position_of_code(code),), b) && bit == b ^ inversion_of_code(code),
{
    let inv: u8 = ((code >> MACRO_PERM_INV_BIT) & 1) as u8;
    assert(((code >> 13) & 1) == (code / 0x2000) % 2) by (bit_vector);
    assert(((code >> 14) & 1) == (code / 0x4000) % 2) by (bit_vector);
    assert((code & 0x1fff) == code % 0x2000) by (bit_vector);
    if (code >> MACRO_PERM_CONST_BIT) & 1 != 0 {
        return inv;
    }
    let b = read_bit((code & MACRO_PERM_POS_MASK) as usize);
    b ^ inv
}

/// A macro input survives encoding: a constant decodes to its value, a placed
/// pin to its position and inversion.
pub proof fn law_input_code_roundtrip(pin_iv: usize, pos: u16)
    ensures
        pin_iv <= 1 ==> is_constant_code(code_of_constant(pin_iv)) && inversion_of_code(
            code_of_constant(pin_iv),
        ) == pin_iv,
        pos <= MACRO_PERM_POS_MASK ==> !is_constant_code(code_of_position(pin_iv, pos)) && position_of_code(
            code_of_position(pin_iv, pos),
        ) == pos && inversion_of_code(code_of_position(pin_iv, pos)) == pin_iv % 2,
{
}

/// The AIG pins (without invert) of some input slots, constants left out.
pub open spec fn live_pins(inputs: Seq<usize>, slots: Seq<usize>) -> Seq<usize>
    decreases slots.len(),
{
    if slots.len() == 0 {
        Seq::empty()
    } else {
        let rest = live_pins(inputs, slots.drop_last());
        let pin = inputs[slots.last() as int] / 2;
        if pin != 0 {
            rest.push(pin)
        } else {
            rest
        }
    }
}

/// The elements of a sequence in the order in which they first occur.
pub open spec fn first_occurrences(s: Seq<usize>) -> Seq<usize>
    decreases s.len(),
{
    if s.len() == 0 {
        Seq::empty()
    } else {
        let rest = first_occurrences(s.drop_last());
        if rest.contains(s.last()) {
            rest
        } else {
            rest.push(s.last())
        }
    }
}

/// A sequence and its first occurrences have the same elements, and among the
/// latter none occurs twice.
pub proof fn law_first_occurrences(s: Seq<usize>)
    ensures
        first_occurrences(s).no_duplicates(),
        forall|v: usize| first_occurrences(s).contains(v) <==> s.contains(v),
    decreases s.len(),
{
    if s.len() != 0 {
        law_first_occurrences(s.drop_last());
        let rest = first_occurrences(s.drop_last());
        let all = first_occurrences(s);
        assert forall|v: usize| all.contains(v) <==> s.contains(v) by {
            assert(rest.contains(v) <==> s.drop_last().contains(v));
            if s.contains(v) {
                let i = choose|i: int| 0 <= i < s.len() && s[i] == v;
                if i < s.len() - 1 {
                    assert(s.drop_last()[i] == v);
                    let j = choose|j: int| 0 <= j < rest.len() && rest[j] == v;
                    assert(all[j] == v);
                } else if !rest.contains(v) {
                    assert(all[rest.len() as int] == v);
                }
            }
            if all.contains(v) {
                if rest.contains(v) {
                    let i = choose|i: int| 0 <= i < s.drop_last().len() && s.drop_last()[i] == v;
                    assert(s[i] == v);
                } else {
                    assert(s[s.len() - 1] == v);
                }
            }
        }
    }
}

/// One instantiated macro, resolved against the AIG.
#[derive(Debug)]
pub struct MacroInst {
    pub kind: MacroKind,
    /// Input AIG pins with invert bit, indexed by input slot.
    pub inputs: Vec<usize>,
    /// Output AIG pins without invert bit, indexed by output slot. A zero
    /// entry means that the output is unused.
    pub outputs: Vec<usize>,
    /// Clock enable traced from `CLK`, with invert bit. Constant 1 for
    /// combinational macros.
    pub clk_en_iv: usize,
}

impl Clone for MacroInst {
    fn clone(&self) -> (m: Self)
        ensures
            m.kind == self.kind,
            m.inputs@ == self.inputs@,
            m.outputs@ == self.outputs@,
            m.clk_en_iv == self.clk_en_iv,
    {
        MacroInst {
            kind: self.kind,
            inputs: self.inputs.clone(),
            outputs: self.outputs.clone(),
            clk_en_iv: self.clk_en_iv,
        }
    }
}

impl MacroInst {
    /// Every slot of the kind has an entry.
    pub open spec fn wf(self) -> bool {
        &&& self.inputs@.len() == self.kind.spec_num_inputs()
        &&& self.outputs@.len() == self.kind.spec_num_outputs()
    }

    /// The pins that an output slot depends on combinationally.
    pub open spec fn comb_pins(self, out_slot: usize) -> Seq<usize> {
        live_pins(self.inputs@, self.kind.spec_comb_fanin(out_slot))
    }

    /// The pins that the outputs below `n` with mid-partition evaluation
    /// depend on, output by output.
    pub open spec fn eval_pins_below(self, n: nat) -> Seq<usize>
        decreases n,
    {
        if n == 0 {
            Seq::empty()
        } else {
            let s = (n - 1) as usize;
            let rest = self.eval_pins_below((n - 1) as nat);
            if self.kind.spec_needs_eval(s) {
                rest + self.comb_pins(s)
            } else {
                rest
            }
        }
    }

    /// The pins that mid-partition evaluation waits for.
    pub open spec fn eval_pins(self) -> Seq<usize> {
        first_occurrences(self.eval_pins_below(self.kind.spec_num_outputs() as nat))
    }

    /// The pins that feed the next state, the clock enable first.
    pub open spec fn state_pins(self) -> Seq<usize> {
        (if self.clk_en_iv / 2 != 0 {
            seq![(self.clk_en_iv / 2) as usize]
        } else {
            Seq::empty()
        }) + live_pins(self.inputs@, self.kind.spec_state_fanin())
    }

    /// The used output pins below slot `n` that do (or do not) need
    /// mid-partition evaluation, in slot order.
    pub open spec fn outputs_below(self, n: nat, eval: bool) -> Seq<usize>
        decreases n,
    {
        if n == 0 {
            Seq::empty()
        } else {
            let s = (n - 1) as usize;
            let rest = self.outputs_below((n - 1) as nat, eval);
            if self.kind.spec_needs_eval(s) == eval && self.outputs@[s as int] != 0 {
                rest.push(self.outputs@[s as int])
            } else {
                rest
            }
        }
    }

    /// The output pins that mid-partition evaluation produces.
    pub open spec fn mid_outputs(self) -> Seq<usize> {
        self.outputs_below(self.kind.spec_num_outputs() as nat, true)
    }

    /// The output pins that are available at cycle start.
    pub open spec fn start_outputs(self) -> Seq<usize> {
        self.outputs_below(self.kind.spec_num_outputs() as nat, false)
    }

    /// A macro whose inputs have their default values and whose outputs are
    /// unused.
    pub fn new(kind: MacroKind) -> (m: MacroInst)
        ensures
            m.wf(),
            m.kind == kind,
            forall|s: usize| s < kind.spec_num_inputs()
                ==> #[trigger] m.inputs@[s as int] == kind.spec_default_input(s),
            forall|s: int| 0 <= s < kind.spec_num_outputs() ==> #[trigger] m.outputs@[s] == 0,
            m.clk_en_iv == 1,
    {
        MacroInst { kind, inputs: default_inputs(kind), outputs: vec![0; kind.num_outputs()], clk_en_iv: 1 }
    }

    /// The combinational fan-in AIG pins (without invert) of an output slot,
    /// constants skipped.
    pub fn for_each_comb_fanin(&self, out_slot: usize) -> (pins: Vec<usize>)
        requires
            out_slot <= usize::MAX - 2,
            forall|i: int|
                0 <= i < self.kind.spec_comb_fanin(out_slot).len() ==> #[trigger] self.kind.spec_comb_fanin(
                    out_slot,
                )[i] < self.inputs@.len(),
        ensures
            pins@ == self.comb_pins(out_slot),
    {
        let slots = self.kind.comb_fanin_of_output(out_slot);
        collect_live_pins(&self.inputs, &slots)
    }

    /// Every AIG pin (without invert) that must be realised before this
    /// macro's mid-partition evaluation can run, each once.
    ///
    /// This is the union over the outputs that need mid-partition evaluation,
    /// so a macro with no such outputs (a DSP) yields nothing.
    pub fn for_each_eval_fanin(&self) -> (pins: Vec<usize>)
        requires
            self.wf(),
        ensures
            pins@ == self.eval_pins(),
    {
        let mut pins: Vec<usize> = Vec::new();
        let n = self.kind.num_outputs();
        let mut out_slot: usize = 0;
        while out_slot < n
            invariant
                self.wf(),
                n == self.kind.spec_num_outputs(),
                n <= 48,
                out_slot <= n,
                pins@ == first_occurrences(self.eval_pins_below(out_slot as nat)),
            decreases n - out_slot,
        {
            if self.kind.output_needs_mid_partition_eval(out_slot) {
                proof {
                    lemma_comb_slots_in_range(self.kind, out_slot);
                }
                let more = self.for_each_comb_fanin(out_slot);
                let ghost before = self.eval_pins_below(out_slot as nat);
                let mut i: usize = 0;
                assert(before + more@.take(0) =~= before);
                while i < more.len()
                    invariant
                        i <= more.len(),
                        pins@ == first_occurrences(before + more@.take(i as int)),
                    decreases more.len() - i,
                {
                    let ghost s = before + more@.take(i + 1);
                    assert(s.drop_last() =~= before + more@.take(i as int));
                    assert(s.last() == more@[i as int]);
                    if !vec_contains(&pins, more[i]) {
                        pins.push(more[i]);
                    }
                    i += 1;
                }
                assert(more@.take(more@.len() as int) =~= more@);
            }
            out_slot += 1;
        }
        pins
    }

    /// The AIG pins (without invert) feeding the clocked next-state
    /// computation, including the clock enable.
    pub fn for_each_state_fanin(&self) -> (pins: Vec<usize>)
        requires
            forall|i: int|
                0 <= i < self.kind.spec_state_fanin().len() ==> #[trigger] self.kind.spec_state_fanin()[i]
                    < self.inputs@.len(),
        ensures
            pins@ == self.state_pins(),
    {
        let mut pins: Vec<usize> = Vec::new();
        if self.clk_en_iv / 2 != 0 {
            pins.push(self.clk_en_iv / 2);
        }
        let slots = self.kind.state_fanin();
        let mut rest = collect_live_pins(&self.inputs, &slots);
        pins.append(&mut rest);
        assert(pins@ =~= self.state_pins());
        pins
    }

    /// The output AIG pins that are produced by mid-partition evaluation.
    pub fn mid_partition_outputs(&self) -> (pins: Vec<usize>)
        requires
            self.wf(),
        ensures
            pins@ == self.mid_outputs(),
    {
        self.select_outputs(true)
    }

    /// The output AIG pins that are pure state reads, available at cycle start
    /// like a DFF `Q`.
    pub fn cycle_start_outputs(&self) -> (pins: Vec<usize>)
        requires
            self.wf(),
        ensures
            pins@ == self.start_outputs(),
    {
        self.select_outputs(false)
    }

    fn select_outputs(&self, eval: bool) -> (pins: Vec<usize>)
        requires
            self.wf(),
        ensures
            pins@ == self.outputs_below(self.kind.spec_num_outputs() as nat, eval),
    {
        let mut pins: Vec<usize> = Vec::new();
        let n = self.kind.num_outputs();
        let mut s: usize = 0;
        while s < n
            invariant
                self.wf(),
                n == self.kind.spec_num_outputs(),
                n <= 48,
                s <= n,
                pins@ == self.outputs_below(s as nat, eval),
            decreases n - s,
        {
            if self.kind.output_needs_mid_partition_eval(s) == eval && self.outputs[s] != 0 {
                pins.push(self.outputs[s]);
            }
            s += 1;
        }
        pins
    }
}

/// The literals of a macro's input slots when no pin is connected.
pub(crate) fn default_inputs(kind: MacroKind) -> (inputs: Vec<usize>)
    ensures
        inputs@.len() == kind.spec_num_inputs(),
        forall|s: usize| s < kind.spec_num_inputs() ==> #[trigger] inputs@[s as int] == kind.spec_default_input(s),
{
    let mut inputs: Vec<usize> = Vec::new();
    let n = kind.num_inputs();
    let mut s: usize = 0;
    while s < n
        invariant
            n == kind.spec_num_inputs(),
            s <= n,
            inputs@.len() == s,
            forall|t: usize| t < s ==> #[trigger] inputs@[t as int] == kind.spec_default_input(t),
        decreases n - s,
    {
        inputs.push(kind.default_input(s));
        s += 1;
    }
    inputs
}

/// Is the value in the vector?
pub(crate) fn vec_contains(v: &Vec<usize>, x: usize) -> (b: bool)
    ensures
        b == v@.contains(x),
{
    let mut i: usize = 0;
    while i < v.len()
        invariant
            i <= v.len(),
            forall|j: int| 0 <= j < i ==> v@[j] != x,
        decreases v.len() - i,
    {
        if v[i] == x {
            return true;
        }
        i += 1;
    }
    false
}

fn collect_live_pins(inputs: &Vec<usize>, slots: &Vec<usize>) -> (pins: Vec<usize>)
    requires
        forall|i: int| 0 <= i < slots@.len() ==> #[trigger] slots@[i] < inputs@.len(),
    ensures
        pins@ == live_pins(inputs@, slots@),
{
    let mut pins: Vec<usize> = Vec::new();
    let mut i: usize = 0;
    while i < slots.len()
        invariant
            i <= slots.len(),
            forall|i: int| 0 <= i < slots@.len() ==> #[trigger] slots@[i] < inputs@.len(),
            pins@ == live_pins(inputs@, slots@.take(i as int)),
        decreases slots.len() - i,
    {
        let pin: usize = inputs[slots[i]] / 2;
        assert(slots@.take(i + 1).drop_last() =~= slots@.take(i as int));
        if pin != 0 {
            pins.push(pin);
        }
        i += 1;
    }
    assert(slots@.take(slots@.len() as int) =~= slots@);
    pins
}

/// Fan-in slots of existing outputs are existing input slots.
pub(crate) proof fn lemma_comb_slots_in_range(kind: MacroKind, out_slot: usize)
    requires
        out_slot < kind.spec_num_outputs(),
    ensures
        forall|i: int|
            0 <= i < kind.spec_comb_fanin(out_slot).len() ==> #[trigger] kind.spec_comb_fanin(out_slot)[i]
                < kind.spec_num_inputs(),
{
}

/// Next-state slots are existing input slots.
pub(crate) proof fn lemma_state_slots_in_range(kind: MacroKind)
    ensures
        forall|i: int|
            0 <= i < kind.spec_state_fanin().len() ==> #[trigger] kind.spec_state_fanin()[i]
                < kind.spec_num_inputs(),
{
}

/// An output that has to be evaluated is one of those that evaluation produces.
pub(crate) proof fn lemma_mid_output(m: MacroInst, s: int)
    requires
        m.wf(),
        0 <= s < m.kind.spec_num_outputs(),
        m.outputs@[s] != 0,
        m.kind.spec_needs_eval(s as usize),
    ensures
        m.mid_outputs().contains(m.outputs@[s]),
{
    lemma_outputs_below(m, m.kind.spec_num_outputs() as nat, s);
}

/// What evaluation produces is an output.
pub(crate) proof fn lemma_mid_slot(m: MacroInst, q: usize) -> (s: int)
    requires
        m.wf(),
        m.mid_outputs().contains(q),
    ensures
        0 <= s < m.outputs@.len(),
        m.outputs@[s] == q,
        q != 0,
{
    lemma_below_slot(m, m.kind.spec_num_outputs() as nat, q)
}

proof fn lemma_below_slot(m: MacroInst, n: nat, q: usize) -> (s: int)
    requires
        n <= m.outputs@.len(),
        n <= 64,
        m.outputs_below(n, true).contains(q),
    ensures
        0 <= s < n,
        m.outputs@[s] == q,
        q != 0,
    decreases n,
{
    let all = m.outputs_below(n, true);
    let rest = m.outputs_below((n - 1) as nat, true);
    let i = all.index_of(q);
    if i < rest.len() {
        assert(rest[i] == q);
        lemma_below_slot(m, (n - 1) as nat, q)
    } else {
        n - 1
    }
}

proof fn lemma_outputs_below(m: MacroInst, n: nat, s: int)
    requires
        0 <= s < n,
        m.outputs@[s] != 0,
        m.kind.spec_needs_eval(s as usize),
        n <= 64,
    ensures
        m.outputs_below(n, true).contains(m.outputs@[s]),
    decreases n,
{
    let all = m.outputs_below(n, true);
    let rest = m.outputs_below((n - 1) as nat, true);
    if s == n - 1 {
        assert(all[all.len() - 1] == m.outputs@[s]);
    } else {
        lemma_outputs_below(m, (n - 1) as nat, s);
        assert(all[rest.index_of(m.outputs@[s])] == m.outputs@[s]);
    }
}

/// Every live pin comes from one of the slots, and every slot with a pin
/// contributes it.
pub(crate) proof fn lemma_live_pins(inputs: Seq<usize>, slots: Seq<usize>)
    ensures
        forall|p: usize| #[trigger] live_pins(inputs, slots).contains(p) <==> (p != 0 && exists|i: int|
            0 <= i < slots.len() && inputs[#[trigger] slots[i] as int] / 2 == p),
    decreases slots.len(),
{
    if slots.len() != 0 {
        let init = slots.drop_last();
        lemma_live_pins(inputs, init);
        let rest = live_pins(inputs, init);
        let all = live_pins(inputs, slots);
        let last = (inputs[slots.last() as int] / 2) as usize;
        assert forall|p: usize| #[trigger] all.contains(p) <==> (p != 0 && exists|i: int|
            0 <= i < slots.len() && inputs[#[trigger] slots[i] as int] / 2 == p) by {
            if all.contains(p) {
                let j = choose|j: int| 0 <= j < all.len() && all[j] == p;
                if j < rest.len() {
                    assert(rest[j] == p);
                    assert(rest.contains(p));
                    let i = choose|i: int| 0 <= i < init.len() && inputs[#[trigger] init[i] as int] / 2 == p;
                    assert(slots[i] == init[i]);
                } else {
                    assert(inputs[slots[slots.len() - 1] as int] / 2 == p);
                }
            }
            if p != 0 && exists|i: int| 0 <= i < slots.len() && inputs[#[trigger] slots[i] as int] / 2 == p {
                let i = choose|i: int| 0 <= i < slots.len() && inputs[#[trigger] slots[i] as int] / 2 == p;
                if i < init.len() {
                    assert(init[i] == slots[i]);
                    assert(rest.contains(p));
                    let j = choose|j: int| 0 <= j < rest.len() && rest[j] == p;
                    assert(all[j] == p);
                } else {
                    assert(all[rest.len() as int] == p);
                }
            }
        }
    }
}

/// A live slot is a live pin.
pub(crate) proof fn lemma_live(inputs: Seq<usize>, slots: Seq<usize>, s: usize)
    requires
        slots.contains(s),
        inputs[s as int] / 2 != 0,
    ensures
        live_pins(inputs, slots).contains((inputs[s as int] / 2) as usize),
    decreases slots.len(),
{
    let before = slots.drop_last();
    let rest = live_pins(inputs, before);
    let all = live_pins(inputs, slots);
    let w = (inputs[s as int] / 2) as usize;
    if slots.last() == s {
        assert(all[all.len() - 1] == w);
    } else {
        let k = slots.index_of(s);
        assert(before[k] == s);
        lemma_live(inputs, before, s);
        assert(all[rest.index_of(w)] == w);
    }
}

} // verus!
