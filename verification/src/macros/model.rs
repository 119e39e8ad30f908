//! What macros compute, and from which of their inputs.

use super::{carry_links, MacroKind};
use super::laws::lemma_pin_names;
use vstd::prelude::*;

verus! {

/// The carry behind the lowest `i` bits of a CARRY4: at first its carry-in or its
/// initial carry, slots 0 and 1; then, at each bit, the carry before it where `S` is set,
/// slots 6 to 9, or else `DI`, slots 2 to 5.
pub open spec fn carry_at(x: Seq<bool>, i: nat) -> bool
    decreases i,
{
    if i == 0 {
        x[0] || x[1]
    } else if x[6 + (i - 1)] {
        carry_at(x, (i - 1) as nat)
    } else {
        x[2 + (i - 1)]
    }
}

/// The outputs of a CARRY4: its sums are at slots 0 to 3, and its carries at slots 4 to 7.
pub open spec fn carry_output(x: Seq<bool>, slot: int) -> bool {
    if slot < 4 {
        x[6 + slot] != carry_at(x, slot as nat)
    } else {
        carry_at(x, (slot - 4 + 1) as nat)
    }
}

/// The address of an SRLC32E, slots 2 to 6.
pub open spec fn shift_address(x: Seq<bool>, n: nat) -> nat
    decreases n,
{
    if n == 0 {
        0
    } else {
        shift_address(x, (n - 1) as nat) * 2 + (if x[2 + 5 - n] {
            1nat
        } else {
            0nat
        })
    }
}

/// The outputs of an SRLC32E: the bit of its state at its address, and the last one.
pub open spec fn shift_output(x: Seq<bool>, state: Seq<bool>, slot: int) -> bool {
    if slot == 0 {
        state[shift_address(x, 5) as int]
    } else {
        state[31]
    }
}

/// The next state of an SRLC32E: where it is enabled, by slot 1, the bit at slot 0 is
/// shifted in.
pub open spec fn shifted(x: Seq<bool>, state: Seq<bool>) -> Seq<bool> {
    if x[1] {
        Seq::new(
            32,
            |k: int|
                if k == 0 {
                    x[0]
                } else {
                    state[k - 1]
                },
        )
    } else {
        state
    }
}

/// The value of an output of a macro with the given inputs and state. That of a DSP is a
/// bit of its state.
pub open spec fn macro_output(kind: MacroKind, x: Seq<bool>, state: Seq<bool>, slot: int) -> bool {
    match kind {
        MacroKind::Carry4 => carry_output(x, slot),
        MacroKind::Srlc32e => shift_output(x, state, slot),
        MacroKind::Dsp48e2 { .. } => state[slot],
    }
}

/// Do two sets of inputs agree in some slots?
pub open spec fn agree_in(x: Seq<bool>, y: Seq<bool>, slots: Seq<usize>) -> bool {
    forall|i: int| 0 <= i < slots.len() ==> x[#[trigger] slots[i] as int] == y[slots[i] as int]
}

proof fn lemma_links_agree(x: Seq<bool>, y: Seq<bool>, slots: Seq<usize>, n: nat, i: nat)
    requires
        agree_in(x, y, slots),
        n <= 4,
        slots.len() >= 2 + 2 * n,
        slots.subrange(0, 2 + 2 * n as int) == seq![0usize, 1usize] + carry_links(n),
        i <= n,
    ensures
        carry_at(x, i) == carry_at(y, i),
    decreases i,
{
    let all = seq![0usize, 1usize] + carry_links(n);
    let front = slots.subrange(0, 2 + 2 * n as int);
    assert forall|k: int| 0 <= k < 2 + 2 * n implies x[#[trigger] all[k] as int] == y[all[k] as int] by {
        assert(front[k] == slots[k]);
    }
    if i == 0 {
        assert(all[0] == 0 && all[1] == 1);
    } else {
        lemma_links_agree(x, y, slots, n, (i - 1) as nat);
        let k = 2 * (i - 1);
        assert(k % 2 == 0 && k / 2 == i - 1 && (k + 1) % 2 == 1 && (k + 1) / 2 == i - 1);
        assert(all[2 + k] == 6 + (i - 1));
        assert(all[2 + k + 1] == 2 + (i - 1));
    }
}

proof fn lemma_address_agrees(x: Seq<bool>, y: Seq<bool>, n: nat)
    requires
        n <= 5,
        forall|k: int| 2 <= k < 7 ==> x[k] == y[k],
    ensures
        shift_address(x, n) == shift_address(y, n),
    decreases n,
{
    if n > 0 {
        lemma_address_agrees(x, y, (n - 1) as nat);
    }
}

/// Outputs depend on their fan-in only: two sets of inputs that agree in the slots that an
/// output depends on give it the same value.
pub proof fn law_fanin_decides_outputs(
    kind: MacroKind,
    x: Seq<bool>,
    y: Seq<bool>,
    state: Seq<bool>,
    slot: usize,
)
    requires
        slot < kind.spec_num_outputs(),
        agree_in(x, y, kind.spec_comb_fanin(slot)),
    ensures
        macro_output(kind, x, state, slot as int) == macro_output(kind, y, state, slot as int),
{
    let slots = kind.spec_comb_fanin(slot);
    match kind {
        MacroKind::Carry4 => {
            if slot < 4 {
                let n = slot as nat;
                assert(slots.subrange(0, 2 + 2 * n as int) =~= seq![0usize, 1usize] + carry_links(n));
                lemma_links_agree(x, y, slots, n, n);
                assert(slots[2 + 2 * n as int] == 6 + slot);
            } else {
                let n = (slot - 4 + 1) as nat;
                assert(slots.subrange(0, 2 + 2 * n as int) =~= seq![0usize, 1usize] + carry_links(n));
                lemma_links_agree(x, y, slots, n, n);
            }
        },
        MacroKind::Srlc32e => {
            if slot == 0 {
                assert forall|k: int| 2 <= k < 7 implies x[k] == y[k] by {
                    assert(slots[k - 2] == k);
                }
                lemma_address_agrees(x, y, 5);
            }
        },
        MacroKind::Dsp48e2 { .. } => {},
    }
}

/// A fan-in holds nothing that its output does not depend on: for each slot of it, there
/// are inputs for which flipping the slot alone flips the output.
pub proof fn law_fanin_is_needed(kind: MacroKind, slot: usize, s: usize) -> (r: (Seq<bool>, Seq<bool>))
    requires
        slot < kind.spec_num_outputs(),
        kind.spec_comb_fanin(slot).contains(s),
    ensures
        s < kind.spec_num_inputs(),
        r.0.len() == kind.spec_num_inputs(),
        r.1.len() == 32,
        macro_output(kind, r.0, r.1, slot as int) != macro_output(
            kind,
            r.0.update(s as int, !r.0[s as int]),
            r.1,
            slot as int,
        ),
{
    let slots = kind.spec_comb_fanin(slot);
    let i = slots.index_of(s);
    match kind {
        MacroKind::Carry4 => {
            reveal_with_fuel(carry_at, 5);
            // The number of the bit whose inputs the slot may be.
            let bit = if s >= 6 {
                s - 6
            } else {
                s - 2
            };
            // With all other bits handing the carry on, each input decides.
            let x = if s <= 1 {
                Seq::new(10, |k: int| k >= 6)
            } else if s < 6 {
                Seq::new(10, |k: int| k >= 6 && k != 6 + bit)
            } else {
                Seq::new(10, |k: int| k == 0 || k >= 6)
            };
            let y = x.update(s as int, !x[s as int]);
            lemma_carry_slots(slot, s);
            (x, Seq::new(32, |k: int| false))
        },
        MacroKind::Srlc32e => {
            reveal_with_fuel(shift_address, 6);
            let x = Seq::new(7, |k: int| false);
            assert(slot == 0);
            assert(slots[i] == 2 + i);
            (x, Seq::new(32, |k: int| k > 0))
        },
        MacroKind::Dsp48e2 { .. } => {
            (Seq::empty(), Seq::empty())
        },
    }
}

/// Which slots an output of a CARRY4 depends on.
proof fn lemma_carry_slots(slot: usize, s: usize)
    requires
        slot < 8,
        MacroKind::Carry4.spec_comb_fanin(slot).contains(s),
    ensures
        s < 10,
        slot < 4 && 2 <= s < 6 ==> s - 2 < slot,
        slot < 4 && 6 <= s ==> s - 6 <= slot,
        slot >= 4 && 2 <= s < 6 ==> s - 2 <= slot - 4,
        slot >= 4 && 6 <= s ==> s - 6 <= slot - 4,
{
    let slots = MacroKind::Carry4.spec_comb_fanin(slot);
    let i = slots.index_of(s);
    assert(slots[i] == s);
}

/// The next state of a shift register depends on its data and its enable only.
pub proof fn law_state_fanin_decides_state(x: Seq<bool>, y: Seq<bool>, state: Seq<bool>)
    requires
        agree_in(x, y, MacroKind::Srlc32e.spec_state_fanin()),
    ensures
        shifted(x, state) == shifted(y, state),
{
    let slots = MacroKind::Srlc32e.spec_state_fanin();
    assert(slots[0] == 0 && slots[1] == 1);
    assert(x[slots[0] as int] == y[slots[0] as int]);
    assert(x[slots[1] as int] == y[slots[1] as int]);
    assert(shifted(x, state) =~= shifted(y, state));
}

/// The slots of the pins, by name: those of a bus follow each other from its lowest bit on.
pub open spec fn slot_of_name(kind: MacroKind, pin: Seq<char>, bit: Option<usize>) -> Option<int> {
    match (kind, bit) {
        (MacroKind::Carry4, None) => if pin == "CI"@ || pin == "CIN"@ {
            Some(0)
        } else if pin == "CYINIT"@ {
            Some(1)
        } else {
            None
        },
        (MacroKind::Carry4, Some(b)) => if pin == "DI"@ && b < 4 {
            Some(2 + b)
        } else if pin == "S"@ && b < 4 {
            Some(6 + b)
        } else {
            None
        },
        (MacroKind::Srlc32e, None) => if pin == "D"@ {
            Some(0)
        } else if pin == "CE"@ {
            Some(1)
        } else {
            None
        },
        (MacroKind::Srlc32e, Some(b)) => if pin == "A"@ && b < 5 {
            Some(2 + b)
        } else {
            None
        },
        (MacroKind::Dsp48e2 { .. }, None) => if pin == "CEP"@ {
            Some(120)
        } else {
            None
        },
        (MacroKind::Dsp48e2 { .. }, Some(b)) => if pin == "A"@ && b < 27 {
            Some(b as int)
        } else if pin == "B"@ && b < 18 {
            Some(27 + b)
        } else if pin == "C"@ && b < 48 {
            Some(45 + b)
        } else if pin == "D"@ && b < 27 {
            Some(93 + b)
        } else {
            None
        },
    }
}

/// The slots of the output pins, by name.
pub open spec fn out_slot_of_name(kind: MacroKind, pin: Seq<char>, bit: Option<usize>) -> Option<int> {
    match (kind, bit) {
        (MacroKind::Carry4, Some(b)) => if pin == "O"@ && b < 4 {
            Some(b as int)
        } else if pin == "CO"@ && b < 4 {
            Some(4 + b)
        } else {
            None
        },
        (MacroKind::Srlc32e, None) => if pin == "Q"@ {
            Some(0)
        } else if pin == "Q31"@ {
            Some(1)
        } else {
            None
        },
        (MacroKind::Dsp48e2 { .. }, Some(b)) => if pin == "P"@ && b < 48 {
            Some(b as int)
        } else {
            None
        },
        _ => None,
    }
}

/// Pins stand for the inputs and outputs that the macros compute with.
pub proof fn law_pins_stand_for_slots(kind: MacroKind, pin: Seq<char>, bit: Option<usize>)
    ensures
        match kind.spec_input_slot(pin, bit) {
            Some(s) => slot_of_name(kind, pin, bit) == Some(s as int),
            None => slot_of_name(kind, pin, bit) is None,
        },
        match kind.spec_output_slot(pin, bit) {
            Some(s) => out_slot_of_name(kind, pin, bit) == Some(s as int),
            None => out_slot_of_name(kind, pin, bit) is None,
        },
{
    lemma_pin_names();
}

/// The state of a macro holds what its outputs read: the 48 bits of a DSP's `P`, the 32
/// bits that an address of 5 bits reaches, and nothing for a CARRY4. It takes whole words.
pub proof fn law_state_sizes(kind: MacroKind)
    ensures
        kind.spec_state_bits() == match kind {
            MacroKind::Carry4 => 0int,
            MacroKind::Srlc32e => 32,
            MacroKind::Dsp48e2 { .. } => 48,
        },
        kind.spec_state_words() == match kind {
            MacroKind::Carry4 => 0int,
            MacroKind::Srlc32e => 1,
            MacroKind::Dsp48e2 { .. } => 2,
        },
        kind.spec_input_words() == match kind {
            MacroKind::Carry4 => 1int,
            MacroKind::Srlc32e => 1,
            MacroKind::Dsp48e2 { .. } => 4,
        },
        kind.spec_has_state() <==> kind.spec_state_bits() > 0,
        kind.spec_is_endpoint() <==> kind is Dsp48e2,
{
}

} // verus!
