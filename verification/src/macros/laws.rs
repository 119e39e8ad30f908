//! What holds of all word-level macros.

use super::{
    carry_links, law_first_occurrences, MacroInst, MacroKind, C4_IN_CI, C4_IN_CYINIT, C4_IN_DI, C4_IN_S, C4_OUT_CO,
    C4_OUT_O, DSP_IN_A, DSP_IN_B, DSP_IN_C, DSP_IN_CEP, DSP_IN_D, SRL_IN_A, SRL_IN_CE, SRL_IN_D, SRL_OUT_Q,
};
use vstd::prelude::*;

verus! {

/// The names of pins are different.
pub(super) proof fn lemma_pin_names()
    ensures
        "CI"@ != "CYINIT"@,
        "CI"@ != "DI"@,
        "CI"@ != "S"@,
        "CI"@ != "O"@,
        "CI"@ != "CO"@,
        "CIN"@ != "CYINIT"@,
        "CIN"@ != "DI"@,
        "CIN"@ != "S"@,
        "CIN"@ != "O"@,
        "CIN"@ != "CO"@,
        "CYINIT"@ != "DI"@,
        "CYINIT"@ != "S"@,
        "CYINIT"@ != "O"@,
        "CYINIT"@ != "CO"@,
        "DI"@ != "S"@,
        "DI"@ != "O"@,
        "DI"@ != "CO"@,
        "S"@ != "O"@,
        "S"@ != "CO"@,
        "O"@ != "CO"@,
        "A"@ != "B"@,
        "A"@ != "C"@,
        "A"@ != "D"@,
        "A"@ != "P"@,
        "A"@ != "CEP"@,
        "B"@ != "C"@,
        "B"@ != "D"@,
        "B"@ != "P"@,
        "B"@ != "CEP"@,
        "C"@ != "D"@,
        "C"@ != "P"@,
        "C"@ != "CEP"@,
        "D"@ != "P"@,
        "D"@ != "CEP"@,
        "P"@ != "CEP"@,
        "D"@ != "CE"@,
        "D"@ != "Q"@,
        "D"@ != "Q31"@,
        "CE"@ != "A"@,
        "CE"@ != "Q"@,
        "CE"@ != "Q31"@,
        "A"@ != "Q"@,
        "A"@ != "Q31"@,
        "Q"@ != "Q31"@,
        "CLK"@ != "A"@,
        "CLK"@ != "B"@,
        "CLK"@ != "C"@,
        "CLK"@ != "D"@,
        "CLK"@ != "P"@,
        "CLK"@ != "CEP"@,
        "CLK"@ != "CE"@,
        "CLK"@ != "Q"@,
        "CLK"@ != "Q31"@,
{
    reveal_strlit("CI");
    reveal_strlit("CIN");
    reveal_strlit("CYINIT");
    reveal_strlit("DI");
    reveal_strlit("S");
    reveal_strlit("O");
    reveal_strlit("CO");
    reveal_strlit("A");
    reveal_strlit("B");
    reveal_strlit("C");
    reveal_strlit("D");
    reveal_strlit("P");
    reveal_strlit("CEP");
    reveal_strlit("CE");
    reveal_strlit("Q");
    reveal_strlit("Q31");
    reveal_strlit("CLK");
    assert("CI"@.len() == 2 && "CI"@[0] == 'C' && "CI"@[1] == 'I');
    assert("CIN"@.len() == 3 && "CIN"@[0] == 'C');
    assert("CYINIT"@.len() == 6);
    assert("DI"@.len() == 2 && "DI"@[0] == 'D');
    assert("S"@.len() == 1 && "S"@[0] == 'S');
    assert("O"@.len() == 1 && "O"@[0] == 'O');
    assert("CO"@.len() == 2 && "CO"@[0] == 'C' && "CO"@[1] == 'O');
    assert("A"@.len() == 1 && "A"@[0] == 'A');
    assert("B"@.len() == 1 && "B"@[0] == 'B');
    assert("C"@.len() == 1 && "C"@[0] == 'C');
    assert("D"@.len() == 1 && "D"@[0] == 'D');
    assert("P"@.len() == 1 && "P"@[0] == 'P');
    assert("CEP"@.len() == 3 && "CEP"@[1] == 'E');
    assert("CE"@.len() == 2);
    assert("Q"@.len() == 1 && "Q"@[0] == 'Q');
    assert("Q31"@.len() == 3 && "Q31"@[0] == 'Q');
    assert("CLK"@.len() == 3 && "CLK"@[0] == 'C' && "CLK"@[1] == 'L');
}

/// Slots of pins are in range.
pub proof fn law_slots_in_range(kind: MacroKind, pin: Seq<char>, bit: Option<usize>)
    ensures
        kind.spec_input_slot(pin, bit) matches Some(s) ==> s < kind.spec_num_inputs(),
        kind.spec_output_slot(pin, bit) matches Some(s) ==> s < kind.spec_num_outputs(),
{
}

/// Are the two names those of one pin? The cascade input of a CARRY4 has two.
pub open spec fn same_pin(kind: MacroKind, a: Seq<char>, b: Seq<char>) -> bool {
    a == b || (kind is Carry4 && (a == "CI"@ || a == "CIN"@) && (b == "CI"@ || b == "CIN"@))
}

/// No two pins share an input slot.
pub proof fn law_input_slots_apart(
    kind: MacroKind,
    a: Seq<char>,
    i: Option<usize>,
    b: Seq<char>,
    j: Option<usize>,
)
    requires
        kind.spec_input_slot(a, i) is Some,
        kind.spec_input_slot(a, i) == kind.spec_input_slot(b, j),
    ensures
        same_pin(kind, a, b),
        i == j,
{
    lemma_pin_names();
}

/// No two pins share an output slot.
pub proof fn law_output_slots_apart(
    kind: MacroKind,
    a: Seq<char>,
    i: Option<usize>,
    b: Seq<char>,
    j: Option<usize>,
)
    requires
        kind.spec_output_slot(a, i) is Some,
        kind.spec_output_slot(a, i) == kind.spec_output_slot(b, j),
    ensures
        a == b,
        i == j,
{
    lemma_pin_names();
}

/// No pin is both an input and an output.
pub proof fn law_pins_one_way(kind: MacroKind, pin: Seq<char>, i: Option<usize>, j: Option<usize>)
    ensures
        kind.spec_input_slot(pin, i) is None || kind.spec_output_slot(pin, j) is None,
{
    lemma_pin_names();
}

/// Every input slot belongs to a pin.
pub proof fn law_input_slots_reached(kind: MacroKind, s: usize)
    requires
        s < kind.spec_num_inputs(),
    ensures
        exists|pin: Seq<char>, bit: Option<usize>| #[trigger] kind.spec_input_slot(pin, bit) == Some(s),
{
    lemma_pin_names();
    match kind {
        MacroKind::Carry4 => {
            if s == C4_IN_CI {
                assert(kind.spec_input_slot("CI"@, None) == Some(s));
            } else if s == C4_IN_CYINIT {
                assert(kind.spec_input_slot("CYINIT"@, None) == Some(s));
            } else if s < C4_IN_S {
                assert(kind.spec_input_slot("DI"@, Some((s - C4_IN_DI) as usize)) == Some(s));
            } else {
                assert(kind.spec_input_slot("S"@, Some((s - C4_IN_S) as usize)) == Some(s));
            }
        },
        MacroKind::Dsp48e2 { .. } => {
            if s < DSP_IN_B {
                assert(kind.spec_input_slot("A"@, Some((s - DSP_IN_A) as usize)) == Some(s));
            } else if s < DSP_IN_C {
                assert(kind.spec_input_slot("B"@, Some((s - DSP_IN_B) as usize)) == Some(s));
            } else if s < DSP_IN_D {
                assert(kind.spec_input_slot("C"@, Some((s - DSP_IN_C) as usize)) == Some(s));
            } else if s < DSP_IN_CEP {
                assert(kind.spec_input_slot("D"@, Some((s - DSP_IN_D) as usize)) == Some(s));
            } else {
                assert(kind.spec_input_slot("CEP"@, None) == Some(s));
            }
        },
        MacroKind::Srlc32e => {
            if s == SRL_IN_D {
                assert(kind.spec_input_slot("D"@, None) == Some(s));
            } else if s == SRL_IN_CE {
                assert(kind.spec_input_slot("CE"@, None) == Some(s));
            } else {
                assert(kind.spec_input_slot("A"@, Some((s - SRL_IN_A) as usize)) == Some(s));
            }
        },
    }
}

/// Every output slot belongs to a pin.
pub proof fn law_output_slots_reached(kind: MacroKind, s: usize)
    requires
        s < kind.spec_num_outputs(),
    ensures
        exists|pin: Seq<char>, bit: Option<usize>| #[trigger] kind.spec_output_slot(pin, bit) == Some(s),
{
    lemma_pin_names();
    match kind {
        MacroKind::Carry4 => {
            if s < C4_OUT_CO {
                assert(kind.spec_output_slot("O"@, Some((s - C4_OUT_O) as usize)) == Some(s));
            } else {
                assert(kind.spec_output_slot("CO"@, Some((s - C4_OUT_CO) as usize)) == Some(s));
            }
        },
        MacroKind::Dsp48e2 { .. } => {
            assert(kind.spec_output_slot("P"@, Some(s)) == Some(s));
        },
        MacroKind::Srlc32e => {
            if s == SRL_OUT_Q {
                assert(kind.spec_output_slot("Q"@, None) == Some(s));
            } else {
                assert(kind.spec_output_slot("Q31"@, None) == Some(s));
            }
        },
    }
}

/// Buses have exactly the bits in their range, and pins without a range have no
/// bits.
pub proof fn law_widths_agree(kind: MacroKind, pin: Seq<char>, b: isize)
    ensures
        kind.spec_width_of(pin) matches Some(range) ==> range.1 == 0 && (kind.spec_direction_of(pin, Some(b)) is Some
            <==> 0 <= b <= range.0) && kind.spec_direction_of(pin, None) is None,
        kind.spec_width_of(pin) is None ==> kind.spec_direction_of(pin, Some(b)) is None,
{
    lemma_pin_names();
}

/// The carry chain of a CARRY4 is triangular: sum bit `i` depends on the
/// propagate bits up to `i` and the generate bits below `i`, and carry bit `i`
/// on both up to `i`.
pub proof fn law_carry_is_triangular(i: usize, j: usize)
    requires
        i < 4,
        j < 4,
    ensures
        MacroKind::Carry4.spec_comb_fanin((C4_OUT_O + i) as usize).contains((C4_IN_S + j) as usize) <==> j <= i,
        MacroKind::Carry4.spec_comb_fanin((C4_OUT_O + i) as usize).contains((C4_IN_DI + j) as usize) <==> j < i,
        MacroKind::Carry4.spec_comb_fanin((C4_OUT_CO + i) as usize).contains((C4_IN_S + j) as usize) <==> j <= i,
        MacroKind::Carry4.spec_comb_fanin((C4_OUT_CO + i) as usize).contains((C4_IN_DI + j) as usize) <==> j <= i,
{
    let o = MacroKind::Carry4.spec_comb_fanin((C4_OUT_O + i) as usize);
    let co = MacroKind::Carry4.spec_comb_fanin((C4_OUT_CO + i) as usize);
    if j < i {
        assert(o[2 + 2 * j] == C4_IN_S + j);
        assert(o[2 + 2 * j + 1] == C4_IN_DI + j);
    }
    if j == i {
        assert(o[2 + 2 * i] == C4_IN_S + j);
    }
    if j <= i {
        assert(co[2 + 2 * j] == C4_IN_S + j);
        assert(co[2 + 2 * j + 1] == C4_IN_DI + j);
    }
    assert forall|k: int| 0 <= k < o.len() implies #[trigger] o[k] == C4_IN_CI || o[k] == C4_IN_CYINIT || (C4_IN_DI
        <= o[k] < C4_IN_DI + i) || (C4_IN_S <= o[k] <= C4_IN_S + i) by {
        if 2 <= k < 2 + 2 * i {
            assert(o[k] == carry_links(i as nat)[k - 2]);
        }
    }
    assert forall|k: int| 0 <= k < co.len() implies #[trigger] co[k] == C4_IN_CI || co[k] == C4_IN_CYINIT || (C4_IN_DI
        <= co[k] <= C4_IN_DI + i) || (C4_IN_S <= co[k] <= C4_IN_S + i) by {
        if 2 <= k {
            assert(co[k] == carry_links((i + 1) as nat)[k - 2]);
        }
    }
}

/// A macro with state is committed as an endpoint or within a phase, and not
/// both.
pub proof fn law_state_is_committed_once(kind: MacroKind)
    ensures
        kind.spec_has_state() <==> kind.spec_is_endpoint() || kind is Srlc32e,
        !(kind.spec_is_endpoint() && kind is Srlc32e),
        kind.spec_has_state() <==> kind.spec_state_words() > 0,
{
}

/// Does slot `s` with the given need for evaluation have output `v`?
pub open spec fn is_output_at(m: MacroInst, eval: bool, v: usize, s: usize) -> bool {
    s < m.kind.spec_num_outputs() && m.kind.spec_needs_eval(s) == eval && m.outputs@[s as int] == v && v != 0
}

proof fn lemma_outputs_below(m: MacroInst, n: nat, eval: bool, v: usize)
    requires
        n <= m.kind.spec_num_outputs(),
    ensures
        m.outputs_below(n, eval).contains(v) <==> exists|s: usize| s < n && #[trigger] is_output_at(m, eval, v, s),
    decreases n,
{
    let all = m.outputs_below(n, eval);
    if n > 0 {
        let rest = m.outputs_below((n - 1) as nat, eval);
        lemma_outputs_below(m, (n - 1) as nat, eval, v);
        let s = (n - 1) as usize;
        if all.contains(v) {
            let i = all.index_of(v);
            if i < rest.len() {
                assert(rest[i] == v);
                let t = choose|t: usize| t < n - 1 && #[trigger] is_output_at(m, eval, v, t);
                assert(is_output_at(m, eval, v, t));
            } else {
                assert(is_output_at(m, eval, v, s));
            }
        }
        if exists|t: usize| t < n && #[trigger] is_output_at(m, eval, v, t) {
            let t = choose|t: usize| t < n && #[trigger] is_output_at(m, eval, v, t);
            if t < n - 1 {
                assert(rest.contains(v));
                assert(all[rest.index_of(v)] == v);
            } else {
                assert(all[all.len() - 1] == v);
            }
        }
    } else {
        assert(!all.contains(v));
    }
}

/// The used outputs of a macro are produced part-way through a partition, or
/// available at cycle start, as their slots say.
pub proof fn law_outputs_divided(m: MacroInst, v: usize)
    ensures
        m.mid_outputs().contains(v) <==> exists|s: usize| #[trigger] is_output_at(m, true, v, s),
        m.start_outputs().contains(v) <==> exists|s: usize| #[trigger] is_output_at(m, false, v, s),
{
    lemma_outputs_below(m, m.kind.spec_num_outputs() as nat, true, v);
    lemma_outputs_below(m, m.kind.spec_num_outputs() as nat, false, v);
}

proof fn lemma_eval_pins(m: MacroInst, n: nat, s: usize, v: usize)
    requires
        s < n,
        m.kind.spec_needs_eval(s),
        m.comb_pins(s).contains(v),
        n <= usize::MAX,
    ensures
        m.eval_pins_below(n).contains(v),
    decreases n,
{
    let all = m.eval_pins_below(n);
    let rest = m.eval_pins_below((n - 1) as nat);
    let t = (n - 1) as usize;
    if s == t {
        let i = m.comb_pins(s).index_of(v);
        assert(all[rest.len() + i] == v);
    } else {
        lemma_eval_pins(m, (n - 1) as nat, s, v);
        assert(all[rest.index_of(v)] == v);
    }
}

/// Mid-partition evaluation waits for everything that its outputs depend on.
pub proof fn law_evaluation_waits(m: MacroInst, s: usize, v: usize)
    requires
        s < m.kind.spec_num_outputs(),
        m.kind.spec_needs_eval(s),
        m.comb_pins(s).contains(v),
    ensures
        m.eval_pins().contains(v),
{
    lemma_eval_pins(m, m.kind.spec_num_outputs() as nat, s, v);
    law_first_occurrences(m.eval_pins_below(m.kind.spec_num_outputs() as nat));
}

} // verus!
