use gem::aigpdk::{AIGPDKLeafPins, AIGPDK_SRAM_ADDR_WIDTH, AIGPDK_SRAM_SIZE};
use gem::macros::{
    macro_decode_input, macro_encode_input, DspState, MacroInst, MacroKind, C4_IN_CI, C4_IN_DI, C4_IN_S, C4_OUT_CO,
    C4_OUT_O, DSP_IN_CEP, DSP_IN_D, SRL_IN_A, SRL_IN_CE, SRL_IN_D, SRL_OUT_Q, SRL_OUT_Q31,
};
use gem::netlist::{BusRange, Direction};

const KINDS: [MacroKind; 4] = [
    MacroKind::Carry4,
    MacroKind::Srlc32e,
    MacroKind::Dsp48e2 { state: DspState::Mac, use_preadder: true },
    MacroKind::Dsp48e2 { state: DspState::Bypass, use_preadder: false },
];

const NAMES: [&str; 17] = [
    "CI", "CIN", "CYINIT", "DI", "S", "O", "CO", "A", "B", "C", "D", "CEP", "P", "CE", "Q", "Q31", "CLK",
];

#[test]
fn celltype_names_carry_the_configuration() {
    assert_eq!(MacroKind::from_celltype("CARRY4"), Some(MacroKind::Carry4));
    assert_eq!(MacroKind::from_celltype("SRLC32E"), Some(MacroKind::Srlc32e));
    assert_eq!(
        MacroKind::from_celltype("DSP48E2_MULT_PREADD"),
        Some(MacroKind::Dsp48e2 { state: DspState::Mult, use_preadder: true })
    );
    assert_eq!(
        MacroKind::from_celltype("DSP48E2_BYPASS"),
        Some(MacroKind::Dsp48e2 { state: DspState::Bypass, use_preadder: false })
    );
    assert_eq!(MacroKind::from_celltype("AND2_00_0"), None);
    assert_eq!(MacroKind::from_celltype("DSP48E2_mac"), None);
}

#[test]
fn dsp_state_codes() {
    assert_eq!(DspState::Bypass.code(), 0);
    assert_eq!(DspState::Mult.code(), 1);
    assert_eq!(DspState::Mac.code(), 2);
}

#[test]
fn numbers_of_slots() {
    assert_eq!(KINDS.map(|k| k.num_inputs()), [10, 7, 121, 121]);
    assert_eq!(KINDS.map(|k| k.num_outputs()), [8, 2, 48, 48]);
    assert_eq!(KINDS.map(|k| k.has_clock()), [false, true, true, true]);
    assert_eq!(KINDS.map(|k| k.state_bits()), [0, 32, 48, 48]);
    assert_eq!(KINDS.map(|k| k.state_words()), [0, 1, 2, 2]);
    assert_eq!(KINDS.map(|k| k.input_words()), [1, 1, 4, 4]);
}

#[test]
fn state_is_committed_once() {
    assert_eq!(KINDS.map(|k| k.has_state()), [false, true, true, true]);
    assert_eq!(KINDS.map(|k| k.is_stateful()), [false, true, true, true]);
    assert_eq!(KINDS.map(|k| k.commits_state_in_phase()), [false, true, false, false]);
    assert_eq!(KINDS.map(|k| k.is_endpoint()), [false, false, true, true]);
    assert_eq!(KINDS.map(|k| k.needs_mid_partition_eval()), [true, true, false, false]);
}

#[test]
fn default_inputs_enable() {
    let dsp = KINDS[2];
    assert_eq!(dsp.default_input(DSP_IN_CEP), 1);
    assert_eq!(dsp.default_input(DSP_IN_D), 0);
    assert_eq!(MacroKind::Srlc32e.default_input(SRL_IN_CE), 1);
    assert_eq!(MacroKind::Srlc32e.default_input(SRL_IN_D), 0);
    assert_eq!(MacroKind::Carry4.default_input(C4_IN_CI), 0);
}

#[test]
fn input_slots_by_name() {
    let c4 = MacroKind::Carry4;
    assert_eq!(c4.input_slot("CI", None), Some(C4_IN_CI));
    assert_eq!(c4.input_slot("CIN", None), Some(C4_IN_CI));
    assert_eq!(c4.input_slot("CI", Some(0)), None);
    assert_eq!(c4.input_slot("DI", Some(3)), Some(C4_IN_DI + 3));
    assert_eq!(c4.input_slot("S", Some(4)), None);
    assert_eq!(c4.input_slot("S", None), None);
    assert_eq!(MacroKind::Srlc32e.input_slot("A", Some(4)), Some(SRL_IN_A + 4));
    assert_eq!(MacroKind::Srlc32e.input_slot("CLK", None), None);
    assert_eq!(KINDS[2].input_slot("C", Some(47)), Some(92));
    assert_eq!(KINDS[2].input_slot("C", Some(48)), None);
}

#[test]
fn output_slots_by_name() {
    assert_eq!(MacroKind::Carry4.output_slot("CO", Some(3)), Some(C4_OUT_CO + 3));
    assert_eq!(MacroKind::Carry4.output_slot("O", Some(4)), None);
    assert_eq!(MacroKind::Srlc32e.output_slot("Q31", None), Some(SRL_OUT_Q31));
    assert_eq!(KINDS[3].output_slot("P", Some(47)), Some(47));
    assert_eq!(KINDS[3].output_slot("P", None), None);
}

#[test]
fn slots_are_apart_and_reached() {
    for kind in KINDS {
        let mut seen_in = vec![0; kind.num_inputs()];
        let mut seen_out = vec![0; kind.num_outputs()];
        for name in NAMES {
            if name == "CIN" {
                continue;
            }
            for bit in (0..64).map(Some).chain([None]) {
                let i = kind.input_slot(name, bit);
                let o = kind.output_slot(name, bit);
                assert!(i.is_none() || o.is_none());
                if let Some(s) = i {
                    seen_in[s] += 1;
                }
                if let Some(s) = o {
                    seen_out[s] += 1;
                }
            }
        }
        assert!(seen_in.iter().all(|&n| n == 1));
        assert!(seen_out.iter().all(|&n| n == 1));
    }
}

#[test]
fn widths_agree_with_directions() {
    for kind in KINDS {
        for name in NAMES {
            match kind.width_of(name) {
                Some(BusRange(hi, lo)) => {
                    assert_eq!(lo, 0);
                    assert_eq!(kind.direction_of(name, None), None);
                    for b in -2..70 {
                        assert_eq!(kind.direction_of(name, Some(b)).is_some(), 0 <= b && b <= hi);
                    }
                }
                None => {
                    for b in -2..70 {
                        assert_eq!(kind.direction_of(name, Some(b)), None);
                    }
                }
            }
        }
    }
    assert_eq!(KINDS[2].width_of("P"), Some(BusRange(47, 0)));
    assert_eq!(KINDS[2].direction_of("CLK", None), Some(Direction::I));
    assert_eq!(MacroKind::Carry4.direction_of("CLK", None), None);
}

#[test]
fn carry_fanin_is_triangular() {
    let c4 = MacroKind::Carry4;
    assert_eq!(c4.comb_fanin_of_output(C4_OUT_O), vec![0, 1, C4_IN_S]);
    assert_eq!(c4.comb_fanin_of_output(C4_OUT_O + 1), vec![0, 1, C4_IN_S, C4_IN_DI, C4_IN_S + 1]);
    assert_eq!(c4.comb_fanin_of_output(C4_OUT_CO), vec![0, 1, C4_IN_S, C4_IN_DI]);
    for i in 0..4 {
        let o = c4.comb_fanin_of_output(C4_OUT_O + i);
        let co = c4.comb_fanin_of_output(C4_OUT_CO + i);
        for j in 0..4 {
            assert_eq!(o.contains(&(C4_IN_S + j)), j <= i);
            assert_eq!(o.contains(&(C4_IN_DI + j)), j < i);
            assert_eq!(co.contains(&(C4_IN_S + j)), j <= i);
            assert_eq!(co.contains(&(C4_IN_DI + j)), j <= i);
        }
    }
}

#[test]
fn register_outputs_have_no_fanin() {
    assert!(KINDS[2].comb_fanin_of_output(0).is_empty());
    assert_eq!(MacroKind::Srlc32e.comb_fanin_of_output(SRL_OUT_Q), vec![2, 3, 4, 5, 6]);
    assert!(MacroKind::Srlc32e.comb_fanin_of_output(SRL_OUT_Q31).is_empty());
    assert!(MacroKind::Srlc32e.output_needs_mid_partition_eval(SRL_OUT_Q31));
    assert!(!KINDS[2].output_needs_mid_partition_eval(0));
    assert_eq!(MacroKind::Srlc32e.state_fanin(), vec![SRL_IN_D, SRL_IN_CE]);
    assert_eq!(KINDS[2].state_fanin().len(), 121);
    assert!(MacroKind::Carry4.state_fanin().is_empty());
}

#[test]
fn kind_codes() {
    assert_eq!(MacroKind::Carry4.script_kind_code(), 0);
    assert_eq!(MacroKind::Srlc32e.script_kind_code(), 1);
}

#[test]
fn input_codes_round_trip() {
    for pos in [0u16, 1, 4095, 8191] {
        for bit in [0u8, 1] {
            for inv in [0usize, 1] {
                let code = macro_encode_input(10 + inv, |pin| if pin == 5 { Some(pos) } else { None });
                assert_eq!(code, pos | ((inv as u16) << 13));
                let read = macro_decode_input(code, |p| if p == pos as usize { bit } else { 2 });
                assert_eq!(read, bit ^ inv as u8);
            }
        }
    }
    assert_eq!(macro_encode_input(0, |_| None), 0x4000);
    assert_eq!(macro_encode_input(1, |_| None), 0x6000);
    assert_eq!(macro_decode_input(0x4000, |_| 1), 0);
    assert_eq!(macro_decode_input(0x6000, |_| 0), 1);
}

#[test]
fn fresh_macros_have_defaults() {
    let m = MacroInst::new(MacroKind::Srlc32e);
    assert_eq!(m.inputs, vec![0, 1, 0, 0, 0, 0, 0]);
    assert_eq!(m.outputs, vec![0, 0]);
    assert_eq!(m.clk_en_iv, 1);
    assert!(m.mid_partition_outputs().is_empty());
}

#[test]
fn fanin_of_instances() {
    let mut m = MacroInst::new(MacroKind::Carry4);
    m.inputs = vec![20, 0, 22, 24, 26, 28, 31, 33, 35, 37];
    m.outputs = vec![50, 0, 0, 0, 0, 51, 0, 0];
    assert_eq!(m.for_each_comb_fanin(C4_OUT_O), vec![10, 15]);
    assert_eq!(m.for_each_comb_fanin(C4_OUT_CO + 1), vec![10, 15, 11, 16, 12]);
    let eval = m.for_each_eval_fanin();
    let mut sorted = eval.clone();
    sorted.sort();
    sorted.dedup();
    assert_eq!(sorted.len(), eval.len());
    for s in 0..8 {
        for v in m.for_each_comb_fanin(s) {
            assert!(eval.contains(&v));
        }
    }
    assert_eq!(m.mid_partition_outputs(), vec![50, 51]);
    assert!(m.cycle_start_outputs().is_empty());
}

#[test]
fn outputs_are_divided() {
    let mut m = MacroInst::new(KINDS[2]);
    m.outputs[3] = 9;
    m.outputs[47] = 8;
    assert_eq!(m.cycle_start_outputs(), vec![9, 8]);
    assert!(m.mid_partition_outputs().is_empty());
    m.clk_en_iv = 12;
    m.inputs[0] = 15;
    assert_eq!(m.for_each_state_fanin(), vec![6, 7]);
}

#[test]
fn leaf_pin_directions() {
    let lib = AIGPDKLeafPins();
    assert_eq!(lib.direction_of("INV", "A", None), Some(Direction::I));
    assert_eq!(lib.direction_of("BUF", "Y", None), Some(Direction::O));
    assert_eq!(lib.direction_of("BUF", "B", None), None);
    assert_eq!(lib.direction_of("AND2_11_1", "B", None), Some(Direction::I));
    assert_eq!(lib.direction_of("AND2_01_1", "B", None), None);
    assert_eq!(lib.direction_of("DFF", "S", None), None);
    assert_eq!(lib.direction_of("DFFSR", "S", None), Some(Direction::I));
    assert_eq!(lib.direction_of("LATCH", "Q", None), Some(Direction::O));
    assert_eq!(lib.direction_of("CKLNQD", "CP", None), Some(Direction::I));
    assert_eq!(lib.direction_of("CKLNQD", "CP", Some(0)), None);
    assert_eq!(lib.direction_of("$__RAMGEM_SYNC_", "PORT_R_ADDR", Some(12)), Some(Direction::I));
    assert_eq!(lib.direction_of("$__RAMGEM_SYNC_", "PORT_R_ADDR", Some(13)), None);
    assert_eq!(lib.direction_of("$__RAMGEM_SYNC_", "PORT_R_ADDR", None), None);
    assert_eq!(lib.direction_of("$__RAMGEM_SYNC_", "PORT_R_RD_DATA", Some(31)), Some(Direction::O));
    assert_eq!(lib.direction_of("$__RAMGEM_ASYNC_", "PORT_R_RD_DATA", Some(31)), None);
    assert_eq!(lib.direction_of("CARRY4", "CO", Some(3)), Some(Direction::O));
    assert_eq!(lib.direction_of("CARRY4", "CLK", None), None);
    assert_eq!(lib.direction_of("DSP48E2", "P", Some(0)), None);
    assert_eq!(lib.direction_of("DSP48E2_MAC", "P", Some(0)), Some(Direction::O));
    assert_eq!(lib.direction_of("NAND2", "A", None), None);
}

#[test]
fn leaf_pin_widths() {
    let lib = AIGPDKLeafPins();
    assert_eq!(lib.width_of("DFF", "D"), None);
    assert_eq!(lib.width_of("$__RAMGEM_SYNC_", "PORT_W_ADDR"), Some(BusRange(12, 0)));
    assert_eq!(lib.width_of("$__RAMGEM_SYNC_", "PORT_W_WR_EN"), Some(BusRange(31, 0)));
    assert_eq!(lib.width_of("$__RAMGEM_SYNC_", "PORT_W_CLK"), None);
    assert_eq!(lib.width_of("SRLC32E", "A"), Some(BusRange(4, 0)));
    assert_eq!(lib.width_of("NAND2", "A"), None);
    assert_eq!(AIGPDK_SRAM_SIZE, 1 << AIGPDK_SRAM_ADDR_WIDTH);
}

#[test]
fn leaf_pin_ranges_hold_all_bits() {
    let lib = AIGPDKLeafPins();
    for cell in ["$__RAMGEM_SYNC_", "CARRY4", "SRLC32E", "DSP48E2_MULT", "DFF"] {
        for pin in ["PORT_R_ADDR", "PORT_W_WR_DATA", "PORT_R_RD_DATA", "DI", "CO", "A", "P", "D"] {
            let hi = lib.width_of(cell, pin).map(|r| r.0);
            for b in -1..60 {
                let inside = match hi {
                    Some(hi) => 0 <= b && b <= hi,
                    None => false,
                };
                assert_eq!(lib.direction_of(cell, pin, Some(b)).is_some(), inside);
            }
        }
    }
}
