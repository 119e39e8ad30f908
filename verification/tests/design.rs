use gem::aig::{DriverType, EndpointGroup, AIG};
use gem::elaborate::BuildError;
use gem::flatten::{FlattenError, FlattenedScriptV1};
use gem::macros::{MacroKind, C4_IN_CI, C4_IN_CYINIT, C4_IN_DI, C4_IN_S, C4_OUT_CO};
use gem::netlist::{Direction, Netlist, PinName};
use gem::pe::{
    build_one_boomerang_stage, is_chain_start, is_schedulable, order_macro_waves, parts_from_hgr_lines,
    process_partitions, process_partitions_from_hgr_lines, realized_leaves_of, targets_blocked_by_pending, HgrError,
    Partition,
};
use gem::staging::StagedAIG;
use indexmap::IndexSet;

/// A netlist in the making. Nets 0 and 1 are the constants.
struct Design {
    nl: Netlist,
}

impl Design {
    fn new() -> Design {
        Design {
            nl: Netlist {
                celltypes: vec!["top".to_string()],
                cell_pins: vec![vec![]],
                pin2cell: vec![],
                pin2net: vec![],
                pindirect: vec![],
                pinnames: vec![],
                net_roots: vec![0, 0],
                net_zero: Some(0),
                net_one: Some(1),
            },
        }
    }

    fn net(&mut self) -> usize {
        self.nl.net_roots.push(0);
        self.nl.net_roots.len() - 1
    }

    fn cell(&mut self, name: &str) -> usize {
        self.nl.celltypes.push(name.to_string());
        self.nl.cell_pins.push(vec![]);
        self.nl.celltypes.len() - 1
    }

    fn pin(&mut self, c: usize, name: &str, bit: Option<isize>, dir: Direction, net: usize) -> usize {
        let p = self.nl.pin2cell.len();
        self.nl.pin2cell.push(c);
        self.nl.pin2net.push(net);
        self.nl.pindirect.push(dir);
        self.nl.pinnames.push(PinName { name: name.to_string(), bit });
        self.nl.cell_pins[c].push(p);
        if dir == Direction::O {
            self.nl.net_roots[net] = p;
        }
        p
    }

    /// An input port of the design: its pin and its net.
    fn input(&mut self, name: &str) -> (usize, usize) {
        let n = self.net();
        (self.pin(0, name, None, Direction::O, n), n)
    }

    /// An output port of the design.
    fn output(&mut self, name: &str, net: usize) -> usize {
        self.pin(0, name, None, Direction::I, net)
    }

    /// A gate with input nets by pin name, and its output net.
    fn gate(&mut self, kind: &str, ins: &[(&str, usize)], out: &str) -> usize {
        let c = self.cell(kind);
        for (name, net) in ins {
            self.pin(c, name, None, Direction::I, *net);
        }
        let n = self.net();
        self.pin(c, out, None, Direction::O, n);
        n
    }

    fn and(&mut self, a: usize, b: usize) -> usize {
        self.gate("AND2_00_0", &[("A", a), ("B", b)], "Y")
    }

    fn dff(&mut self, clk: usize, d: usize) -> usize {
        self.gate("DFF", &[("CLK", clk), ("D", d)], "Q")
    }
}

fn build(d: &Design) -> AIG {
    match AIG::from_netlistdb(&d.nl) {
        Ok(aig) => aig,
        Err(e) => panic!("{:?}", e),
    }
}

fn build_error(d: &Design) -> BuildError {
    match AIG::from_netlistdb(&d.nl) {
        Ok(_) => panic!("there is a graph"),
        Err(e) => e,
    }
}

#[test]
fn and_gates_fold_constants() {
    let mut d = Design::new();
    let (a, na) = d.input("a");
    let zero = d.and(na, 0);
    let same = d.and(na, 1);
    let inverted = d.gate("AND2_01_0", &[("A", 1), ("B", na)], "Y");
    let y0 = d.output("y0", zero);
    let y1 = d.output("y1", same);
    let y2 = d.output("y2", inverted);
    let aig = build(&d);
    assert_eq!(aig.num_aigpins, 1);
    assert_eq!(aig.drivers, vec![DriverType::Tie0, DriverType::InputPort(a)]);
    assert_eq!(aig.pin2aigpin_iv[y0], 0);
    assert_eq!(aig.pin2aigpin_iv[y1], 2);
    assert_eq!(aig.pin2aigpin_iv[y2], 3);
    assert!(aig.primary_outputs.contains(&0) && aig.primary_outputs.contains(&2) && aig.primary_outputs.contains(&3));
}

#[test]
fn equal_gates_are_shared() {
    let mut d = Design::new();
    let (_, na) = d.input("a");
    let (_, nb) = d.input("b");
    let x = d.and(na, nb);
    let y = d.and(nb, na);
    let z = d.gate("AND2_11_1", &[("A", na), ("B", nb)], "Y");
    let px = d.output("x", x);
    let py = d.output("y", y);
    let pz = d.output("z", z);
    let aig = build(&d);
    assert_eq!(aig.num_aigpins, 4);
    assert_eq!(aig.drivers[3], DriverType::AndGate(2, 4));
    assert_eq!(aig.drivers[4], DriverType::AndGate(3, 5));
    assert_eq!(aig.pin2aigpin_iv[px], 6);
    assert_eq!(aig.pin2aigpin_iv[py], 6);
    assert_eq!(aig.pin2aigpin_iv[pz], 9);
    // Pin 1 feeds both gates, the later one first.
    assert_eq!(aig.fanouts_start, vec![0, 0, 2, 4, 4, 4]);
    assert_eq!(aig.fanouts, vec![4, 3, 4, 3]);
}

#[test]
fn inverters_and_buffers_cost_nothing() {
    let mut d = Design::new();
    let (_, na) = d.input("a");
    let x = d.gate("INV", &[("A", na)], "Y");
    let y = d.gate("BUF", &[("A", x)], "Y");
    let z = d.gate("INV", &[("A", y)], "Y");
    let py = d.output("y", y);
    let pz = d.output("z", z);
    let one = d.output("one", 1);
    let aig = build(&d);
    assert_eq!(aig.num_aigpins, 1);
    assert_eq!(aig.pin2aigpin_iv[py], 3);
    assert_eq!(aig.pin2aigpin_iv[pz], 2);
    // Constant outputs are no endpoints.
    assert_eq!(aig.pin2aigpin_iv[one], 1);
    assert_eq!(aig.primary_outputs.len(), 2);
}

#[test]
fn flip_flops_get_clock_flags() {
    let mut d = Design::new();
    let (clk, nclk) = d.input("clk");
    let (_, nd) = d.input("d");
    let q = d.dff(nclk, nd);
    let inv = d.gate("INV", &[("A", nclk)], "Y");
    let r = d.dff(inv, q);
    d.output("r", r);
    let aig = build(&d);
    // Both flags come first.
    assert_eq!(aig.drivers[1], DriverType::InputClockFlag(clk, 0));
    assert_eq!(aig.drivers[2], DriverType::InputClockFlag(clk, 1));
    assert_eq!(aig.clock_pin2aigpins.get(clk), Some(&(1, 2)));
    assert_eq!(aig.dffs.len(), 2);
    let first = aig.dffs.get(1).unwrap();
    assert_eq!(aig.drivers[first.q], DriverType::DFF(1));
    assert_eq!(first.en_iv, 2);
    let second = aig.dffs.get(3).unwrap();
    assert_eq!(second.en_iv, 4);
    assert_eq!(second.d_iv, first.q * 2);
}

#[test]
fn set_and_reset_patch_flip_flops() {
    let mut d = Design::new();
    let (_, nclk) = d.input("clk");
    let (_, nd) = d.input("d");
    let (_, ns) = d.input("s");
    let (_, nr) = d.input("r");
    let q = d.gate("DFFSR", &[("CLK", nclk), ("D", nd), ("S", ns), ("R", nr)], "Q");
    let out = d.output("q", q);
    let aig = build(&d);
    let ff = *aig.dffs.get(1).unwrap();
    for bits in 0..32u32 {
        let input = |k: u32| (bits >> k) & 1 == 1;
        let (clk, dv, s, r, stored) = (input(0), input(1), input(2), input(3), input(4));
        let val = values(&aig, |drv| match drv {
            DriverType::InputClockFlag(_, _) => clk,
            DriverType::DFF(_) => stored,
            DriverType::InputPort(p) if d.nl.pinnames[p].name == "d" => dv,
            DriverType::InputPort(p) if d.nl.pinnames[p].name == "s" => s,
            DriverType::InputPort(p) if d.nl.pinnames[p].name == "r" => r,
            _ => false,
        });
        assert_eq!(literal(&val, aig.pin2aigpin_iv[out]), (stored || !s) && r);
        assert_eq!(literal(&val, ff.d_iv), (dv || !s) && r);
        assert_eq!(literal(&val, ff.en_iv), clk || !s || !r);
    }
}

#[test]
fn clock_gates_enable() {
    let mut d = Design::new();
    let (clk, nclk) = d.input("clk");
    let (_, ne) = d.input("e");
    let (_, nd) = d.input("d");
    let g = d.gate("CKLNQD", &[("CP", nclk), ("E", ne)], "Q");
    let q = d.dff(g, nd);
    d.output("q", q);
    let aig = build(&d);
    let ff = aig.dffs.get(2).unwrap();
    let flag = aig.clock_pin2aigpins.get(clk).unwrap().0;
    let en = aig.pin2aigpin_iv.iter().enumerate().find(|(p, _)| d.nl.pinnames[*p].name == "e").unwrap().1;
    assert_eq!(ff.en_iv % 2, 0);
    assert_eq!(aig.drivers[ff.en_iv / 2], DriverType::AndGate(flag * 2, *en));
    // The gated clock itself has no literal.
    let gated = d.nl.cell_pins[1][2];
    assert_eq!(aig.pin2aigpin_iv[gated], usize::MAX);
}

#[test]
fn dangling_clocks_never_tick() {
    let mut d = Design::new();
    let (_, nd) = d.input("d");
    let q = d.dff(0, nd);
    d.output("q", q);
    let aig = build(&d);
    assert_eq!(aig.clock_pin2aigpins.len(), 0);
    assert_eq!(aig.dffs.get(1).unwrap().en_iv, 0);
}

#[test]
fn srams_are_connected() {
    let mut d = Design::new();
    let (clk, nclk) = d.input("clk");
    let (_, na) = d.input("a");
    let (_, nw) = d.input("w");
    let c = d.cell("$__RAMGEM_SYNC_");
    d.pin(c, "PORT_R_CLK", None, Direction::I, nclk);
    d.pin(c, "PORT_W_CLK", None, Direction::I, nclk);
    d.pin(c, "PORT_R_ADDR", Some(12), Direction::I, na);
    d.pin(c, "PORT_W_ADDR", Some(0), Direction::I, 1);
    d.pin(c, "PORT_W_WR_EN", Some(31), Direction::I, nw);
    d.pin(c, "PORT_W_WR_DATA", Some(7), Direction::I, na);
    let n = d.net();
    let rd = d.pin(c, "PORT_R_RD_DATA", Some(5), Direction::O, n);
    d.output("q", n);
    let aig = build(&d);
    let ram = aig.srams.get(1).unwrap();
    let a_iv = aig.pin2aigpin_iv[d.nl.cell_pins[1][2]];
    let w_iv = aig.pin2aigpin_iv[d.nl.cell_pins[1][4]];
    let flag = aig.clock_pin2aigpins.get(clk).unwrap().0;
    assert_eq!(ram.port_r_addr_iv[12], a_iv);
    assert_eq!(ram.port_r_addr_iv[11], 0);
    assert_eq!(ram.port_w_addr_iv[0], 1);
    assert_eq!(ram.port_w_wr_data_iv[7], a_iv);
    assert_eq!(ram.port_r_en_iv, flag * 2);
    assert_eq!(aig.drivers[ram.port_w_wr_en_iv[31] / 2], DriverType::AndGate(flag * 2, w_iv));
    assert_eq!(ram.port_w_wr_en_iv[30], 0);
    assert_eq!(aig.drivers[ram.port_r_rd_data[5]], DriverType::SRAM(1));
    assert_eq!(aig.pin2aigpin_iv[rd], ram.port_r_rd_data[5] * 2);
    assert_eq!(ram.port_r_rd_data[4], 0);
}

/// A four-bit adder of two operands, of one CARRY4.
fn carry_cell(d: &mut Design, ci: Option<usize>, s: [usize; 4], di: [usize; 4]) -> ([usize; 4], [usize; 4]) {
    let c = d.cell("CARRY4");
    if let Some(n) = ci {
        d.pin(c, "CI", None, Direction::I, n);
    }
    let mut o = [0; 4];
    let mut co = [0; 4];
    for i in 0..4 {
        d.pin(c, "S", Some(i as isize), Direction::I, s[i]);
        d.pin(c, "DI", Some(i as isize), Direction::I, di[i]);
    }
    for i in 0..4 {
        o[i] = d.net();
        d.pin(c, "O", Some(i as isize), Direction::O, o[i]);
        co[i] = d.net();
        d.pin(c, "CO", Some(i as isize), Direction::O, co[i]);
    }
    (o, co)
}

#[test]
fn macros_are_connected_and_indexed() {
    let mut d = Design::new();
    let (_, na) = d.input("a");
    let (_, nb) = d.input("b");
    let (o, _) = carry_cell(&mut d, None, [na; 4], [nb; 4]);
    d.output("o", o[3]);
    // A macro without outputs is left out.
    let dead = d.cell("SRLC32E");
    d.pin(dead, "D", None, Direction::I, na);
    let aig = build(&d);
    assert_eq!(aig.macros.len(), 1);
    assert!(aig.has_unscheduled_macros());
    let m = aig.macros.get(1).unwrap();
    assert_eq!(m.kind, MacroKind::Carry4);
    assert_eq!(m.inputs[C4_IN_CI], 0);
    assert_eq!(m.inputs[C4_IN_CYINIT], 0);
    assert_eq!(m.inputs[C4_IN_S + 2], m.inputs[C4_IN_S]);
    assert_eq!(m.inputs[C4_IN_DI + 2], m.inputs[C4_IN_DI]);
    assert_ne!(m.inputs[C4_IN_DI], m.inputs[C4_IN_S]);
    assert_eq!(m.clk_en_iv, 1);
    for slot in 0..8 {
        assert_eq!(aig.drivers[m.outputs[slot]], DriverType::Macro(1, slot));
        assert_eq!(aig.aigpin2macro.get(&m.outputs[slot]), Some(&0));
    }
    assert!(aig.stateful_macros.is_empty());
    assert!(is_schedulable(&aig));
}

#[test]
fn dsp_macros_are_endpoints() {
    let mut d = Design::new();
    let (clk, nclk) = d.input("clk");
    let (_, na) = d.input("a");
    let c = d.cell("DSP48E2_MAC");
    d.pin(c, "CLK", None, Direction::I, nclk);
    d.pin(c, "A", Some(26), Direction::I, na);
    let n = d.net();
    d.pin(c, "P", Some(47), Direction::O, n);
    d.output("p", n);
    let aig = build(&d);
    assert_eq!(aig.stateful_macros, vec![0]);
    let m = aig.macros.get(1).unwrap();
    let flag = aig.clock_pin2aigpins.get(clk).unwrap().0;
    assert_eq!(m.clk_en_iv, flag * 2);
    assert_eq!(m.inputs[26], aig.pin2aigpin_iv[d.nl.cell_pins[1][1]]);
    assert_eq!(m.inputs[120], 1);
    assert_eq!(aig.num_endpoint_groups(), 2);
    assert_eq!(aig.macro_endpoint_id(0), 1);
    assert!(matches!(aig.get_endpoint_group(0), EndpointGroup::PrimaryOutput(_)));
    assert!(matches!(aig.get_endpoint_group(1), EndpointGroup::Macro(_)));
    let pins = aig.get_endpoint_group(1).for_each_input();
    assert_eq!(pins, vec![flag, m.inputs[26] / 2]);
}

#[test]
fn bare_dsps_are_refused() {
    let mut d = Design::new();
    d.cell("BUF");
    let c = d.cell("DSP48E2");
    assert_eq!(build_error(&d), BuildError::UnmangledDsp(c));
}

#[test]
fn gates_on_clock_paths_are_refused() {
    let mut d = Design::new();
    let (_, nclk) = d.input("clk");
    let (_, nd) = d.input("d");
    let g = d.and(nclk, nd);
    let q = d.dff(g, nd);
    d.output("q", q);
    let y = d.nl.cell_pins[1][2];
    assert_eq!(build_error(&d), BuildError::ClockPath(y));
}

#[test]
fn odd_inputs_on_clock_paths_are_refused() {
    let mut d = Design::new();
    let (_, nclk) = d.input("clk");
    let g = d.gate("BUF", &[("A", nclk), ("B", nclk)], "Y");
    let q = d.dff(g, nclk);
    d.output("q", q);
    let y = d.nl.net_roots[g];
    assert_eq!(build_error(&d), BuildError::ClockPath(y));
}

#[test]
fn clock_loops_are_refused() {
    let mut d = Design::new();
    let n = d.net();
    let c = d.cell("BUF");
    d.pin(c, "A", None, Direction::I, n);
    d.pin(c, "Y", None, Direction::O, n);
    let q = d.dff(n, 0);
    d.output("q", q);
    assert!(matches!(build_error(&d), BuildError::ClockLoop(_)));
}

#[test]
fn clock_cells_need_their_inputs() {
    let mut d = Design::new();
    let (_, nclk) = d.input("clk");
    let g = d.gate("CKLNQD", &[("CP", nclk)], "Q");
    let q = d.dff(g, nclk);
    d.output("q", q);
    assert_eq!(build_error(&d), BuildError::ClockCell(1));
}

#[test]
fn gates_need_their_inputs() {
    for (kind, pin) in [("AND2_00_0", "A"), ("INV", "B"), ("CKLNQD", "E")] {
        let mut d = Design::new();
        let (_, na) = d.input("a");
        let g = d.gate(kind, &[(pin, na)], "Y");
        d.output("y", g);
        assert_eq!(build_error(&d), BuildError::MissingPin(1));
    }
}

#[test]
fn flip_flops_need_outputs() {
    let mut d = Design::new();
    let (_, nclk) = d.input("clk");
    let c = d.cell("DFF");
    d.pin(c, "CLK", None, Direction::I, nclk);
    assert_eq!(build_error(&d), BuildError::NoOutput(c));
}

#[test]
fn gated_clocks_are_no_data() {
    let mut d = Design::new();
    let (_, nclk) = d.input("clk");
    let (_, ne) = d.input("e");
    let g = d.gate("CKLNQD", &[("CP", nclk), ("E", ne)], "Q");
    let x = d.and(g, ne);
    d.output("x", x);
    let a = d.nl.cell_pins[2][0];
    assert_eq!(build_error(&d), BuildError::GatedClock(a));

    let mut d = Design::new();
    let (_, nclk) = d.input("clk");
    let (_, ne) = d.input("e");
    let g = d.gate("CKLNQD", &[("CP", nclk), ("E", ne)], "Q");
    let i = d.gate("INV", &[("A", g)], "Y");
    let q = d.dff(nclk, i);
    d.output("q", q);
    let pin = d.nl.cell_pins[3][1];
    assert_eq!(build_error(&d), BuildError::GatedClock(pin));
}

#[test]
fn combinational_loops_are_refused() {
    let mut d = Design::new();
    let (_, na) = d.input("a");
    let n = d.net();
    let c = d.cell("AND2_00_0");
    d.pin(c, "A", None, Direction::I, na);
    let b = d.pin(c, "B", None, Direction::I, n);
    d.pin(c, "Y", None, Direction::O, n);
    d.output("y", n);
    assert_eq!(build_error(&d), BuildError::CombLoop(b));
}

#[test]
fn latches_and_unknown_cells_are_refused() {
    let mut d = Design::new();
    let (_, na) = d.input("a");
    let l = d.gate("LATCH", &[("D", na)], "Q");
    d.output("l", l);
    assert_eq!(build_error(&d), BuildError::Latch(1));
    let mut d = Design::new();
    let (_, na) = d.input("a");
    let l = d.gate("NAND2", &[("A", na)], "Y");
    d.output("l", l);
    assert_eq!(build_error(&d), BuildError::UnknownCell(1));
}

#[test]
fn odd_outputs_are_refused() {
    let mut d = Design::new();
    let c = d.cell("CARRY4");
    let n = d.net();
    let p = d.pin(c, "O", Some(4), Direction::O, n);
    assert_eq!(build_error(&d), BuildError::BadMacroPin(p));
    let mut d = Design::new();
    let c = d.cell("$__RAMGEM_SYNC_");
    let n = d.net();
    let p = d.pin(c, "PORT_R_RD_DATA", Some(32), Direction::O, n);
    assert_eq!(build_error(&d), BuildError::BadRamPin(p));
    let mut d = Design::new();
    let (_, na) = d.input("a");
    let c = d.cell("$__RAMGEM_SYNC_");
    let p = d.pin(c, "PORT_R_ADDR", Some(13), Direction::I, na);
    assert_eq!(build_error(&d), BuildError::BadRamPin(p));
}

#[test]
fn macro_loops_are_refused() {
    let mut d = Design::new();
    let (_, na) = d.input("a");
    let c = d.cell("CARRY4");
    let n = d.net();
    d.pin(c, "S", Some(0), Direction::I, n);
    d.pin(c, "DI", Some(0), Direction::I, na);
    d.pin(c, "CO", Some(1), Direction::O, n);
    d.output("o", n);
    assert!(matches!(build_error(&d), BuildError::CombLoop(_)));
    // A low carry may feed a high bit, but then no phase can evaluate the macro.
    let mut d = Design::new();
    let c = d.cell("CARRY4");
    let n = d.net();
    let m = d.net();
    d.pin(c, "DI", Some(3), Direction::I, n);
    d.pin(c, "CO", Some(0), Direction::O, n);
    d.pin(c, "CO", Some(3), Direction::O, m);
    d.output("o", m);
    let aig = build(&d);
    assert!(is_schedulable(&aig));
    let targets: IndexSet<usize> = [aig.pin2aigpin_iv[d.nl.net_roots[m]] / 2].into_iter().collect();
    assert_eq!(order_macro_waves(&aig, &targets, &IndexSet::new()), None);
    let staged = whole(&aig);
    assert!(Partition::build_one(&aig, &staged, &vec![0]).is_none());
}

#[test]
fn pins_are_numbered_in_topological_order() {
    let mut d = Design::new();
    let (_, na) = d.input("a");
    let (_, nb) = d.input("b");
    let x = d.and(na, nb);
    let (o, co) = carry_cell(&mut d, None, [x, 0, 0, 0], [na, 0, 0, 0]);
    let y = d.and(o[0], co[3]);
    let (p, _) = carry_cell(&mut d, None, [y, na, 0, 0], [0; 4]);
    d.output("p", p[1]);
    let aig = build(&d);
    for u in 1..=aig.num_aigpins {
        let fanin = match aig.drivers[u] {
            DriverType::AndGate(a, b) => vec![a / 2, b / 2],
            DriverType::Macro(c, s) => aig.macros.get(c).unwrap().for_each_comb_fanin(s),
            _ => vec![],
        };
        assert!(fanin.iter().all(|w| *w < u));
    }
}

#[test]
fn pins_and_tables_follow_the_walk() {
    let mut d = Design::new();
    let (_, nclk) = d.input("clk");
    let (_, na) = d.input("a");
    let n = d.net();
    d.output("y", n);
    let first = d.dff(nclk, na);
    let second = d.cell("DFF");
    d.pin(second, "CLK", None, Direction::I, nclk);
    d.pin(second, "D", None, Direction::I, first);
    d.pin(second, "Q", None, Direction::O, n);
    let aig = build(&d);
    // The output port leads to the second flip-flop first.
    assert_eq!(
        aig.drivers,
        vec![
            DriverType::Tie0,
            DriverType::InputClockFlag(0, 0),
            DriverType::InputPort(0),
            DriverType::InputPort(1),
            DriverType::DFF(second),
            DriverType::DFF(1),
        ]
    );
    assert_eq!(aig.dffs.position(second), Some(0));
    assert_eq!(aig.dffs.position(1), Some(1));
    assert_eq!(aig.primary_outputs, [8].into_iter().collect::<IndexSet<usize>>());
    let again = build(&d);
    assert_eq!(again.drivers, aig.drivers);
    assert_eq!(again.pin2aigpin_iv, aig.pin2aigpin_iv);
    assert_eq!(again.dffs.position(second), Some(0));
}

#[test]
fn unread_srams_come_last() {
    let mut d = Design::new();
    let (_, nclk) = d.input("clk");
    for read in [false, true] {
        let c = d.cell("$__RAMGEM_SYNC_");
        d.pin(c, "PORT_R_CLK", None, Direction::I, nclk);
        if read {
            let n = d.net();
            d.pin(c, "PORT_R_RD_DATA", Some(0), Direction::O, n);
            d.output("q", n);
        }
    }
    let aig = build(&d);
    assert_eq!(aig.srams.len(), 2);
    assert_eq!(aig.srams.position(2), Some(0));
    assert_eq!(aig.srams.position(1), Some(1));
}

#[test]
fn chains_of_a_level_come_in_the_order_of_their_heads() {
    let mut d = Design::new();
    let (_, na) = d.input("a");
    let (p, _) = carry_cell(&mut d, None, [na, 0, 0, 0], [0; 4]);
    let (q, _) = carry_cell(&mut d, None, [0, na, 0, 0], [0; 4]);
    d.output("p", p[0]);
    d.output("q", q[1]);
    let aig = build(&d);
    let pin = |net: usize| aig.pin2aigpin_iv[d.nl.net_roots[net]] / 2;
    let targets: IndexSet<usize> = [pin(q[1]), pin(p[0])].into_iter().collect();
    assert_eq!(order_macro_waves(&aig, &targets, &IndexSet::new()).unwrap(), vec![vec![0, 1]]);
}

#[test]
fn carry_chains_are_split_where_links_wait() {
    let mut d = Design::new();
    let (_, na) = d.input("a");
    let (_, co) = carry_cell(&mut d, None, [na, 0, 0, 0], [0; 4]);
    // The second link reads the first one not only through its carry.
    let x = d.and(co[0], na);
    let (o, _) = carry_cell(&mut d, Some(co[3]), [x, 0, 0, 0], [0; 4]);
    d.output("o", o[0]);
    let aig = build(&d);
    let targets: IndexSet<usize> = [aig.pin2aigpin_iv[d.nl.net_roots[o[0]]] / 2].into_iter().collect();
    let waves = order_macro_waves(&aig, &targets, &IndexSet::new()).unwrap();
    let first = aig.macros.position(1).unwrap();
    let second = aig.macros.position(3).unwrap();
    assert_eq!(waves, vec![vec![first], vec![second]]);
    let staged = whole(&aig);
    let parts = map(&aig, &staged);
    assert_eq!(parts[0].macro_stages.len(), 2);
    // What the second phase gathers is computed from the first one.
    assert!(parts[0].macro_stages[0].after_stage < parts[0].macro_stages[1].after_stage);
    assert!(parts[0].macro_stages[1].lanes[0].chain_start);
}

#[test]
fn late_states_do_not_fit_into_lanes() {
    let mut d = Design::new();
    let (_, nclk) = d.input("clk");
    let (_, na) = d.input("a");
    for i in 0..8 {
        let c = d.cell("$__RAMGEM_SYNC_");
        d.pin(c, "PORT_R_CLK", None, Direction::I, nclk);
        d.pin(c, "PORT_W_CLK", None, Direction::I, nclk);
        d.pin(c, "PORT_R_ADDR", Some(0), Direction::I, na);
        let n = d.net();
        d.pin(c, "PORT_R_RD_DATA", Some(0), Direction::O, n);
        d.output(&format!("r{}", i), n);
    }
    let c = d.cell("SRLC32E");
    d.pin(c, "CLK", None, Direction::I, nclk);
    d.pin(c, "D", None, Direction::I, na);
    let n = d.net();
    d.pin(c, "Q", None, Direction::O, n);
    d.output("q", n);
    let aig = build(&d);
    let staged = whole(&aig);
    let parts = map(&aig, &staged);
    assert_eq!(flatten_error(&aig, &staged, &parts, layout(&aig)), FlattenError::StateTooLarge);
}

#[test]
fn traversal_puts_fanins_first() {
    let mut d = Design::new();
    let (_, na) = d.input("a");
    let (_, nb) = d.input("b");
    let x = d.and(na, nb);
    let inv = d.gate("INV", &[("A", x)], "Y");
    let y = d.and(inv, na);
    d.output("y", y);
    let aig = build(&d);
    assert_eq!(aig.topo_traverse_generic(None, None), vec![1, 2, 3, 4]);
    assert_eq!(aig.topo_traverse_generic(Some(&vec![3]), None), vec![1, 2, 3]);
    let stop: IndexSet<usize> = [3].into_iter().collect();
    let mut cut = aig.topo_traverse_generic(Some(&vec![4]), Some(&stop));
    assert_eq!(cut.pop(), Some(4));
    cut.sort();
    assert_eq!(cut, vec![1, 3]);
}

/// The value of a literal.
fn literal(val: &[bool], iv: usize) -> bool {
    val[iv / 2] ^ (iv % 2 == 1)
}

/// The carries of a CARRY4.
fn carry4(bits: &[bool]) -> [bool; 8] {
    let mut c = bits[C4_IN_CI] | bits[C4_IN_CYINIT];
    let mut out = [false; 8];
    for i in 0..4 {
        out[i] = bits[C4_IN_S + i] ^ c;
        c = if bits[C4_IN_S + i] { c } else { bits[C4_IN_DI + i] };
        out[C4_OUT_CO + i] = c;
    }
    out
}

/// The values of all pins.
fn values(aig: &AIG, given: impl Fn(DriverType) -> bool) -> Vec<bool> {
    let mut val = vec![false; aig.num_aigpins + 1];
    for u in aig.topo_traverse_generic(None, None) {
        val[u] = match aig.drivers[u] {
            DriverType::AndGate(a, b) => literal(&val, a) && literal(&val, b),
            DriverType::Macro(c, slot) => {
                let m = aig.macros.get(c).unwrap();
                if m.kind == MacroKind::Carry4 {
                    let bits: Vec<bool> = m.inputs.iter().map(|&iv| literal(&val, iv)).collect();
                    carry4(&bits)[slot]
                } else {
                    given(aig.drivers[u])
                }
            }
            other => given(other),
        };
    }
    val
}

fn whole(aig: &AIG) -> StagedAIG {
    StagedAIG {
        primary_inputs: None,
        primary_output_pins: vec![],
        endpoints: (0..aig.num_endpoint_groups()).collect(),
    }
}

/// Primary inputs and clock flags, at the front of the state.
fn layout(aig: &AIG) -> Vec<usize> {
    (1..=aig.num_aigpins)
        .filter(|&u| matches!(aig.drivers[u], DriverType::InputPort(_) | DriverType::InputClockFlag(_, _)))
        .collect()
}

fn get_bit(words: &[u32], p: usize) -> bool {
    (words[p / 32] >> (p % 32)) & 1 == 1
}

fn set_bit(words: &mut [u32], p: usize, v: bool) {
    if v {
        words[p / 32] |= 1 << (p % 32);
    } else {
        words[p / 32] &= !(1 << (p % 32));
    }
}

/// A permutation of 8192 positions, as each thread finds it.
fn unpack(words: &[u32]) -> Vec<usize> {
    let mut perm = vec![0; 8192];
    for sweep in 0..4 {
        for t in 0..256 {
            for k in 0..4 {
                let w = words[sweep * 1024 + t * 4 + k] as usize;
                perm[t * 32 + sweep * 8 + k * 2] = w & 0xffff;
                perm[t * 32 + sweep * 8 + k * 2 + 1] = w >> 16;
            }
        }
    }
    perm
}

/// Word `k` of each thread, of four.
fn column(words: &[u32], k: usize) -> Vec<u32> {
    (0..256).map(|t| words[4 * t + k]).collect()
}

/// Executes the CARRY4 lanes of a macro phase.
fn run_phase(words: &[u32], local: &mut Vec<bool>) {
    let mut next = local.clone();
    let mut carry = false;
    for lane in words.chunks(12) {
        if (lane[0] >> 3) & 1 == 0 {
            continue;
        }
        assert_eq!(lane[0] & 3, 0);
        let mut bits: Vec<bool> = (0..10)
            .map(|s| {
                let code = (lane[1 + s / 2] >> (16 * (s % 2))) & 0xffff;
                let inv = (code >> 13) & 1 == 1;
                if (code >> 14) & 1 == 1 {
                    inv
                } else {
                    local[code as usize & 0x1fff] ^ inv
                }
            })
            .collect();
        if (lane[0] >> 2) & 1 == 0 {
            bits[C4_IN_CI] = carry;
        }
        let out = carry4(&bits);
        carry = out[7];
        for s in 0..8 {
            let pos = (lane[6 + s / 2] >> (16 * (s % 2))) & 0xffff;
            if pos != 0xffff {
                next[pos as usize] = out[s];
            }
        }
    }
    *local = next;
}

/// Executes the script of a partition, and returns where the next one starts.
fn run_part(script: &[u32], before: &[u32], after: &mut Vec<u32>) -> usize {
    let stages = script[0] as usize;
    let (writeouts, start) = (script[2] as usize, script[3] as usize);
    let (srams, rounds, dups) = (script[4], script[6] as usize, script[7] as usize);
    let (phases, dsps) = (script[8] as usize, script[9]);
    assert_eq!((srams, dsps), (0, 0));
    let codes: Vec<usize> = script[128..256]
        .iter()
        .flat_map(|w| [*w as usize & 0xffff, *w as usize >> 16])
        .filter(|c| *c != 0xffff)
        .collect();
    let mut at = 256;
    let mut local = vec![false; 8192];
    for t in 0..256 {
        // Every bit that is read shifts those before it up.
        let mut bits: Vec<bool> = vec![];
        for round in 0..rounds {
            let idx = script[at + round * 512 + 2 * t];
            let mask = script[at + round * 512 + 2 * t + 1];
            for k in 0..32 {
                if (mask >> k) & 1 == 1 {
                    let words = if idx >> 31 == 1 { &after[..] } else { before };
                    bits.insert(0, get_bit(words, (idx as usize & 0x7fff_ffff) * 32 + k));
                }
            }
        }
        assert!(bits.len() <= 32);
        local[t * 32..t * 32 + bits.len()].copy_from_slice(&bits);
    }
    at += rounds * 512;
    let mut out: Vec<u32> = vec![];
    let mut phase = 0;
    for stage in 0..=stages {
        while phase < phases && script[11 + phase] as usize >> 16 == stage {
            run_phase(&script[at..at + 384], &mut local);
            at += 384;
            phase += 1;
        }
        if stage == stages {
            break;
        }
        let perm = unpack(&script[at..at + 4096]);
        let flags = &script[at + 4096..at + 5120];
        let (xora, xorb, orb) = (column(flags, 0), column(flags, 1), column(flags, 2));
        at += 5120;
        let mut row: Vec<bool> = perm.iter().map(|p| local[*p]).collect();
        let mut next = vec![false; 8192];
        while row.len() > 1 {
            let w = row.len() / 2;
            let up: Vec<bool> = (0..w)
                .map(|j| {
                    let a = row[j] ^ get_bit(&xora, w + j);
                    let b = (row[j + w] ^ get_bit(&xorb, w + j)) | get_bit(&orb, w + j);
                    a && b
                })
                .collect();
            next[w..2 * w].copy_from_slice(&up);
            row = up;
        }
        local = next;
        for code in codes.iter().filter(|c| **c >> 8 == stage) {
            let word = code & 0xff;
            out.push((0..32).map(|k| (local[word * 32 + k] as u32) << k).sum());
        }
    }
    let gathers = unpack(&script[at..at + 4096]);
    let (ginv, gset) = (column(&script[at + 4096..], 0), column(&script[at + 4096..], 1));
    at += 5120;
    let enables = unpack(&script[at..at + 4096]);
    let tail = &script[at + 4096..at + 5120];
    let (einv, eset, dinv) = (column(tail, 0), column(tail, 1), column(tail, 2));
    at += 5120;
    let normal = out.clone();
    for g in 0..dups {
        let word = (0..32)
            .map(|k| {
                let p = g * 32 + k;
                let v = (get_bit(&normal, gathers[p]) && !get_bit(&gset, p)) ^ get_bit(&ginv, p);
                (v as u32) << k
            })
            .sum();
        out.push(word);
    }
    assert_eq!(out.len(), writeouts);
    for p in 0..writeouts * 32 {
        let enable = (!get_bit(&eset, p) && get_bit(&normal, enables[p])) ^ get_bit(&einv, p);
        if enable {
            set_bit(after, start * 32 + p, get_bit(&out, p) ^ get_bit(&dinv, p));
        }
    }
    at
}

/// Executes one cycle.
fn run_script(f: &FlattenedScriptV1, state: &[u32]) -> Vec<u32> {
    let mut after = state.to_vec();
    for block in 0..f.num_major_stages * f.num_blocks {
        let mut at = f.blocks_start[block];
        while f.blocks_data[at] != 0 {
            let last = f.blocks_data[at + 1] == 1;
            at += run_part(&f.blocks_data[at..], state, &mut after);
            if last {
                break;
            }
        }
    }
    after
}

/// Holds the script against the graph for some cycles of made-up stimulus.
fn simulate(aig: &AIG, f: &FlattenedScriptV1, cycles: usize) {
    let mut state = vec![0u32; f.reg_io_state_size as usize];
    let mut seed = 12345u64;
    for _ in 0..cycles {
        for (i, _) in f.input_layout.iter().enumerate() {
            seed = seed.wrapping_mul(6364136223846793005).wrapping_add(1442695040888963407);
            set_bit(&mut state, i, (seed >> 40) & 3 != 0);
        }
        let find = |u: usize| get_bit(&state, f.input_map[&u] as usize);
        let pins: Vec<(DriverType, usize)> = (0..=aig.num_aigpins).map(|u| (aig.drivers[u], u)).collect();
        let val = values(aig, |drv| {
            let u = pins.iter().find(|(d, _)| *d == drv).unwrap().1;
            find(u)
        });
        let after = run_script(f, &state);
        for i in 0..aig.num_endpoint_groups() {
            match aig.get_endpoint_group(i) {
                EndpointGroup::PrimaryOutput(iv) => {
                    // A literal that a register stores, too, is found there.
                    if (0..aig.dffs.len()).all(|k| aig.dffs.value(k).d_iv != iv) {
                        assert_eq!(get_bit(&after, f.output_map[&iv] as usize), literal(&val, iv));
                    }
                }
                EndpointGroup::DFF(dff) => {
                    let expected = if literal(&val, dff.en_iv) { literal(&val, dff.d_iv) } else { val[dff.q] };
                    assert_eq!(get_bit(&after, f.input_map[&dff.q] as usize), expected);
                }
                _ => unreachable!(),
            }
        }
        state = after;
    }
}

/// Maps a design, each endpoint on its own at first.
fn map(aig: &AIG, staged: &StagedAIG) -> Vec<Partition> {
    assert!(is_schedulable(aig));
    let parts = (0..staged.num_endpoint_groups()).map(|i| vec![i]).collect();
    process_partitions(aig, staged, parts, 0).unwrap()
}

#[test]
fn scripts_simulate_registers() {
    let mut d = Design::new();
    let (_, nclk) = d.input("clk");
    let (_, nr) = d.input("rst");
    let mut bits = vec![];
    // A counter with enable: each bit toggles when all lower ones are set.
    let mut carry = nr;
    for _ in 0..5 {
        let q = d.net();
        let both = d.and(q, carry);
        let neither = d.gate("AND2_11_0", &[("A", q), ("B", carry)], "Y");
        let next = d.gate("AND2_11_0", &[("A", both), ("B", neither)], "Y");
        let c = d.cell("DFF");
        d.pin(c, "CLK", None, Direction::I, nclk);
        d.pin(c, "D", None, Direction::I, next);
        d.pin(c, "Q", None, Direction::O, q);
        carry = both;
        bits.push(q);
    }
    for (i, q) in bits.iter().enumerate() {
        d.output(&format!("q{}", i), *q);
    }
    let aig = build(&d);
    let staged = whole(&aig);
    let parts = map(&aig, &staged);
    let f = FlattenedScriptV1::from(&aig, &[&staged], &[&parts], 2, layout(&aig)).ok().unwrap();
    assert_eq!(f.num_blocks, 2);
    assert_eq!(f.num_major_stages, 1);
    assert_eq!(f.blocks_start.len(), 3);
    assert_eq!(f.blocks_data.len(), f.blocks_start[2] + 2048);
    simulate(&aig, &f, 50);
}

#[test]
fn scripts_simulate_carry_chains() {
    let mut d = Design::new();
    let (_, nclk) = d.input("clk");
    let mut s = vec![];
    let mut di = vec![];
    for i in 0..12 {
        let (_, a) = d.input(&format!("a{}", i));
        let (_, b) = d.input(&format!("b{}", i));
        let both = d.and(a, b);
        let neither = d.gate("AND2_11_0", &[("A", a), ("B", b)], "Y");
        s.push(d.gate("AND2_11_0", &[("A", both), ("B", neither)], "Y"));
        di.push(a);
    }
    let mut ci = None;
    for k in 0..3 {
        let at = 4 * k;
        let (o, co) = carry_cell(
            &mut d,
            ci,
            [s[at], s[at + 1], s[at + 2], s[at + 3]],
            [di[at], di[at + 1], di[at + 2], di[at + 3]],
        );
        for (i, n) in o.iter().enumerate() {
            let q = d.dff(nclk, *n);
            d.output(&format!("o{}_{}", k, i), q);
        }
        ci = Some(co[3]);
    }
    d.output("carry", ci.unwrap());
    let aig = build(&d);
    let staged = whole(&aig);
    let parts = map(&aig, &staged);
    // The chain is in consecutive lanes of one phase.
    assert_eq!(parts.len(), 1);
    assert_eq!(parts[0].macro_stages.len(), 1);
    let lanes = &parts[0].macro_stages[0].lanes;
    assert_eq!(parts[0].macro_stages[0].num_lanes(), 3);
    assert_eq!(lanes.iter().map(|l| l.chain_start).collect::<Vec<_>>(), vec![true, false, false]);
    let f = FlattenedScriptV1::from(&aig, &[&staged], &[&parts], 1, layout(&aig)).ok().unwrap();
    simulate(&aig, &f, 50);
}

#[test]
fn outputs_with_two_enables_are_copied() {
    let mut d = Design::new();
    let (_, nclk) = d.input("clk");
    let (_, ne) = d.input("e");
    let (_, na) = d.input("a");
    let (_, nb) = d.input("b");
    let x = d.and(na, nb);
    let g = d.gate("CKLNQD", &[("CP", nclk), ("E", ne)], "Q");
    let q0 = d.dff(nclk, x);
    let q1 = d.dff(g, x);
    let inv = d.gate("INV", &[("A", x)], "Y");
    let q2 = d.dff(nclk, inv);
    d.output("q0", q0);
    d.output("q1", q1);
    d.output("q2", q2);
    d.output("x", x);
    let aig = build(&d);
    let staged = whole(&aig);
    let parts = map(&aig, &staged);
    let f = FlattenedScriptV1::from(&aig, &[&staged], &[&parts], 1, layout(&aig)).ok().unwrap();
    // One word of copies.
    assert_eq!(f.blocks_data[7], 1);
    simulate(&aig, &f, 40);
}

#[test]
fn constant_registers_read_a_word_that_stays_zero() {
    let mut d = Design::new();
    let (_, nclk) = d.input("clk");
    let q = d.dff(nclk, 0);
    let (_, na) = d.input("a");
    let x = d.gate("AND2_01_0", &[("A", na), ("B", q)], "Y");
    d.output("x", x);
    let aig = build(&d);
    let staged = whole(&aig);
    let parts = map(&aig, &staged);
    let lay = layout(&aig);
    let zero_word = (lay.len() + 31) / 32;
    let f = FlattenedScriptV1::from(&aig, &[&staged], &[&parts], 1, lay).ok().unwrap();
    let ff = aig.dffs.value(0);
    assert_eq!(ff.d_iv, 0);
    assert_eq!(f.input_map[&ff.q] as usize, zero_word * 32);
    // No partition writes it.
    assert!(f.blocks_data[3] as usize > zero_word);
    simulate(&aig, &f, 20);
}

#[test]
fn layout_padding_is_skipped() {
    let mut d = Design::new();
    let (_, na) = d.input("a");
    let (_, nb) = d.input("b");
    let x = d.and(na, nb);
    d.output("x", x);
    let aig = build(&d);
    let staged = whole(&aig);
    let parts = map(&aig, &staged);
    let mut lay = vec![usize::MAX; 40];
    lay[39] = 1;
    lay[3] = 2;
    let f = FlattenedScriptV1::from(&aig, &[&staged], &[&parts], 1, lay).ok().unwrap();
    assert_eq!(f.input_map[&1], 39);
    assert_eq!(f.input_map[&2], 3);
    assert_eq!(f.input_map.len(), 2);
    // Two words of inputs, the zero word, and what is written out.
    assert_eq!(f.reg_io_state_size, 3 + f.blocks_data[2]);
    assert_eq!(f.blocks_data[3], 3);
    assert_eq!(f.sram_storage_size, 0);
    assert_eq!(f.macro_storage_size, 0);
    simulate(&aig, &f, 10);
}

#[test]
fn srams_take_storage() {
    let mut d = Design::new();
    let (_, nclk) = d.input("clk");
    let c = d.cell("$__RAMGEM_SYNC_");
    d.pin(c, "PORT_R_CLK", None, Direction::I, nclk);
    d.pin(c, "PORT_W_CLK", None, Direction::I, nclk);
    let (_, na) = d.input("a");
    d.pin(c, "PORT_R_ADDR", Some(0), Direction::I, na);
    d.pin(c, "PORT_W_WR_EN", Some(0), Direction::I, 1);
    d.pin(c, "PORT_W_WR_DATA", Some(0), Direction::I, na);
    let n = d.net();
    d.pin(c, "PORT_R_RD_DATA", Some(9), Direction::O, n);
    d.output("q", n);
    let aig = build(&d);
    let staged = whole(&aig);
    let parts = map(&aig, &staged);
    let f = FlattenedScriptV1::from(&aig, &[&staged], &[&parts], 1, layout(&aig)).ok().unwrap();
    assert_eq!(f.sram_storage_size, 8192);
    assert_eq!(f.blocks_data[4], 1);
    assert_eq!(f.blocks_data[5], 0);
    let ram = aig.srams.value(0);
    // Bit 9 of the last word that the partition writes out.
    let words = f.blocks_data[3] + f.blocks_data[2];
    assert_eq!(f.input_map[&ram.port_r_rd_data[9]], (words - 1) * 32 + 9);
}

#[test]
fn macro_states_follow_srams() {
    let mut d = Design::new();
    let (_, nclk) = d.input("clk");
    let (_, na) = d.input("a");
    for _ in 0..2 {
        let c = d.cell("DSP48E2_MULT");
        d.pin(c, "CLK", None, Direction::I, nclk);
        d.pin(c, "A", Some(0), Direction::I, na);
        let n = d.net();
        d.pin(c, "P", Some(0), Direction::O, n);
        d.output("p", n);
    }
    let aig = build(&d);
    let staged = whole(&aig);
    let parts = map(&aig, &staged);
    let f = FlattenedScriptV1::from(&aig, &[&staged], &[&parts], 1, layout(&aig)).ok().unwrap();
    assert_eq!(f.sram_storage_size, 0);
    assert_eq!(f.macro_storage_size, 4);
    assert_eq!(f.blocks_data[9], 2);
}

#[test]
fn shift_registers_run_in_phases() {
    let mut d = Design::new();
    let (_, nclk) = d.input("clk");
    let (_, na) = d.input("a");
    let c = d.cell("SRLC32E");
    d.pin(c, "CLK", None, Direction::I, nclk);
    d.pin(c, "D", None, Direction::I, na);
    d.pin(c, "A", Some(0), Direction::I, na);
    let n = d.net();
    d.pin(c, "Q", None, Direction::O, n);
    d.output("q", n);
    let aig = build(&d);
    assert_eq!(aig.num_endpoint_groups(), 1);
    let staged = whole(&aig);
    let parts = map(&aig, &staged);
    assert_eq!(parts[0].macro_stages.len(), 1);
    let f = FlattenedScriptV1::from(&aig, &[&staged], &[&parts], 1, layout(&aig)).ok().unwrap();
    assert_eq!(f.macro_storage_size, 1);
    assert_eq!(f.blocks_data[8], 1);
}

#[test]
fn stages_hand_pins_over() {
    let mut d = Design::new();
    let (_, na) = d.input("a");
    let (_, nb) = d.input("b");
    let (_, nc) = d.input("c");
    let x = d.and(na, nb);
    let y = d.and(x, nc);
    d.output("y", y);
    let aig = build(&d);
    let cut = aig.pin2aigpin_iv[d.nl.net_roots[x]] / 2;
    let first = StagedAIG { primary_inputs: None, primary_output_pins: vec![cut], endpoints: vec![] };
    let second = StagedAIG {
        primary_inputs: Some([cut].into_iter().collect()),
        primary_output_pins: vec![],
        endpoints: vec![0],
    };
    let p1 = process_partitions(&aig, &first, vec![vec![0]], 0).unwrap();
    let p2 = process_partitions(&aig, &second, vec![vec![0]], 0).unwrap();
    let f = FlattenedScriptV1::from(&aig, &[&first, &second], &[&p1, &p2], 1, layout(&aig)).ok().unwrap();
    assert_eq!(f.num_major_stages, 2);
    assert_eq!(f.stages_blocks_parts, vec![vec![vec![0]], vec![vec![0]]]);
    // The second partition writes behind the first one.
    let at = f.blocks_start[1];
    assert_eq!(f.blocks_data[at + 3], f.blocks_data[3] + f.blocks_data[2]);
    simulate(&aig, &f, 20);
}

#[test]
fn idle_blocks_are_marked() {
    let mut d = Design::new();
    let (_, na) = d.input("a");
    let (_, nb) = d.input("b");
    let x = d.and(na, nb);
    d.output("x", x);
    let aig = build(&d);
    let staged = whole(&aig);
    let parts = map(&aig, &staged);
    let f = FlattenedScriptV1::from(&aig, &[&staged], &[&parts], 3, layout(&aig)).ok().unwrap();
    assert_eq!(f.stages_blocks_parts, vec![vec![vec![0], vec![], vec![]]]);
    assert_eq!(f.blocks_start[2] - f.blocks_start[1], 256);
    assert_eq!(f.blocks_data[f.blocks_start[1]], 0);
    assert_eq!(f.blocks_data[f.blocks_start[1] + 1], 1);
}

fn flatten_error(aig: &AIG, staged: &StagedAIG, parts: &[Partition], lay: Vec<usize>) -> FlattenError {
    match FlattenedScriptV1::from(aig, &[staged], &[parts], 1, lay) {
        Ok(_) => panic!("there is a script"),
        Err(e) => e,
    }
}

fn small_design() -> AIG {
    let mut d = Design::new();
    let (_, nclk) = d.input("clk");
    let (_, na) = d.input("a");
    let (_, nb) = d.input("b");
    let x = d.and(na, nb);
    let q = d.dff(nclk, x);
    d.output("x", x);
    d.output("q", q);
    build(&d)
}

#[test]
fn inputs_must_be_in_the_state() {
    let aig = small_design();
    let staged = whole(&aig);
    let parts = map(&aig, &staged);
    let mut lay = layout(&aig);
    let lost = lay.pop().unwrap();
    assert_eq!(flatten_error(&aig, &staged, &parts, lay), FlattenError::Unmapped(lost));
}

#[test]
fn malformed_partitions_are_refused() {
    let aig = small_design();
    let staged = whole(&aig);
    let lay = layout(&aig);
    let mut parts = map(&aig, &staged);
    parts[0].endpoints.push(99);
    assert_eq!(flatten_error(&aig, &staged, &parts, lay.clone()), FlattenError::Malformed);
    let mut parts = map(&aig, &staged);
    parts[0].stages[0].hier.pop();
    assert_eq!(flatten_error(&aig, &staged, &parts, lay.clone()), FlattenError::Malformed);
    let mut parts = map(&aig, &staged);
    parts[0].state_macros.push(0);
    assert_eq!(flatten_error(&aig, &staged, &parts, lay), FlattenError::Malformed);
}

#[test]
fn endpoints_must_be_written_out() {
    let aig = small_design();
    let staged = whole(&aig);
    let mut parts = map(&aig, &staged);
    for s in &mut parts[0].stages {
        s.write_outs.clear();
    }
    let e = flatten_error(&aig, &staged, &parts, layout(&aig));
    assert!(matches!(e, FlattenError::Unplaced(_)));
}

#[test]
fn partitions_need_stages() {
    let aig = small_design();
    let staged = whole(&aig);
    let mut parts = map(&aig, &staged);
    parts[0].stages.clear();
    parts[0].endpoints.clear();
    assert_eq!(flatten_error(&aig, &staged, &parts, layout(&aig)), FlattenError::NoStage);
}

#[test]
fn write_outs_are_limited() {
    let aig = small_design();
    let staged = whole(&aig);
    let mut parts = map(&aig, &staged);
    let w = parts[0].stages[0].write_outs[0];
    parts[0].stages[0].write_outs.extend(vec![w; 256]);
    assert_eq!(flatten_error(&aig, &staged, &parts, layout(&aig)), FlattenError::TooManyWords);
}

#[test]
fn stages_must_follow_each_other() {
    let aig = small_design();
    let staged = whole(&aig);
    let mut parts = map(&aig, &staged);
    // A second stage that reads what the first one does not leave.
    let mut again = map(&aig, &staged).remove(0).stages.remove(0);
    again.write_outs.clear();
    parts[0].stages.push(again);
    parts[0].stages[0].hier[1..].iter_mut().for_each(|row| row.fill(usize::MAX));
    let e = flatten_error(&aig, &staged, &parts, layout(&aig));
    assert!(matches!(e, FlattenError::Unplaced(_)));
}

#[test]
fn phases_are_limited() {
    let aig = small_design();
    let staged = whole(&aig);
    let mut parts = map(&aig, &staged);
    for _ in 0..118 {
        parts[0].macro_stages.push(gem::pe::MacroStage { after_stage: 0, lanes: vec![] });
    }
    assert_eq!(flatten_error(&aig, &staged, &parts, layout(&aig)), FlattenError::TooManyPhases);
}

#[test]
fn constant_outputs_are_refused() {
    let mut d = Design::new();
    let (_, na) = d.input("a");
    let x = d.and(na, 0);
    d.output("x", x);
    let (_, nb) = d.input("b");
    let y = d.and(na, nb);
    d.output("y", y);
    let aig = build(&d);
    let staged = whole(&aig);
    let parts = map(&aig, &staged);
    assert_eq!(flatten_error(&aig, &staged, &parts, layout(&aig)), FlattenError::ConstantOutput);
}

#[test]
fn registers_of_constant_one_are_refused() {
    let mut d = Design::new();
    let (_, nclk) = d.input("clk");
    let q = d.dff(nclk, 1);
    let (_, na) = d.input("a");
    let x = d.and(na, q);
    d.output("x", x);
    let aig = build(&d);
    let staged = whole(&aig);
    let parts = map(&aig, &staged);
    assert_eq!(flatten_error(&aig, &staged, &parts, layout(&aig)), FlattenError::ConstantOne);
}

#[test]
fn stages_read_what_the_stage_before_leaves() {
    let aig = small_design();
    let staged = whole(&aig);
    let mut parts = map(&aig, &staged);
    let mut again = map(&aig, &staged).remove(0).stages.remove(0);
    again.write_outs.clear();
    let lost = again.hier[0].iter().copied().find(|&u| {
        u != usize::MAX && parts[0].stages[0].hier[1..].iter().all(|row| !row.contains(&u))
    });
    parts[0].stages.push(again);
    let e = flatten_error(&aig, &staged, &parts, layout(&aig));
    assert_eq!(e, FlattenError::Missing(1, lost.unwrap()));
}

#[test]
fn constant_registers_with_several_enables_are_stored_nowhere() {
    let mut d = Design::new();
    let (_, nclk) = d.input("clk");
    let (_, ne) = d.input("e");
    let g = d.gate("CKLNQD", &[("CP", nclk), ("E", ne)], "Q");
    let q0 = d.dff(nclk, 0);
    let q1 = d.dff(g, 0);
    d.output("q0", q0);
    d.output("q1", q1);
    let aig = build(&d);
    let staged = whole(&aig);
    let parts = map(&aig, &staged);
    let lay = layout(&aig);
    let zero_word = (lay.len() + 31) / 32;
    let f = FlattenedScriptV1::from(&aig, &[&staged], &[&parts], 1, lay).ok().unwrap();
    for i in 0..2 {
        assert_eq!(f.input_map[&aig.dffs.value(i).q] as usize, zero_word * 32);
        assert!(!f.output_map.contains_key(&aig.dffs.value(i).d_iv));
    }
    // There are no copies.
    assert_eq!(f.blocks_data[7], 0);
    simulate(&aig, &f, 20);
}

fn carry_design() -> AIG {
    let mut d = Design::new();
    let (_, na) = d.input("a");
    let (o, _) = carry_cell(&mut d, None, [na, 0, 0, 0], [0; 4]);
    d.output("o", o[0]);
    build(&d)
}

#[test]
fn only_dsps_are_written_out_as_macros() {
    let mut aig = carry_design();
    aig.stateful_macros.push(0);
    let staged = whole(&aig);
    let parts = vec![Partition::build_one(&aig, &staged, &vec![0, 1]).unwrap()];
    assert_eq!(flatten_error(&aig, &staged, &parts, layout(&aig)), FlattenError::NotDsp);
}

fn one_stage(pins: &[usize], fill: usize) -> gem::pe::BoomerangStage {
    let mut hier: Vec<Vec<usize>> = (0..14).map(|h| vec![fill; 8192 >> h]).collect();
    hier[0][..pins.len()].copy_from_slice(pins);
    gem::pe::BoomerangStage { hier, write_outs: vec![] }
}

#[test]
fn macro_outputs_need_free_positions() {
    let aig = carry_design();
    let staged = whole(&aig);
    let phase = |after_stage: usize| gem::pe::MacroStage {
        after_stage,
        lanes: vec![gem::pe::MacroLane { macro_i: 0, chain_start: true }],
    };
    let part = |fill: usize| Partition {
        endpoints: vec![],
        stages: vec![one_stage(&[1], fill)],
        macro_stages: vec![phase(1)],
        state_macros: vec![],
    };
    // The pin is passed on to every slot, and no slot is left.
    let e = flatten_error(&aig, &staged, &[part(1)], layout(&aig));
    assert_eq!(e, FlattenError::NoFreePosition);
    // No slot holds the input of the macro.
    let e = flatten_error(&aig, &staged, &[part(usize::MAX)], layout(&aig));
    assert_eq!(e, FlattenError::Missing(1, 1));
}

#[test]
fn threads_read_no_more_than_they_can() {
    let mut d = Design::new();
    let n = 257 * 17;
    for i in 0..n {
        d.input(&format!("i{}", i));
    }
    let aig = build(&d);
    let staged = whole(&aig);
    assert_eq!(staged.num_endpoint_groups(), 0);
    let pins: Vec<usize> = (1..=n).collect();
    let part = |k: usize| Partition {
        endpoints: vec![],
        stages: vec![one_stage(&pins[..k], usize::MAX)],
        macro_stages: vec![],
        state_macros: vec![],
    };
    // Words of seventeen inputs each: a thread can read one of them.
    let mut lay = vec![usize::MAX; 257 * 32];
    for u in 0..n {
        lay[u / 17 * 32 + u % 17] = u + 1;
    }
    assert_eq!(flatten_error(&aig, &staged, &[part(n)], lay.clone()), FlattenError::TooManyReads);
    let f = FlattenedScriptV1::from(&aig, &[&staged], &[&[part(256 * 17)]], 1, lay).ok().unwrap();
    assert_eq!(f.blocks_data[6], 1);
}

#[test]
fn macro_inputs_must_not_be_gated_clocks() {
    let mut d = Design::new();
    let (_, nclk) = d.input("clk");
    let (_, ne) = d.input("e");
    let g = d.gate("CKLNQD", &[("CP", nclk), ("E", ne)], "Q");
    let c = d.cell("CARRY4");
    let p = d.pin(c, "S", Some(0), Direction::I, g);
    let n = d.net();
    d.pin(c, "O", Some(0), Direction::O, n);
    d.output("o", n);
    assert_eq!(build_error(&d), BuildError::GatedClock(p));
}

#[test]
fn netlists_and_stages_are_checked() {
    let mut d = Design::new();
    let (_, na) = d.input("a");
    d.output("y", na);
    assert!(d.nl.is_wf());
    let aig = build(&d);
    let mut staged = whole(&aig);
    assert!(staged.is_wf(&aig));
    staged.primary_output_pins.push(2);
    assert!(!staged.is_wf(&aig));
    staged.primary_output_pins[0] = 1;
    assert!(staged.is_wf(&aig));
    staged.primary_inputs = Some([1, 7].into_iter().collect());
    assert!(!staged.is_wf(&aig));
    staged.primary_inputs = None;
    staged.endpoints.push(1);
    assert!(!staged.is_wf(&aig));
    d.nl.net_roots[2] = 2;
    assert!(!d.nl.is_wf());
}

#[test]
fn macro_endpoints_come_last() {
    let mut d = Design::new();
    let (_, nclk) = d.input("clk");
    let (_, na) = d.input("a");
    let q = d.dff(nclk, na);
    d.output("q", q);
    let plain = build(&d);
    let c = d.cell("DSP48E2_BYPASS");
    d.pin(c, "CLK", None, Direction::I, nclk);
    d.pin(c, "C", Some(0), Direction::I, na);
    let n = d.net();
    d.pin(c, "P", Some(0), Direction::O, n);
    let both = build(&d);
    assert_eq!(plain.num_endpoint_groups(), 2);
    assert_eq!(both.num_endpoint_groups(), 3);
    assert!(matches!(both.get_endpoint_group(0), EndpointGroup::PrimaryOutput(_)));
    assert!(matches!(both.get_endpoint_group(1), EndpointGroup::DFF(_)));
    assert!(matches!(both.get_endpoint_group(2), EndpointGroup::Macro(_)));
}

#[test]
fn single_stages_finish_shallow_targets() {
    let aig = small_design();
    let gate = (1..=aig.num_aigpins).find(|&u| matches!(aig.drivers[u], DriverType::AndGate(_, _))).unwrap();
    let mut targets: IndexSet<usize> = [gate].into_iter().collect();
    let mut realized = IndexSet::new();
    let mut total = 0;
    let stage = build_one_boomerang_stage(&aig, &mut targets, &mut realized, &mut total, 0).unwrap();
    assert!(targets.is_empty());
    assert!(realized.contains(&gate));
    assert_eq!(total, 1);
    assert_eq!(stage.write_outs.len(), 1);
    assert_eq!(stage.hier.iter().map(|row| row.len()).sum::<usize>(), 16383);
    // Without write-outs there is no stage.
    let mut targets: IndexSet<usize> = [gate].into_iter().collect();
    let mut realized = IndexSet::new();
    let mut total = 0;
    assert!(build_one_boomerang_stage(&aig, &mut targets, &mut realized, &mut total, 256).is_none());
    assert_eq!(targets.len(), 1);
}

#[test]
fn single_gates_stand_in_the_first_slots() {
    let mut d = Design::new();
    let (_, na) = d.input("a");
    let (_, nb) = d.input("b");
    let x = d.and(na, nb);
    d.output("x", x);
    let aig = build(&d);
    assert_eq!(
        aig.drivers,
        vec![DriverType::Tie0, DriverType::InputPort(0), DriverType::InputPort(1), DriverType::AndGate(2, 4)]
    );
    let mut targets: IndexSet<usize> = [3].into_iter().collect();
    let mut realized: IndexSet<usize> = [1, 2].into_iter().collect();
    let mut total = 0;
    let stage = build_one_boomerang_stage(&aig, &mut targets, &mut realized, &mut total, 0).unwrap();
    assert_eq!(stage.write_outs, vec![128]);
    assert_eq!(total, 1);
    assert!(targets.is_empty());
    assert_eq!(realized, [1, 2, 3].into_iter().collect::<IndexSet<usize>>());
    for (r, row) in stage.hier.iter().enumerate() {
        for (j, &v) in row.iter().enumerate() {
            let expected = match (r, j) {
                (0, 0) => 1,
                (0, 4096) => 2,
                (1, 0) => 3,
                _ => usize::MAX,
            };
            assert_eq!(v, expected);
        }
    }
}

#[test]
fn twelve_levels_fit_into_one_stage() {
    for levels in 1..13 {
        let mut d = Design::new();
        let (_, mut net) = d.input("i");
        for i in 0..levels {
            let (_, n) = d.input(&format!("i{}", i));
            let x = d.and(net, n);
            net = d.gate("INV", &[("A", x)], "Y");
        }
        d.output("y", net);
        let aig = build(&d);
        let last = aig.pin2aigpin_iv[d.nl.net_roots[net]] / 2;
        let mut targets: IndexSet<usize> = [last].into_iter().collect();
        let mut realized = IndexSet::new();
        let mut total = 255;
        let stage = build_one_boomerang_stage(&aig, &mut targets, &mut realized, &mut total, 0).unwrap();
        assert!(targets.is_empty());
        assert!(realized.contains(&last));
        assert_eq!(stage.write_outs.len(), 1);
        assert_eq!(total, 256);
    }
}

#[test]
fn targets_are_written_out_early() {
    let mut d = Design::new();
    let (_, a) = d.input("a");
    let mut ends = vec![];
    for i in 0..40 {
        let (_, n) = d.input(&format!("i{}", i));
        ends.push(d.and(a, n));
    }
    let mut net = a;
    for i in 0..20 {
        let (_, n) = d.input(&format!("j{}", i));
        let x = d.and(net, n);
        net = d.gate("INV", &[("A", x)], "Y");
    }
    ends.push(net);
    for (i, &n) in ends.iter().enumerate() {
        d.output(&format!("y{}", i), n);
    }
    let aig = build(&d);
    let pins: Vec<usize> = ends.iter().map(|&n| aig.pin2aigpin_iv[d.nl.net_roots[n]] / 2).collect();
    let mut targets: IndexSet<usize> = pins.iter().copied().collect();
    let mut realized = IndexSet::new();
    let mut total = 0;
    let stage = build_one_boomerang_stage(&aig, &mut targets, &mut realized, &mut total, 0).unwrap();
    // One group is full; what is left of the shallow targets waits.
    assert_eq!(total, 1);
    assert_eq!(stage.write_outs.len(), 1);
    assert_eq!(targets.len(), 9);
    assert!(targets.contains(&pins[40]));
    assert!(!realized.contains(&pins[40]));
    assert!(pins[..40].iter().all(|p| realized.contains(p)));
}

#[test]
fn stages_need_words_to_write() {
    let aig = small_design();
    let gate = (1..=aig.num_aigpins).find(|&u| matches!(aig.drivers[u], DriverType::AndGate(_, _))).unwrap();
    for (count, reserved) in [(257, 0), (250, 10), (usize::MAX, 256)] {
        let mut targets: IndexSet<usize> = [gate].into_iter().collect();
        let mut realized = IndexSet::new();
        let mut total = count;
        assert!(build_one_boomerang_stage(&aig, &mut targets, &mut realized, &mut total, reserved).is_none());
        assert_eq!(total, count);
        assert_eq!(targets.len(), 1);
        assert!(realized.is_empty());
    }
}

#[test]
fn flat_targets_stand_in_order() {
    let mut d = Design::new();
    let (_, a) = d.input("a");
    for i in 0..40 {
        let (_, n) = d.input(&format!("i{}", i));
        let x = d.and(a, n);
        d.output(&format!("y{}", i), x);
    }
    let aig = build(&d);
    let mut gates: Vec<usize> =
        (1..=aig.num_aigpins).filter(|&u| matches!(aig.drivers[u], DriverType::AndGate(_, _))).collect();
    assert_eq!(gates.len(), 40);
    gates.reverse();
    let mut targets: IndexSet<usize> = gates.iter().copied().collect();
    let mut realized = IndexSet::new();
    let mut total = 0;
    let stage = build_one_boomerang_stage(&aig, &mut targets, &mut realized, &mut total, 0).unwrap();
    assert_eq!(&stage.hier[1][..40], &gates[..]);
    assert!(stage.hier[1][40..].iter().all(|&v| v == usize::MAX));
    assert!(stage.hier[2..].iter().all(|row| row.iter().all(|&v| v == usize::MAX)));
    assert_eq!(stage.write_outs, vec![128, 129]);
    assert_eq!(total, 2);
    assert!(targets.is_empty());
}

#[test]
fn deep_logic_takes_several_stages() {
    let mut d = Design::new();
    let (_, first) = d.input("i");
    let mut net = first;
    for i in 0..40 {
        let (_, n) = d.input(&format!("i{}", i));
        let x = d.and(net, n);
        net = d.gate("INV", &[("A", x)], "Y");
    }
    d.output("y", net);
    let aig = build(&d);
    let staged = whole(&aig);
    let parts = map(&aig, &staged);
    assert!(parts[0].stages.len() > 1);
    let f = FlattenedScriptV1::from(&aig, &[&staged], &[&parts], 1, layout(&aig)).ok().unwrap();
    simulate(&aig, &f, 30);
}

#[test]
fn leaves_of_deferred_targets_stay() {
    let mut d = Design::new();
    let (_, na) = d.input("a");
    let (_, nb) = d.input("b");
    let x = d.and(na, nb);
    let mut net = na;
    for i in 0..40 {
        let (_, n) = d.input(&format!("i{}", i));
        let y = d.and(net, n);
        net = d.gate("INV", &[("A", y)], "Y");
    }
    let (o, _) = carry_cell(&mut d, None, [net, 0, 0, 0], [0; 4]);
    let t = d.and(x, o[0]);
    d.output("x", x);
    d.output("t", t);
    let aig = build(&d);
    let pin = aig.pin2aigpin_iv[d.nl.net_roots[x]] / 2;
    let staged = whole(&aig);
    let parts = map(&aig, &staged);
    let p = &parts[0];
    assert_eq!(p.macro_stages.len(), 1);
    let n = p.macro_stages[0].after_stage;
    assert!(n > 2);
    for stage in &p.stages[..n] {
        assert!(stage.hier[1..].iter().any(|row| row.contains(&pin)));
    }
    let f = FlattenedScriptV1::from(&aig, &[&staged], &[&parts], 1, layout(&aig)).ok().unwrap();
    simulate(&aig, &f, 30);
}

#[test]
fn blocked_targets_wait_for_macros() {
    let mut d = Design::new();
    let (_, na) = d.input("a");
    let (o, _) = carry_cell(&mut d, None, [na, 0, 0, 0], [0; 4]);
    let x = d.and(o[0], na);
    let y = d.gate("AND2_01_0", &[("A", na), ("B", na)], "Y");
    d.output("x", x);
    d.output("y", y);
    let aig = build(&d);
    let pin = |net: usize| aig.pin2aigpin_iv[d.nl.net_roots[net]] / 2;
    let (a, x, y, o) = (pin(na), pin(x), pin(y), pin(o[0]));
    let targets: IndexSet<usize> = [x, y].into_iter().collect();
    let realized: IndexSet<usize> = [a].into_iter().collect();
    let pending: IndexSet<usize> = [o].into_iter().collect();
    let blocked = targets_blocked_by_pending(&aig, &targets, &realized, &pending);
    assert_eq!(blocked, [x].into_iter().collect::<IndexSet<usize>>());
    assert!(targets_blocked_by_pending(&aig, &targets, &realized, &IndexSet::new()).is_empty());
    assert_eq!(realized_leaves_of(&aig, &targets, &realized), [a].into_iter().collect::<IndexSet<usize>>());
    let waves = order_macro_waves(&aig, &targets, &IndexSet::new()).unwrap();
    assert_eq!(waves, vec![vec![0]]);
    assert!(is_chain_start(&aig, &vec![0], 0));
}

#[test]
fn dependent_macros_take_several_phases() {
    let mut d = Design::new();
    let (_, na) = d.input("a");
    let (o, _) = carry_cell(&mut d, None, [na, 0, 0, 0], [0; 4]);
    // Not a carry: the sum of one goes into the next.
    let (p, _) = carry_cell(&mut d, None, [o[0], na, 0, 0], [0; 4]);
    d.output("p", p[1]);
    let aig = build(&d);
    let targets: IndexSet<usize> = [aig.pin2aigpin_iv[d.nl.net_roots[p[1]]] / 2].into_iter().collect();
    let waves = order_macro_waves(&aig, &targets, &IndexSet::new()).unwrap();
    assert_eq!(waves, vec![vec![0], vec![1]]);
    let staged = whole(&aig);
    let parts = map(&aig, &staged);
    assert_eq!(parts[0].macro_stages.len(), 2);
    let f = FlattenedScriptV1::from(&aig, &[&staged], &[&parts], 1, layout(&aig)).ok().unwrap();
    simulate(&aig, &f, 20);
}

fn lines(text: &[&str]) -> Vec<String> {
    text.iter().map(|s| s.to_string()).collect()
}

#[test]
fn cluster_solutions_list_parts() {
    let parts = parts_from_hgr_lines(&lines(&["1", "0", "", "1", "+3"])).unwrap();
    assert_eq!(parts, vec![vec![1], vec![0, 3], vec![], vec![4]]);
    assert!(parts_from_hgr_lines(&lines(&[])).unwrap().is_empty());
    assert_eq!(parts_from_hgr_lines(&lines(&["1", "x", "-1"])), Err(HgrError::BadLine(1)));
    assert_eq!(parts_from_hgr_lines(&lines(&["99999999999999999999999"])), Err(HgrError::BadLine(0)));
}

#[test]
fn cluster_solutions_are_mapped() {
    let aig = small_design();
    let staged = whole(&aig);
    let parts = process_partitions_from_hgr_lines(&aig, &staged, &lines(&["0", "1", "1"]), 0).unwrap().unwrap();
    let mut all: Vec<usize> = parts.iter().flat_map(|p| p.endpoints.clone()).collect();
    all.sort();
    assert_eq!(all, vec![0, 1, 2]);
    let e = process_partitions_from_hgr_lines(&aig, &staged, &lines(&["0", "?"]), 0).err();
    assert_eq!(e, Some(HgrError::BadLine(1)));
    let e = process_partitions_from_hgr_lines(&aig, &staged, &lines(&["0", "0", "0", "0"]), 0).err();
    assert_eq!(e, Some(HgrError::UnknownEndpoint(3)));
    let e = process_partitions_from_hgr_lines(&aig, &staged, &lines(&["", ""]), 0).err();
    assert_eq!(e, Some(HgrError::Empty));
}

#[test]
fn partitions_are_merged() {
    let mut d = Design::new();
    let (_, nclk) = d.input("clk");
    let mut nets = vec![];
    for i in 0..20 {
        nets.push(d.input(&format!("i{}", i)).1);
    }
    for i in 0..19 {
        let x = d.and(nets[i], nets[i + 1]);
        let q = d.dff(nclk, x);
        d.output(&format!("q{}", i), q);
    }
    let aig = build(&d);
    let staged = whole(&aig);
    let parts = map(&aig, &staged);
    assert_eq!(parts.len(), 1);
    let mut all = parts[0].endpoints.clone();
    all.sort();
    assert_eq!(all, (0..staged.num_endpoint_groups()).collect::<Vec<_>>());
    let f = FlattenedScriptV1::from(&aig, &[&staged], &[&parts], 1, layout(&aig)).ok().unwrap();
    simulate(&aig, &f, 30);
}

#[test]
fn partitions_join_whole_parts() {
    let mut d = Design::new();
    let (_, na) = d.input("a");
    for i in 0..4 {
        let (_, n) = d.input(&format!("i{}", i));
        let x = d.and(na, n);
        d.output(&format!("o{}", i), x);
    }
    let aig = build(&d);
    let staged = whole(&aig);
    let given = vec![vec![2, 0], vec![], vec![3], vec![1]];
    let ps = process_partitions(&aig, &staged, given, 0).unwrap();
    assert_eq!(ps.len(), 1);
    assert_eq!(ps[0].endpoints, vec![2, 0, 3, 1]);
    assert_eq!(process_partitions(&aig, &staged, vec![vec![], vec![]], 0).unwrap().len(), 0);
}

#[test]
fn parts_with_too_much_are_not_mapped() {
    let mut d = Design::new();
    let (_, nclk) = d.input("clk");
    for _ in 0..65 {
        let c = d.cell("$__RAMGEM_SYNC_");
        d.pin(c, "PORT_R_CLK", None, Direction::I, nclk);
        let n = d.net();
        d.pin(c, "PORT_R_RD_DATA", Some(0), Direction::O, n);
        d.output("q", n);
    }
    let aig = build(&d);
    let staged = whole(&aig);
    assert!(is_schedulable(&aig));
    let srams: Vec<usize> = (0..staged.num_endpoint_groups())
        .filter(|&i| matches!(aig.get_endpoint_group(i), EndpointGroup::RAMBlock(_)))
        .collect();
    assert_eq!(srams.len(), 65);
    assert!(Partition::build_one(&aig, &staged, &srams).is_none());
    assert!(Partition::build_one(&aig, &staged, &srams[..8].to_vec()).is_some());
}

#[test]
fn phase_inputs_stay_addressable() {
    let mut d = Design::new();
    let (_, na) = d.input("a");
    let (_, nb) = d.input("b");
    let early = d.and(na, nb);
    let mut late = na;
    for i in 0..40 {
        let (_, n) = d.input(&format!("i{}", i));
        let x = d.and(late, n);
        late = d.gate("INV", &[("A", x)], "Y");
    }
    let (o, _) = carry_cell(&mut d, None, [early, late, 0, 0], [early, 0, 0, 0]);
    d.output("o0", o[0]);
    d.output("o1", o[1]);
    let aig = build(&d);
    let staged = whole(&aig);
    let parts = map(&aig, &staged);
    assert_eq!(parts[0].macro_stages.len(), 1);
    // What the first stage could already compute is carried along until the
    // phase needs it.
    let after = parts[0].macro_stages[0].after_stage;
    assert!(after > 1);
    for net in [early, late] {
        let pin = aig.pin2aigpin_iv[d.nl.net_roots[net]] / 2;
        assert!(parts[0].stages[after - 1].hier[1..].iter().any(|row| row.contains(&pin)));
    }
    let f = FlattenedScriptV1::from(&aig, &[&staged], &[&parts], 1, layout(&aig)).ok().unwrap();
    simulate(&aig, &f, 30);
}
