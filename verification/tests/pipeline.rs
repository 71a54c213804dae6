use aigmap::aig::AIG;
use aigmap::edge::AIGRef;
use aigmap::netlist::{AigError, Cell, CellKind, Module, NetName, Netlist, Port, PortDirection, Signal};

fn port(name: &str, direction: PortDirection, bit: u64) -> Port {
    Port { name: name.to_string(), direction, bits: vec![Signal::Net(bit)] }
}

fn netname(name: &str, bit: u64) -> NetName {
    NetName { name: name.to_string(), bits: vec![Signal::Net(bit)] }
}

fn cell1(name: &str, kind: CellKind, a: u64, y: u64) -> Cell {
    Cell {
        name: name.to_string(),
        kind,
        conn_a: Some(vec![Signal::Net(a)]),
        conn_b: None,
        conn_y: Some(vec![Signal::Net(y)]),
    }
}

fn cell2(name: &str, kind: CellKind, a: u64, b: u64, y: u64) -> Cell {
    Cell {
        name: name.to_string(),
        kind,
        conn_a: Some(vec![Signal::Net(a)]),
        conn_b: Some(vec![Signal::Net(b)]),
        conn_y: Some(vec![Signal::Net(y)]),
    }
}

fn top_module(ports: Vec<Port>, cells: Vec<Cell>, netnames: Vec<NetName>) -> Module {
    Module { name: "top".to_string(), top: Some(1), ports, cells, netnames }
}

fn one_module(m: Module) -> Netlist {
    Netlist { modules: vec![m] }
}

fn eval(aig: &AIG, r: AIGRef, ins: &[bool]) -> bool {
    let v = if r.is_pi() {
        ins[r.pi_idx()]
    } else {
        let n = &aig.nodes[r.idx()];
        eval(aig, n.inp0, ins) && eval(aig, n.inp1, ins)
    };
    if r.is_invert() { !v } else { v }
}

/// A two-input module: PIs `a`, `b` on bits 1, 2, one gate driving PO `y`
/// on bit 3.
fn gate_module(kind: CellKind) -> Netlist {
    one_module(top_module(
        vec![
            port("a", PortDirection::Input, 1),
            port("b", PortDirection::Input, 2),
            port("y", PortDirection::Output, 3),
        ],
        vec![cell2("g", kind, 1, 2, 3)],
        vec![netname("a", 1), netname("b", 2), netname("y", 3)],
    ))
}

fn cut_leaf_codes(c: &aigmap::cut::AIGCut) -> Vec<u64> {
    let mut v: Vec<u64> = c.refs.iter().map(|r| r.0).collect();
    v.sort();
    v
}

fn has_cut(cuts: &[aigmap::cut::AIGCut], mut leaves: Vec<u64>) -> bool {
    leaves.sort();
    cuts.iter().any(|c| cut_leaf_codes(c) == leaves)
}

fn pi_ref(i: usize) -> AIGRef {
    AIGRef::new(i, false, true)
}

#[test]
fn buffer_chain() {
    let aig = AIG::parse_netlist(one_module(top_module(
        vec![port("a", PortDirection::Input, 1), port("y", PortDirection::Output, 2)],
        vec![cell1("buf", CellKind::Buf, 1, 2)],
        vec![netname("a", 1), netname("y", 2)],
    )))
    .unwrap();
    assert_eq!(aig.nodes.len(), 0);
    assert_eq!(aig.pi.len(), 1);
    assert_eq!(aig.po.len(), 1);
    let r = aig.po[0].1;
    assert!(r.is_pi());
    assert!(!r.is_invert());
    assert_eq!(r.pi_idx(), 0);
}

#[test]
fn nand_gate() {
    let aig = AIG::parse_netlist(gate_module(CellKind::Nand)).unwrap();
    assert_eq!(aig.nodes.len(), 1);
    let r = aig.po[0].1;
    assert!(!r.is_pi());
    assert!(r.is_invert());
    let n = &aig.nodes[r.idx()];
    assert!(n.inp0.is_pi() && n.inp0.pi_idx() == 0 && !n.inp0.is_invert());
    assert!(n.inp1.is_pi() && n.inp1.pi_idx() == 1 && !n.inp1.is_invert());
    for a in [false, true] {
        for b in [false, true] {
            assert_eq!(eval(&aig, r, &[a, b]), !(a && b));
        }
    }
}

#[test]
fn xor_gate() {
    let aig = AIG::parse_netlist(gate_module(CellKind::Xor)).unwrap();
    assert_eq!(aig.nodes.len(), 3);
    let r = aig.po[0].1;
    for a in [false, true] {
        for b in [false, true] {
            assert_eq!(eval(&aig, r, &[a, b]), a ^ b);
        }
    }
}

#[test]
fn two_input_gate_truth_tables() {
    let gates: Vec<(CellKind, fn(bool, bool) -> bool)> = vec![
        (CellKind::And, |a, b| a && b),
        (CellKind::Or, |a, b| a || b),
        (CellKind::Nand, |a, b| !(a && b)),
        (CellKind::Nor, |a, b| !(a || b)),
        (CellKind::Xor, |a, b| a ^ b),
        (CellKind::Xnor, |a, b| !(a ^ b)),
        (CellKind::AndNot, |a, b| a && !b),
        (CellKind::OrNot, |a, b| a || !b),
    ];
    for (kind, f) in gates {
        let aig = AIG::parse_netlist(gate_module(kind)).unwrap();
        let r = aig.po[0].1;
        for a in [false, true] {
            for b in [false, true] {
                assert_eq!(eval(&aig, r, &[a, b]), f(a, b), "gate {:?}", kind);
            }
        }
    }
}

#[test]
fn unary_gate_truth_tables() {
    for (kind, f) in [(CellKind::Buf, false), (CellKind::Not, true)] {
        let aig = AIG::parse_netlist(one_module(top_module(
            vec![port("a", PortDirection::Input, 1), port("y", PortDirection::Output, 2)],
            vec![cell1("g", kind, 1, 2)],
            vec![netname("a", 1), netname("y", 2)],
        )))
        .unwrap();
        let r = aig.po[0].1;
        for a in [false, true] {
            assert_eq!(eval(&aig, r, &[a]), a ^ f);
        }
    }
}

fn aoi_netlist() -> Netlist {
    // y = (a & b) | (c & d), three cells
    one_module(top_module(
        vec![
            port("a", PortDirection::Input, 1),
            port("b", PortDirection::Input, 2),
            port("c", PortDirection::Input, 3),
            port("d", PortDirection::Input, 4),
            port("y", PortDirection::Output, 7),
        ],
        vec![
            cell2("and1", CellKind::And, 1, 2, 5),
            cell2("and2", CellKind::And, 3, 4, 6),
            cell2("or1", CellKind::Or, 5, 6, 7),
        ],
        vec![
            netname("a", 1),
            netname("b", 2),
            netname("c", 3),
            netname("d", 4),
            netname("n1", 5),
            netname("n2", 6),
            netname("y", 7),
        ],
    ))
}

#[test]
fn aoi_structure_and_cuts() {
    let mut aig = AIG::parse_netlist(aoi_netlist()).unwrap();
    assert_eq!(aig.nodes.len(), 3);
    let r = aig.po[0].1;
    // truth table of the whole cone
    for v in 0..16u32 {
        let ins = [v & 1 != 0, v & 2 != 0, v & 4 != 0, v & 8 != 0];
        assert_eq!(eval(&aig, r, &ins), (ins[0] && ins[1]) || (ins[2] && ins[3]));
    }
    aig.calc_topo_order();
    assert_eq!(aig.topo_order.len(), 3);
    aig.enumerate_cuts(4);
    let root = &aig.nodes[r.idx()];
    let f0 = root.inp0.noinv();
    let f1 = root.inp1.noinv();
    // the root keeps the all-PI cut and the two fan-ins' trivial cuts
    assert!(has_cut(&root.cuts, vec![pi_ref(0).0, pi_ref(1).0, pi_ref(2).0, pi_ref(3).0]));
    assert!(has_cut(&root.cuts, vec![f0.0, f1.0]));
    // arrival: the all-PI cut wins; area flow likewise
    assert_eq!(root.arrival, 1);
    assert_eq!(root.area_flow, 1);
    // the fan-in nodes see exactly their pair-of-PIs cut
    let n0 = &aig.nodes[root.inp0.idx()];
    assert_eq!(n0.cuts.len(), 1);
    assert_eq!(n0.arrival, 1);
    assert_eq!(n0.area_flow, 1);
}

#[test]
fn topo_order_properties() {
    let mut aig = AIG::parse_netlist(aoi_netlist()).unwrap();
    aig.calc_topo_order();
    // every node exactly once
    let mut seen = vec![false; aig.nodes.len()];
    for &i in &aig.topo_order {
        assert!(!seen[i]);
        seen[i] = true;
    }
    // each entry comes after its non-PI fan-ins
    for (p, &i) in aig.topo_order.iter().enumerate() {
        for f in [aig.nodes[i].inp0, aig.nodes[i].inp1] {
            if !f.is_pi() {
                let fp = aig.topo_order.iter().position(|&x| x == f.idx()).unwrap();
                assert!(fp < p);
            }
        }
    }
    // the mark bit is released
    for n in &aig.nodes {
        assert_eq!(n.num_fanouts, 0);
    }
}

#[test]
fn reconvergence_cuts() {
    // y = (a & b) & (a | b)
    let mut aig = AIG::parse_netlist(one_module(top_module(
        vec![
            port("a", PortDirection::Input, 1),
            port("b", PortDirection::Input, 2),
            port("y", PortDirection::Output, 5),
        ],
        vec![
            cell2("and1", CellKind::And, 1, 2, 3),
            cell2("or1", CellKind::Or, 1, 2, 4),
            cell2("and2", CellKind::And, 3, 4, 5),
        ],
        vec![
            netname("a", 1),
            netname("b", 2),
            netname("n1", 3),
            netname("n2", 4),
            netname("y", 5),
        ],
    )))
    .unwrap();
    aig.calc_topo_order();
    aig.enumerate_cuts(3);
    let r = aig.po[0].1;
    let root = &aig.nodes[r.idx()];
    // the {a, b} cut survives and dominates every superset
    assert!(has_cut(&root.cuts, vec![pi_ref(0).0, pi_ref(1).0]));
    assert!(root.cuts.len() >= 2);
    // K-feasibility, canonical non-inverted leaves, and no dominated cut
    for c in &root.cuts {
        assert!(c.refs.len() <= 3);
        for leaf in &c.refs {
            assert!(!leaf.is_invert());
        }
    }
    for (i, ci) in root.cuts.iter().enumerate() {
        for (j, cj) in root.cuts.iter().enumerate() {
            if i != j {
                let si = cut_leaf_codes(ci);
                let sj = cut_leaf_codes(cj);
                // no strict subset, no duplicate
                assert!(!(sj.iter().all(|x| si.contains(x)) && sj.len() < si.len()));
                assert_ne!(si, sj);
            }
        }
    }
}

#[test]
fn cut_arrivals_follow_leaves() {
    let mut aig = AIG::parse_netlist(aoi_netlist()).unwrap();
    aig.calc_topo_order();
    aig.enumerate_cuts(4);
    for &i in &aig.topo_order {
        let n = &aig.nodes[i];
        let mut best = u64::MAX;
        for c in &n.cuts {
            let mut worst = 0u64;
            for leaf in &c.refs {
                let la = if leaf.is_pi() { 0 } else { aig.nodes[leaf.idx()].arrival };
                worst = worst.max(la);
            }
            assert_eq!(c.arrival, 1 + worst);
            best = best.min(c.arrival);
        }
        assert_eq!(n.arrival, best);
    }
}

#[test]
fn pipeline_deterministic() {
    let run = || {
        let mut aig = AIG::parse_netlist(aoi_netlist()).unwrap();
        aig.calc_topo_order();
        aig.enumerate_cuts(4);
        aig
    };
    let x = run();
    let y = run();
    assert_eq!(x.nodes.len(), y.nodes.len());
    assert_eq!(x.topo_order, y.topo_order);
    assert_eq!(x.pi, y.pi);
    for (a, b) in x.nodes.iter().zip(y.nodes.iter()) {
        assert_eq!(a.inp0.0, b.inp0.0);
        assert_eq!(a.inp1.0, b.inp1.0);
        assert_eq!(a.arrival, b.arrival);
        assert_eq!(a.area_flow, b.area_flow);
        assert_eq!(a.cuts.len(), b.cuts.len());
        for (ca, cb) in a.cuts.iter().zip(b.cuts.iter()) {
            assert_eq!(cut_leaf_codes(ca), cut_leaf_codes(cb));
            assert_eq!(ca.arrival, cb.arrival);
            assert_eq!(ca.area_flow, cb.area_flow);
        }
    }
    for ((na, ra), (nb, rb)) in x.po.iter().zip(y.po.iter()) {
        assert_eq!(na, nb);
        assert_eq!(ra.0, rb.0);
    }
}

#[test]
fn undriven_po() {
    let r = AIG::parse_netlist(one_module(top_module(
        vec![port("y", PortDirection::Output, 9)],
        vec![],
        vec![netname("y", 9)],
    )));
    assert_eq!(r.unwrap_err(), AigError::UndrivenNet);
}

#[test]
fn top_module_errors() {
    let mut m1 = top_module(vec![], vec![], vec![]);
    m1.top = None;
    assert_eq!(
        AIG::parse_netlist(Netlist { modules: vec![m1.clone()] }).unwrap_err(),
        AigError::TopModuleMissing
    );
    let m2 = top_module(vec![], vec![], vec![]);
    let m3 = top_module(vec![], vec![], vec![]);
    assert_eq!(
        AIG::parse_netlist(Netlist { modules: vec![m2, m3] }).unwrap_err(),
        AigError::TopModuleAmbiguous
    );
    // a zero-valued top attribute does not count
    let mut m4 = top_module(vec![], vec![], vec![]);
    m4.top = Some(0);
    assert_eq!(
        AIG::parse_netlist(Netlist { modules: vec![m4] }).unwrap_err(),
        AigError::TopModuleMissing
    );
}

#[test]
fn width_and_constant_errors() {
    let mut m = top_module(vec![], vec![], vec![]);
    m.netnames.push(NetName {
        name: "w".to_string(),
        bits: vec![Signal::Net(1), Signal::Net(2)],
    });
    assert_eq!(AIG::parse_netlist(one_module(m)).unwrap_err(), AigError::WidthUnsupported);
    let mut m2 = top_module(vec![], vec![], vec![]);
    m2.netnames.push(NetName { name: "w".to_string(), bits: vec![Signal::Constant] });
    assert_eq!(AIG::parse_netlist(one_module(m2)).unwrap_err(), AigError::ConstantNotSupported);
}

#[test]
fn cell_errors() {
    // unknown cell type, reached from the output
    let mut nl = gate_module(CellKind::Other);
    assert_eq!(AIG::parse_netlist(nl).unwrap_err(), AigError::UnsupportedCell);
    // missing B connection on a two-input gate
    nl = gate_module(CellKind::And);
    nl.modules[0].cells[0].conn_b = None;
    assert_eq!(AIG::parse_netlist(nl).unwrap_err(), AigError::MalformedCell);
    // missing Y connection is caught while scanning cells
    nl = gate_module(CellKind::And);
    nl.modules[0].cells[0].conn_y = None;
    assert_eq!(AIG::parse_netlist(nl).unwrap_err(), AigError::MalformedCell);
    // two drivers on one net
    nl = gate_module(CellKind::And);
    nl.modules[0].cells.push(cell2("g2", CellKind::Or, 1, 2, 3));
    assert_eq!(AIG::parse_netlist(nl).unwrap_err(), AigError::DoubleDriver);
}

#[test]
fn inout_rejected() {
    let nl = one_module(top_module(
        vec![port("a", PortDirection::InOut, 1)],
        vec![],
        vec![netname("a", 1)],
    ));
    assert_eq!(AIG::parse_netlist(nl).unwrap_err(), AigError::InoutNotSupported);
}

#[test]
fn combinational_loop_rejected() {
    // a buffer feeding itself, read by the output port
    let nl = one_module(top_module(
        vec![port("y", PortDirection::Output, 1)],
        vec![cell1("loopy", CellKind::Buf, 1, 1)],
        vec![netname("y", 1)],
    ));
    assert_eq!(AIG::parse_netlist(nl).unwrap_err(), AigError::CombinationalLoop);
}

#[test]
fn dot_text_shape() {
    let mut aig = AIG::parse_netlist(aoi_netlist()).unwrap();
    aig.calc_topo_order();
    aig.enumerate_cuts(4);
    let labels: Vec<Vec<u8>> = aig.nodes.iter().map(|_| Vec::new()).collect();
    let text = aig.dot_bytes("nodes", &labels);
    let s = String::from_utf8(text).unwrap();
    assert!(s.starts_with("digraph nodes {\n"));
    assert!(s.ends_with("}\n"));
    assert!(s.contains("pi0 [shape=triangle"));
    assert!(s.contains("y [shape=invtriangle"));
    assert!(s.contains("[color=blue]"));
}

#[test]
fn edge_handle_fields() {
    let r = AIGRef::new(5, true, false);
    assert!(!r.is_pi());
    assert!(r.is_invert());
    assert_eq!(r.idx(), 5);
    assert_eq!(r.noinv().idx(), 5);
    assert!(!r.noinv().is_invert());
    assert!(!r.inv().is_invert());
    assert!(r.inv().inv().is_invert());
    let p = AIGRef::new(7, false, true);
    assert!(p.is_pi());
    assert_eq!(p.pi_idx(), 7);
    assert_ne!(p.0, AIGRef::new(7, true, true).0);
    let mut q = p;
    q.set_invert(true);
    assert!(q.is_invert());
    q.set_invert(false);
    assert_eq!(q.0, p.0);
}

#[test]
fn trivial_cut_shape() {
    let r = AIGRef::new(3, true, false);
    let c = aigmap::cut::AIGCut::trivial(r.noinv());
    assert_eq!(c.refs.len(), 1);
    assert_eq!(c.refs[0].0, r.noinv().0);
    assert_eq!(c.arrival, u64::MAX);
    assert_eq!(c.area_flow, u64::MAX);
}
