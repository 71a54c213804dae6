//! Netlist lowering: the two-input gate library translated to AND nodes
//! with polarity-encoded edges, by a recursive walk from every output port
//! through the driving cells.
//!
//! Every step has a specification mirror (`sp_*`), so the built graph is a
//! function of the input netlist alone.

use vstd::prelude::*;

use crate::aig::{fanin_ok, AIG, AIGNode};
use crate::edge::AIGRef;
use crate::netlist::{AigError, Cell, CellKind, Module, NetName, Netlist, Port, PortDirection, Signal};
use crate::topo::fanins_of;

verus! {

/// What the lowering records about a net: the cell driving it, if any, and
/// whether it is an input port's net.
#[derive(Copy, Clone, PartialEq, Eq, Structural, Debug)]
pub struct NetAttrs {
    pub driver: Option<usize>,
    pub input: bool,
}

/// Lookup in an association list where the latest entry for a key wins.
pub open spec fn alook<V>(s: Seq<(u64, V)>, k: u64) -> Option<V>
    decreases s.len(),
{
    if s.len() == 0 {
        None
    } else if s.last().0 == k {
        Some(s.last().1)
    } else {
        alook(s.drop_last(), k)
    }
}

/// A found value comes from some entry of the list.
pub proof fn lemma_alook_entry<V>(s: Seq<(u64, V)>, k: u64)
    requires
        alook(s, k).is_some(),
    ensures
        exists|j: int| 0 <= j < s.len() && #[trigger] s[j] == (k, alook(s, k).unwrap()),
    decreases s.len(),
{
    if s.len() > 0 {
        if s.last().0 == k {
            assert(s[s.len() - 1] == (k, alook(s, k).unwrap()));
        } else {
            lemma_alook_entry(s.drop_last(), k);
            let j = choose|j: int|
                0 <= j < s.drop_last().len() && #[trigger] s.drop_last()[j] == (
                k,
                alook(s.drop_last(), k).unwrap(),
            );
            assert(s[j] == (k, alook(s, k).unwrap()));
        }
    }
}

/// The single net behind a connection: absent, too wide, or constant
/// connections are errors.
pub open spec fn conn_bit(c: Option<Vec<Signal>>) -> Result<u64, AigError> {
    match c {
        Option::None => Result::Err(AigError::MalformedCell),
        Option::Some(v) => if v@.len() != 1 {
            Result::Err(AigError::WidthUnsupported)
        } else {
            match v@[0] {
                Signal::Net(b) => Result::Ok(b),
                Signal::Constant => Result::Err(AigError::ConstantNotSupported),
            }
        },
    }
}

/// A module claims to be top when its `top` attribute is a nonzero number.
pub open spec fn is_top_module(m: Module) -> bool {
    match m.top {
        Option::Some(n) => n != 0,
        Option::None => false,
    }
}

/// The index of the single top module: ambiguity and absence are errors.
pub open spec fn sp_find_top(ms: Seq<Module>, j: int, found: Option<int>) -> Result<int, AigError>
    decreases ms.len() - j,
{
    if !(0 <= j < ms.len()) {
        match found {
            Option::Some(t) => Result::Ok(t),
            Option::None => Result::Err(AigError::TopModuleMissing),
        }
    } else if is_top_module(ms[j]) {
        if found.is_some() {
            Result::Err(AigError::TopModuleAmbiguous)
        } else {
            sp_find_top(ms, j + 1, Option::Some(j))
        }
    } else {
        sp_find_top(ms, j + 1, found)
    }
}

/// The net table after reading the named nets, in order.
pub open spec fn sp_netnames(nns: Seq<NetName>, j: int, nets: Seq<(u64, NetAttrs)>) -> Result<
    Seq<(u64, NetAttrs)>,
    AigError,
>
    decreases nns.len() - j,
{
    if !(0 <= j < nns.len()) {
        Result::Ok(nets)
    } else if nns[j].bits@.len() != 1 {
        Result::Err(AigError::WidthUnsupported)
    } else {
        match nns[j].bits@[0] {
            Signal::Constant => Result::Err(AigError::ConstantNotSupported),
            Signal::Net(b) => sp_netnames(
                nns,
                j + 1,
                nets.push((b, NetAttrs { driver: Option::None, input: false })),
            ),
        }
    }
}

/// The net table after registering each cell as the driver of its `Y` net.
pub open spec fn sp_cells(cells: Seq<Cell>, j: int, nets: Seq<(u64, NetAttrs)>) -> Result<
    Seq<(u64, NetAttrs)>,
    AigError,
>
    decreases cells.len() - j,
{
    if !(0 <= j < cells.len()) {
        Result::Ok(nets)
    } else {
        match conn_bit(cells[j].conn_y) {
            Result::Err(e) => Result::Err(e),
            Result::Ok(y) => match alook(nets, y) {
                Option::Some(a) => if a.driver.is_some() {
                    Result::Err(AigError::DoubleDriver)
                } else {
                    sp_cells(
                        cells,
                        j + 1,
                        nets.push((y, NetAttrs { driver: Option::Some(j as usize), input: a.input })),
                    )
                },
                Option::None => sp_cells(
                    cells,
                    j + 1,
                    nets.push((y, NetAttrs { driver: Option::Some(j as usize), input: false })),
                ),
            },
        }
    }
}

/// The state after the input-port pass: the net table, the net-to-PI map
/// and the list of input-port indices, in port order.
pub open spec fn sp_ports_in(
    ports: Seq<Port>,
    j: int,
    nets: Seq<(u64, NetAttrs)>,
    pimap: Seq<(u64, usize)>,
    pis: Seq<int>,
) -> Result<(Seq<(u64, NetAttrs)>, Seq<(u64, usize)>, Seq<int>), AigError>
    decreases ports.len() - j,
{
    if !(0 <= j < ports.len()) {
        Result::Ok((nets, pimap, pis))
    } else if ports[j].bits@.len() != 1 {
        Result::Err(AigError::WidthUnsupported)
    } else {
        match ports[j].bits@[0] {
            Signal::Constant => Result::Err(AigError::ConstantNotSupported),
            Signal::Net(b) => match ports[j].direction {
                PortDirection::InOut => Result::Err(AigError::InoutNotSupported),
                PortDirection::Output => sp_ports_in(ports, j + 1, nets, pimap, pis),
                PortDirection::Input => {
                    let a = match alook(nets, b) {
                        Option::Some(a0) => a0,
                        Option::None => NetAttrs { driver: Option::None, input: false },
                    };
                    if a.driver.is_some() {
                        Result::Err(AigError::DoubleDriver)
                    } else if pis.len() >= 0x1_0000_0000_0000 {
                        Result::Err(AigError::CapacityExceeded)
                    } else {
                        sp_ports_in(
                            ports,
                            j + 1,
                            nets.push((b, NetAttrs { driver: Option::None, input: true })),
                            pimap.push((b, pis.len() as usize)),
                            pis.push(j),
                        )
                    }
                },
            },
        }
    }
}

/// Appending one AND node: the grown store and the non-inverted handle to
/// the new slot.
pub open spec fn sp_add(nodes: Seq<(AIGRef, AIGRef)>, a: AIGRef, b: AIGRef) -> (
    Seq<(AIGRef, AIGRef)>,
    AIGRef,
) {
    (nodes.push((a, b)), AIGRef::spec_new(nodes.len() as u64, false, false))
}

/// An edge, inverted when the flag says so.
pub open spec fn cond_inv(r: AIGRef, f: bool) -> AIGRef {
    if f {
        r.spec_inv()
    } else {
        r
    }
}

/// Lowering the net `bit`: a PI handle for an input net, else the lowering
/// of its driving cell; fuel bounds the depth of the walk.
pub open spec fn sp_lower_input(
    cells: Seq<Cell>,
    nets: Seq<(u64, NetAttrs)>,
    pimap: Seq<(u64, usize)>,
    nodes: Seq<(AIGRef, AIGRef)>,
    bit: u64,
    fuel: nat,
) -> Result<(Seq<(AIGRef, AIGRef)>, AIGRef), AigError>
    decreases fuel, 0int,
{
    match alook(nets, bit) {
        Option::None => Result::Err(AigError::UndrivenNet),
        Option::Some(a) => if a.input {
            match alook(pimap, bit) {
                Option::Some(pi) => Result::Ok(
                    (nodes, AIGRef::spec_new(pi as u64, false, true)),
                ),
                Option::None => Result::Err(AigError::UndrivenNet),
            }
        } else {
            match a.driver {
                Option::Some(ci) => if fuel == 0 {
                    Result::Err(AigError::CombinationalLoop)
                } else {
                    sp_lower_cell(cells, nets, pimap, nodes, ci as int, (fuel - 1) as nat)
                },
                Option::None => Result::Err(AigError::UndrivenNet),
            }
        },
    }
}

/// Lowering one two-input gate: both operands, one new AND node, with the
/// operand and output inversions the cell kind prescribes.
pub open spec fn sp_two(
    cells: Seq<Cell>,
    nets: Seq<(u64, NetAttrs)>,
    pimap: Seq<(u64, usize)>,
    nodes: Seq<(AIGRef, AIGRef)>,
    ci: int,
    fuel: nat,
    ia: bool,
    ib: bool,
    io: bool,
) -> Result<(Seq<(AIGRef, AIGRef)>, AIGRef), AigError>
    decreases fuel, 1int,
{
    match conn_bit(cells[ci].conn_a) {
        Result::Err(e) => Result::Err(e),
        Result::Ok(a) => match conn_bit(cells[ci].conn_b) {
            Result::Err(e) => Result::Err(e),
            Result::Ok(b) => match sp_lower_input(cells, nets, pimap, nodes, a, fuel) {
                Result::Err(e) => Result::Err(e),
                Result::Ok((n1, ra)) => match sp_lower_input(cells, nets, pimap, n1, b, fuel) {
                    Result::Err(e) => Result::Err(e),
                    Result::Ok((n2, rb)) => if n2.len() >= 0x1_0000_0000_0000 {
                        Result::Err(AigError::CapacityExceeded)
                    } else {
                        let (n3, r) = sp_add(n2, cond_inv(ra, ia), cond_inv(rb, ib));
                        Result::Ok((n3, cond_inv(r, io)))
                    },
                },
            },
        },
    }
}

/// Lowering an XOR-shaped gate: three AND nodes, the last one inverted for
/// XOR and plain for XNOR.
pub open spec fn sp_xor(
    cells: Seq<Cell>,
    nets: Seq<(u64, NetAttrs)>,
    pimap: Seq<(u64, usize)>,
    nodes: Seq<(AIGRef, AIGRef)>,
    ci: int,
    fuel: nat,
    io: bool,
) -> Result<(Seq<(AIGRef, AIGRef)>, AIGRef), AigError>
    decreases fuel, 1int,
{
    match conn_bit(cells[ci].conn_a) {
        Result::Err(e) => Result::Err(e),
        Result::Ok(a) => match conn_bit(cells[ci].conn_b) {
            Result::Err(e) => Result::Err(e),
            Result::Ok(b) => match sp_lower_input(cells, nets, pimap, nodes, a, fuel) {
                Result::Err(e) => Result::Err(e),
                Result::Ok((n1, ra)) => match sp_lower_input(cells, nets, pimap, n1, b, fuel) {
                    Result::Err(e) => Result::Err(e),
                    Result::Ok((n2, rb)) => if n2.len() + 2 >= 0x1_0000_0000_0000 {
                        Result::Err(AigError::CapacityExceeded)
                    } else {
                        let (n3, r1) = sp_add(n2, ra, rb.spec_inv());
                        let (n4, r2) = sp_add(n3, ra.spec_inv(), rb);
                        let (n5, r3) = sp_add(n4, r1.spec_inv(), r2.spec_inv());
                        Result::Ok((n5, cond_inv(r3, io)))
                    },
                },
            },
        },
    }
}

/// Lowering one cell by its kind, as the translation table prescribes.
pub open spec fn sp_lower_cell(
    cells: Seq<Cell>,
    nets: Seq<(u64, NetAttrs)>,
    pimap: Seq<(u64, usize)>,
    nodes: Seq<(AIGRef, AIGRef)>,
    ci: int,
    fuel: nat,
) -> Result<(Seq<(AIGRef, AIGRef)>, AIGRef), AigError>
    decreases fuel, 2int,
{
    match cells[ci].kind {
        CellKind::Buf => match conn_bit(cells[ci].conn_a) {
            Result::Err(e) => Result::Err(e),
            Result::Ok(a) => sp_lower_input(cells, nets, pimap, nodes, a, fuel),
        },
        CellKind::Not => match conn_bit(cells[ci].conn_a) {
            Result::Err(e) => Result::Err(e),
            Result::Ok(a) => match sp_lower_input(cells, nets, pimap, nodes, a, fuel) {
                Result::Err(e) => Result::Err(e),
                Result::Ok((n1, ra)) => Result::Ok((n1, ra.spec_inv())),
            },
        },
        CellKind::And => sp_two(cells, nets, pimap, nodes, ci, fuel, false, false, false),
        CellKind::Or => sp_two(cells, nets, pimap, nodes, ci, fuel, true, true, true),
        CellKind::Nand => sp_two(cells, nets, pimap, nodes, ci, fuel, false, false, true),
        CellKind::Nor => sp_two(cells, nets, pimap, nodes, ci, fuel, true, true, false),
        CellKind::AndNot => sp_two(cells, nets, pimap, nodes, ci, fuel, false, true, false),
        CellKind::OrNot => sp_two(cells, nets, pimap, nodes, ci, fuel, true, false, true),
        CellKind::Xor => sp_xor(cells, nets, pimap, nodes, ci, fuel, true),
        CellKind::Xnor => sp_xor(cells, nets, pimap, nodes, ci, fuel, false),
        CellKind::Other => Result::Err(AigError::UnsupportedCell),
    }
}

/// The output-port pass: lowering the driver of every output net, in port
/// order, collecting the primary outputs as (port index, edge) pairs.
pub open spec fn sp_outputs(
    ports: Seq<Port>,
    cells: Seq<Cell>,
    nets: Seq<(u64, NetAttrs)>,
    pimap: Seq<(u64, usize)>,
    j: int,
    nodes: Seq<(AIGRef, AIGRef)>,
    pos: Seq<(int, AIGRef)>,
    fuel: nat,
) -> Result<(Seq<(AIGRef, AIGRef)>, Seq<(int, AIGRef)>), AigError>
    decreases ports.len() - j,
{
    if !(0 <= j < ports.len()) {
        Result::Ok((nodes, pos))
    } else if ports[j].bits@.len() != 1 {
        Result::Err(AigError::WidthUnsupported)
    } else {
        match ports[j].bits@[0] {
            Signal::Constant => Result::Err(AigError::ConstantNotSupported),
            Signal::Net(b) => if !(ports[j].direction is Output) {
                sp_outputs(ports, cells, nets, pimap, j + 1, nodes, pos, fuel)
            } else {
                match alook(nets, b) {
                    Option::None => Result::Err(AigError::UndrivenNet),
                    Option::Some(a) => if a.input {
                        Result::Err(AigError::UndrivenNet)
                    } else {
                        match a.driver {
                            Option::None => Result::Err(AigError::UndrivenNet),
                            Option::Some(ci) => match sp_lower_cell(
                                cells,
                                nets,
                                pimap,
                                nodes,
                                ci as int,
                                fuel,
                            ) {
                                Result::Err(e) => Result::Err(e),
                                Result::Ok((n1, r)) => sp_outputs(
                                    ports,
                                    cells,
                                    nets,
                                    pimap,
                                    j + 1,
                                    n1,
                                    pos.push((j, r)),
                                    fuel,
                                ),
                            },
                        }
                    },
                }
            },
        }
    }
}

/// The whole lowering of one module.
pub open spec fn sp_module(m: Module) -> Result<
    (Seq<(AIGRef, AIGRef)>, Seq<int>, Seq<(int, AIGRef)>),
    AigError,
> {
    match sp_netnames(m.netnames@, 0, Seq::empty()) {
        Result::Err(e) => Result::Err(e),
        Result::Ok(nets1) => match sp_cells(m.cells@, 0, nets1) {
            Result::Err(e) => Result::Err(e),
            Result::Ok(nets2) => match sp_ports_in(m.ports@, 0, nets2, Seq::empty(), Seq::empty()) {
                Result::Err(e) => Result::Err(e),
                Result::Ok((nets3, pimap, pis)) => if m.cells@.len() + 1 > usize::MAX {
                    Result::Err(AigError::CapacityExceeded)
                } else {
                    match sp_outputs(
                        m.ports@,
                        m.cells@,
                        nets3,
                        pimap,
                        0,
                        Seq::empty(),
                        Seq::empty(),
                        (m.cells@.len() + 1) as nat,
                    ) {
                        Result::Err(e) => Result::Err(e),
                        Result::Ok((nodes, pos)) => Result::Ok((nodes, pis, pos)),
                    }
                },
            },
        },
    }
}

/// The whole lowering of a netlist: the single top module's graph.
pub open spec fn sp_parse(nl: Netlist) -> Result<
    (Seq<(AIGRef, AIGRef)>, Seq<int>, Seq<(int, AIGRef)>),
    AigError,
> {
    match sp_find_top(nl.modules@, 0, Option::None) {
        Result::Err(e) => Result::Err(e),
        Result::Ok(t) => sp_module(nl.modules@[t]),
    }
}

} // verus!

verus! {

/// Every recorded driver index points at a cell.
pub open spec fn nets_ok(nets: Seq<(u64, NetAttrs)>, ncells: int) -> bool {
    forall|j: int|
        0 <= j < nets.len() ==> ((#[trigger] nets[j]).1.driver matches Option::Some(d) ==> d
            < ncells)
}

/// Every recorded PI index is in range, and the range fits the handle's
/// index field.
pub open spec fn pimap_ok(pm: Seq<(u64, usize)>, npis: int) -> bool {
    &&& npis <= 0x1_0000_0000_0000
    &&& forall|j: int| 0 <= j < pm.len() ==> (#[trigger] pm[j]).1 < npis
}

/// A node that no annotation pass has touched yet.
pub open spec fn node_fresh(n: AIGNode) -> bool {
    &&& n.num_fanouts == 0
    &&& n.cuts@.len() == 0
    &&& n.arrival == u64::MAX
    &&& n.area_flow == u64::MAX
}

/// Every node's fan-ins resolve below it or into the PI table.
pub open spec fn nodes_wf_upto(nodes: Seq<AIGNode>, npis: int) -> bool {
    forall|j: int|
        0 <= j < nodes.len() ==> fanin_ok(#[trigger] nodes[j].inp0, j, npis) && fanin_ok(
            nodes[j].inp1,
            j,
            npis,
        )
}

/// The result edge of a lowering step resolves against the store and the
/// PI table.
pub open spec fn res_ok(r: AIGRef, nnodes: int, npis: int) -> bool {
    &&& r.wf()
    &&& (r.spec_is_pi() ==> r.spec_index() < npis)
    &&& (!r.spec_is_pi() ==> r.spec_index() < nnodes)
}

/// Last-wins lookup in an association vector.
fn alook_get<V: Copy>(v: &Vec<(u64, V)>, k: u64) -> (r: Option<V>)
    ensures
        r == alook(v@, k),
{
    let mut i: usize = v.len();
    proof {
        assert(v@.take(v@.len() as int) =~= v@);
    }
    while i > 0
        invariant
            i <= v@.len(),
            alook(v@, k) == alook(v@.take(i as int), k),
        decreases i,
    {
        i = i - 1;
        proof {
            let t = v@.take(i + 1 as int);
            assert(t.last() == v@[i as int]);
            assert(t.drop_last() =~= v@.take(i as int));
        }
        if v[i].0 == k {
            return Some(v[i].1);
        }
    }
    None
}

/// The single net behind a connection, as [`conn_bit`] prescribes.
fn conn_bit_x(c: &Option<Vec<Signal>>) -> (r: Result<u64, AigError>)
    ensures
        r == conn_bit(*c),
{
    match c {
        Option::None => Result::Err(AigError::MalformedCell),
        Option::Some(v) => {
            if v.len() != 1 {
                Result::Err(AigError::WidthUnsupported)
            } else {
                match v[0] {
                    Signal::Net(b) => Result::Ok(b),
                    Signal::Constant => Result::Err(AigError::ConstantNotSupported),
                }
            }
        },
    }
}

/// Appends a fresh AND node and returns the non-inverted handle to it.
fn add_and(nodes: &mut Vec<AIGNode>, a: AIGRef, b: AIGRef, name: &str) -> (r: AIGRef)
    requires
        old(nodes)@.len() < 0x1_0000_0000_0000,
    ensures
        fanins_of(final(nodes)@) == sp_add(fanins_of(old(nodes)@), a, b).0,
        r == sp_add(fanins_of(old(nodes)@), a, b).1,
        final(nodes)@.len() == old(nodes)@.len() + 1,
        forall|j: int| 0 <= j < old(nodes)@.len() ==> final(nodes)@[j] == old(nodes)@[j],
        final(nodes)@.last().inp0 == a,
        final(nodes)@.last().inp1 == b,
        node_fresh(final(nodes)@.last()),
        r.wf() && !r.spec_is_pi() && !r.spec_is_invert() && r.spec_index() == old(nodes)@.len(),
{
    let idx = nodes.len();
    let n = AIGNode::new(a, b, name);
    nodes.push(n);
    proof {
        crate::edge::lemma_new_fields(idx as u64, false, false);
        assert(fanins_of(nodes@) =~= fanins_of(old(nodes)@).push((a, b)));
    }
    AIGRef::new(idx, false, false)
}

/// Lowers the net `bit` into the store; see [`sp_lower_input`].
fn process_input(
    nodes: &mut Vec<AIGNode>,
    module: &Module,
    nets: &Vec<(u64, NetAttrs)>,
    pimap: &Vec<(u64, usize)>,
    bit: u64,
    fuel: usize,
    Ghost(npis): Ghost<int>,
) -> (r: Result<AIGRef, AigError>)
    requires
        nets_ok(nets@, module.cells@.len() as int),
        pimap_ok(pimap@, npis),
        nodes_wf_upto(old(nodes)@, npis),
        forall|j: int| 0 <= j < old(nodes)@.len() ==> node_fresh(#[trigger] old(nodes)@[j]),
    ensures
        old(nodes)@.len() <= final(nodes)@.len(),
        forall|j: int| 0 <= j < old(nodes)@.len() ==> final(nodes)@[j] == old(nodes)@[j],
        nodes_wf_upto(final(nodes)@, npis),
        forall|j: int| 0 <= j < final(nodes)@.len() ==> node_fresh(#[trigger] final(nodes)@[j]),
        (r matches Result::Err(e) ==> sp_lower_input(
            module.cells@,
            nets@,
            pimap@,
            fanins_of(old(nodes)@),
            bit,
            fuel as nat,
        ) == Result::<(Seq<(AIGRef, AIGRef)>, AIGRef), AigError>::Err(e)),
        (r matches Result::Ok(a) ==> sp_lower_input(
            module.cells@,
            nets@,
            pimap@,
            fanins_of(old(nodes)@),
            bit,
            fuel as nat,
        ) == Result::<(Seq<(AIGRef, AIGRef)>, AIGRef), AigError>::Ok(
            (fanins_of(final(nodes)@), a),
        ) && res_ok(a, final(nodes)@.len() as int, npis)),
    decreases fuel, 0int,
{
    match alook_get(nets, bit) {
        Option::None => Result::Err(AigError::UndrivenNet),
        Option::Some(a) => {
            if a.input {
                match alook_get(pimap, bit) {
                    Option::Some(pi) => {
                        proof {
                            lemma_alook_entry(pimap@, bit);
                        }
                        Result::Ok(AIGRef::new(pi, false, true))
                    },
                    Option::None => Result::Err(AigError::UndrivenNet),
                }
            } else {
                match a.driver {
                    Option::Some(ci) => {
                        if fuel == 0 {
                            Result::Err(AigError::CombinationalLoop)
                        } else {
                            proof {
                                lemma_alook_entry(nets@, bit);
                            }
                            process_cell(nodes, module, nets, pimap, ci, fuel - 1, Ghost(npis))
                        }
                    },
                    Option::None => Result::Err(AigError::UndrivenNet),
                }
            }
        },
    }
}

/// Lowers one two-input gate; see [`sp_two`].
fn two_input(
    nodes: &mut Vec<AIGNode>,
    module: &Module,
    nets: &Vec<(u64, NetAttrs)>,
    pimap: &Vec<(u64, usize)>,
    ci: usize,
    fuel: usize,
    ia: bool,
    ib: bool,
    io: bool,
    Ghost(npis): Ghost<int>,
) -> (r: Result<AIGRef, AigError>)
    requires
        ci < module.cells@.len(),
        nets_ok(nets@, module.cells@.len() as int),
        pimap_ok(pimap@, npis),
        nodes_wf_upto(old(nodes)@, npis),
        forall|j: int| 0 <= j < old(nodes)@.len() ==> node_fresh(#[trigger] old(nodes)@[j]),
    ensures
        old(nodes)@.len() <= final(nodes)@.len(),
        forall|j: int| 0 <= j < old(nodes)@.len() ==> final(nodes)@[j] == old(nodes)@[j],
        nodes_wf_upto(final(nodes)@, npis),
        forall|j: int| 0 <= j < final(nodes)@.len() ==> node_fresh(#[trigger] final(nodes)@[j]),
        (r matches Result::Err(e) ==> sp_two(
            module.cells@,
            nets@,
            pimap@,
            fanins_of(old(nodes)@),
            ci as int,
            fuel as nat,
            ia,
            ib,
            io,
        ) == Result::<(Seq<(AIGRef, AIGRef)>, AIGRef), AigError>::Err(e)),
        (r matches Result::Ok(a) ==> sp_two(
            module.cells@,
            nets@,
            pimap@,
            fanins_of(old(nodes)@),
            ci as int,
            fuel as nat,
            ia,
            ib,
            io,
        ) == Result::<(Seq<(AIGRef, AIGRef)>, AIGRef), AigError>::Ok(
            (fanins_of(final(nodes)@), a),
        ) && res_ok(a, final(nodes)@.len() as int, npis)),
    decreases fuel, 1int,
{
    let a = match conn_bit_x(&module.cells[ci].conn_a) {
        Result::Ok(b0) => b0,
        Result::Err(e) => {
            return Result::Err(e);
        },
    };
    let b = match conn_bit_x(&module.cells[ci].conn_b) {
        Result::Ok(b0) => b0,
        Result::Err(e) => {
            return Result::Err(e);
        },
    };
    let ra = match process_input(nodes, module, nets, pimap, a, fuel, Ghost(npis)) {
        Result::Ok(r0) => r0,
        Result::Err(e) => {
            return Result::Err(e);
        },
    };
    let rb = match process_input(nodes, module, nets, pimap, b, fuel, Ghost(npis)) {
        Result::Ok(r0) => r0,
        Result::Err(e) => {
            return Result::Err(e);
        },
    };
    if nodes.len() as u64 >= 0x1_0000_0000_0000u64 {
        return Result::Err(AigError::CapacityExceeded);
    }
    let xa = if ia { ra.inv() } else { ra };
    let xb = if ib { rb.inv() } else { rb };
    let nref = add_and(nodes, xa, xb, module.cells[ci].name.as_str());
    let out = if io { nref.inv() } else { nref };
    Result::Ok(out)
}

/// Lowers an XOR or XNOR gate; see [`sp_xor`].
fn xor_gate(
    nodes: &mut Vec<AIGNode>,
    module: &Module,
    nets: &Vec<(u64, NetAttrs)>,
    pimap: &Vec<(u64, usize)>,
    ci: usize,
    fuel: usize,
    io: bool,
    Ghost(npis): Ghost<int>,
) -> (r: Result<AIGRef, AigError>)
    requires
        ci < module.cells@.len(),
        nets_ok(nets@, module.cells@.len() as int),
        pimap_ok(pimap@, npis),
        nodes_wf_upto(old(nodes)@, npis),
        forall|j: int| 0 <= j < old(nodes)@.len() ==> node_fresh(#[trigger] old(nodes)@[j]),
    ensures
        old(nodes)@.len() <= final(nodes)@.len(),
        forall|j: int| 0 <= j < old(nodes)@.len() ==> final(nodes)@[j] == old(nodes)@[j],
        nodes_wf_upto(final(nodes)@, npis),
        forall|j: int| 0 <= j < final(nodes)@.len() ==> node_fresh(#[trigger] final(nodes)@[j]),
        (r matches Result::Err(e) ==> sp_xor(
            module.cells@,
            nets@,
            pimap@,
            fanins_of(old(nodes)@),
            ci as int,
            fuel as nat,
            io,
        ) == Result::<(Seq<(AIGRef, AIGRef)>, AIGRef), AigError>::Err(e)),
        (r matches Result::Ok(a) ==> sp_xor(
            module.cells@,
            nets@,
            pimap@,
            fanins_of(old(nodes)@),
            ci as int,
            fuel as nat,
            io,
        ) == Result::<(Seq<(AIGRef, AIGRef)>, AIGRef), AigError>::Ok(
            (fanins_of(final(nodes)@), a),
        ) && res_ok(a, final(nodes)@.len() as int, npis)),
    decreases fuel, 1int,
{
    let a = match conn_bit_x(&module.cells[ci].conn_a) {
        Result::Ok(b0) => b0,
        Result::Err(e) => {
            return Result::Err(e);
        },
    };
    let b = match conn_bit_x(&module.cells[ci].conn_b) {
        Result::Ok(b0) => b0,
        Result::Err(e) => {
            return Result::Err(e);
        },
    };
    let ra = match process_input(nodes, module, nets, pimap, a, fuel, Ghost(npis)) {
        Result::Ok(r0) => r0,
        Result::Err(e) => {
            return Result::Err(e);
        },
    };
    let rb = match process_input(nodes, module, nets, pimap, b, fuel, Ghost(npis)) {
        Result::Ok(r0) => r0,
        Result::Err(e) => {
            return Result::Err(e);
        },
    };
    if nodes.len() as u64 >= 0x1_0000_0000_0000u64 - 2 {
        return Result::Err(AigError::CapacityExceeded);
    }
    let r1 = add_and(nodes, ra, rb.inv(), module.cells[ci].name.as_str());
    let r2 = add_and(nodes, ra.inv(), rb, module.cells[ci].name.as_str());
    let r3 = add_and(nodes, r1.inv(), r2.inv(), module.cells[ci].name.as_str());
    let out = if io { r3.inv() } else { r3 };
    Result::Ok(out)
}

/// Lowers one cell by its kind; see [`sp_lower_cell`].
fn process_cell(
    nodes: &mut Vec<AIGNode>,
    module: &Module,
    nets: &Vec<(u64, NetAttrs)>,
    pimap: &Vec<(u64, usize)>,
    ci: usize,
    fuel: usize,
    Ghost(npis): Ghost<int>,
) -> (r: Result<AIGRef, AigError>)
    requires
        ci < module.cells@.len(),
        nets_ok(nets@, module.cells@.len() as int),
        pimap_ok(pimap@, npis),
        nodes_wf_upto(old(nodes)@, npis),
        forall|j: int| 0 <= j < old(nodes)@.len() ==> node_fresh(#[trigger] old(nodes)@[j]),
    ensures
        old(nodes)@.len() <= final(nodes)@.len(),
        forall|j: int| 0 <= j < old(nodes)@.len() ==> final(nodes)@[j] == old(nodes)@[j],
        nodes_wf_upto(final(nodes)@, npis),
        forall|j: int| 0 <= j < final(nodes)@.len() ==> node_fresh(#[trigger] final(nodes)@[j]),
        (r matches Result::Err(e) ==> sp_lower_cell(
            module.cells@,
            nets@,
            pimap@,
            fanins_of(old(nodes)@),
            ci as int,
            fuel as nat,
        ) == Result::<(Seq<(AIGRef, AIGRef)>, AIGRef), AigError>::Err(e)),
        (r matches Result::Ok(a) ==> sp_lower_cell(
            module.cells@,
            nets@,
            pimap@,
            fanins_of(old(nodes)@),
            ci as int,
            fuel as nat,
        ) == Result::<(Seq<(AIGRef, AIGRef)>, AIGRef), AigError>::Ok(
            (fanins_of(final(nodes)@), a),
        ) && res_ok(a, final(nodes)@.len() as int, npis)),
    decreases fuel, 2int,
{
    match module.cells[ci].kind {
        CellKind::Buf => {
            match conn_bit_x(&module.cells[ci].conn_a) {
                Result::Err(e) => Result::Err(e),
                Result::Ok(a) => process_input(nodes, module, nets, pimap, a, fuel, Ghost(npis)),
            }
        },
        CellKind::Not => {
            match conn_bit_x(&module.cells[ci].conn_a) {
                Result::Err(e) => Result::Err(e),
                Result::Ok(a) => {
                    match process_input(nodes, module, nets, pimap, a, fuel, Ghost(npis)) {
                        Result::Err(e) => Result::Err(e),
                        Result::Ok(ra) => Result::Ok(ra.inv()),
                    }
                },
            }
        },
        CellKind::And => two_input(
            nodes,
            module,
            nets,
            pimap,
            ci,
            fuel,
            false,
            false,
            false,
            Ghost(npis),
        ),
        CellKind::Or => two_input(nodes, module, nets, pimap, ci, fuel, true, true, true, Ghost(npis)),
        CellKind::Nand => two_input(
            nodes,
            module,
            nets,
            pimap,
            ci,
            fuel,
            false,
            false,
            true,
            Ghost(npis),
        ),
        CellKind::Nor => two_input(nodes, module, nets, pimap, ci, fuel, true, true, false, Ghost(npis)),
        CellKind::AndNot => two_input(
            nodes,
            module,
            nets,
            pimap,
            ci,
            fuel,
            false,
            true,
            false,
            Ghost(npis),
        ),
        CellKind::OrNot => two_input(
            nodes,
            module,
            nets,
            pimap,
            ci,
            fuel,
            true,
            false,
            true,
            Ghost(npis),
        ),
        CellKind::Xor => xor_gate(nodes, module, nets, pimap, ci, fuel, true, Ghost(npis)),
        CellKind::Xnor => xor_gate(nodes, module, nets, pimap, ci, fuel, false, Ghost(npis)),
        CellKind::Other => Result::Err(AigError::UnsupportedCell),
    }
}

} // verus!

verus! {

/// The net table of a module: named nets first, then each cell registered
/// as driver of its `Y` net.
pub open spec fn sp_nets(m: Module) -> Result<Seq<(u64, NetAttrs)>, AigError> {
    match sp_netnames(m.netnames@, 0, Seq::empty()) {
        Result::Err(e) => Result::Err(e),
        Result::Ok(n1) => sp_cells(m.cells@, 0, n1),
    }
}

/// An `Option<usize>` read as the mathematical option the mirror carries.
pub open spec fn opt_int(o: Option<usize>) -> Option<int> {
    match o {
        Option::Some(t) => Option::Some(t as int),
        Option::None => Option::None,
    }
}

/// Finds the single top module, as [`sp_find_top`] prescribes.
fn find_top(ms: &Vec<Module>) -> (r: Result<usize, AigError>)
    ensures
        (r matches Result::Err(e) ==> sp_find_top(ms@, 0, Option::None) == Result::<
            int,
            AigError,
        >::Err(e)),
        (r matches Result::Ok(t) ==> sp_find_top(ms@, 0, Option::None) == Result::<
            int,
            AigError,
        >::Ok(t as int) && t < ms@.len()),
{
    let mut found: Option<usize> = None;
    let mut j: usize = 0;
    while j < ms.len()
        invariant
            j <= ms@.len(),
            sp_find_top(ms@, 0, Option::None) == sp_find_top(ms@, j as int, opt_int(found)),
            found matches Option::Some(t) ==> t < ms@.len(),
        decreases ms@.len() - j,
    {
        let is_top = match ms[j].top {
            Option::Some(n) => n != 0,
            Option::None => false,
        };
        if is_top {
            if found.is_some() {
                return Result::Err(AigError::TopModuleAmbiguous);
            }
            found = Some(j);
        }
        j = j + 1;
    }
    match found {
        Option::Some(t) => Result::Ok(t),
        Option::None => Result::Err(AigError::TopModuleMissing),
    }
}

/// Builds the net table of the module, as [`sp_nets`] prescribes.
fn build_nets(m: &Module) -> (r: Result<Vec<(u64, NetAttrs)>, AigError>)
    ensures
        (r matches Result::Err(e) ==> sp_nets(*m) == Result::<Seq<(u64, NetAttrs)>, AigError>::Err(
            e,
        )),
        (r matches Result::Ok(v) ==> sp_nets(*m) == Result::<Seq<(u64, NetAttrs)>, AigError>::Ok(
            v@,
        ) && nets_ok(v@, m.cells@.len() as int)),
{
    let mut nets: Vec<(u64, NetAttrs)> = Vec::new();
    let mut j: usize = 0;
    while j < m.netnames.len()
        invariant
            j <= m.netnames@.len(),
            sp_netnames(m.netnames@, 0, Seq::empty()) == sp_netnames(
                m.netnames@,
                j as int,
                nets@,
            ),
            forall|t: int| 0 <= t < nets@.len() ==> (#[trigger] nets@[t]).1.driver is None,
        decreases m.netnames@.len() - j,
    {
        let nn = &m.netnames[j];
        if nn.bits.len() != 1 {
            return Result::Err(AigError::WidthUnsupported);
        }
        match nn.bits[0] {
            Signal::Constant => {
                return Result::Err(AigError::ConstantNotSupported);
            },
            Signal::Net(b) => {
                nets.push((b, NetAttrs { driver: None, input: false }));
            },
        }
        j = j + 1;
    }
    let ghost n1 = nets@;
    let mut j2: usize = 0;
    while j2 < m.cells.len()
        invariant
            j2 <= m.cells@.len(),
            sp_netnames(m.netnames@, 0, Seq::empty()) == Result::<
                Seq<(u64, NetAttrs)>,
                AigError,
            >::Ok(n1),
            sp_cells(m.cells@, 0, n1) == sp_cells(m.cells@, j2 as int, nets@),
            nets_ok(nets@, j2 as int),
        decreases m.cells@.len() - j2,
    {
        let y = match conn_bit_x(&m.cells[j2].conn_y) {
            Result::Ok(y0) => y0,
            Result::Err(e) => {
                return Result::Err(e);
            },
        };
        match alook_get(&nets, y) {
            Option::Some(a) => {
                if a.driver.is_some() {
                    return Result::Err(AigError::DoubleDriver);
                }
                nets.push((y, NetAttrs { driver: Some(j2), input: a.input }));
            },
            Option::None => {
                nets.push((y, NetAttrs { driver: Some(j2), input: false }));
            },
        }
        j2 = j2 + 1;
    }
    Result::Ok(nets)
}

/// The input-port pass: PI registration and the net-to-PI map, as
/// [`sp_ports_in`] prescribes; also collects the PI display names.
fn ports_in_pass(m: &Module, nets_in: Vec<(u64, NetAttrs)>) -> (r: Result<
    (Vec<(u64, NetAttrs)>, Vec<(u64, usize)>, Vec<String>, Ghost<Seq<int>>),
    AigError,
>)
    requires
        nets_ok(nets_in@, m.cells@.len() as int),
    ensures
        (r matches Result::Err(e) ==> sp_ports_in(m.ports@, 0, nets_in@, Seq::empty(), Seq::empty())
            == Result::<(Seq<(u64, NetAttrs)>, Seq<(u64, usize)>, Seq<int>), AigError>::Err(e)),
        (r matches Result::Ok(v) ==> {
            &&& sp_ports_in(m.ports@, 0, nets_in@, Seq::empty(), Seq::empty()) == Result::<
                (Seq<(u64, NetAttrs)>, Seq<(u64, usize)>, Seq<int>),
                AigError,
            >::Ok((v.0@, v.1@, v.3@))
            &&& nets_ok(v.0@, m.cells@.len() as int)
            &&& pimap_ok(v.1@, v.2@.len() as int)
            &&& v.2@.len() == v.3@.len()
            &&& v.2@.len() <= 0x1_0000_0000_0000
            &&& forall|t: int|
                0 <= t < v.3@.len() ==> 0 <= #[trigger] v.3@[t] < m.ports@.len() && v.2@[t]@
                    == m.ports@[v.3@[t]].name@
        }),
{
    let mut nets = nets_in;
    let ghost nets0 = nets@;
    let mut pimap: Vec<(u64, usize)> = Vec::new();
    let mut pinames: Vec<String> = Vec::new();
    let ghost pis: Seq<int> = Seq::<int>::empty();
    let mut j: usize = 0;
    while j < m.ports.len()
        invariant
            j <= m.ports@.len(),
            nets0 == nets_in@,
            sp_ports_in(m.ports@, 0, nets0, Seq::empty(), Seq::empty()) == sp_ports_in(
                m.ports@,
                j as int,
                nets@,
                pimap@,
                pis,
            ),
            nets_ok(nets0, m.cells@.len() as int),
            nets_ok(nets@, m.cells@.len() as int),
            pimap_ok(pimap@, pinames@.len() as int),
            pinames@.len() == pis.len(),
            pinames@.len() <= 0x1_0000_0000_0000,
            forall|t: int|
                0 <= t < pis.len() ==> 0 <= #[trigger] pis[t] < m.ports@.len() && pinames@[t]@
                    == m.ports@[pis[t]].name@,
        decreases m.ports@.len() - j,
    {
        let p = &m.ports[j];
        if p.bits.len() != 1 {
            return Result::Err(AigError::WidthUnsupported);
        }
        match p.bits[0] {
            Signal::Constant => {
                return Result::Err(AigError::ConstantNotSupported);
            },
            Signal::Net(b) => {
                match p.direction {
                    PortDirection::InOut => {
                        return Result::Err(AigError::InoutNotSupported);
                    },
                    PortDirection::Output => {},
                    PortDirection::Input => {
                        let a = match alook_get(&nets, b) {
                            Option::Some(a0) => a0,
                            Option::None => NetAttrs { driver: None, input: false },
                        };
                        if a.driver.is_some() {
                            return Result::Err(AigError::DoubleDriver);
                        }
                        if pinames.len() as u64 >= 0x1_0000_0000_0000u64 {
                            return Result::Err(AigError::CapacityExceeded);
                        }
                        nets.push((b, NetAttrs { driver: None, input: true }));
                        pimap.push((b, pinames.len()));
                        pinames.push(p.name.clone());
                        proof {
                            pis = pis.push(j as int);
                        }
                    },
                }
            },
        }
        j = j + 1;
    }
    proof {
        assert(sp_ports_in(m.ports@, m.ports@.len() as int, nets@, pimap@, pis) == Result::<
            (Seq<(u64, NetAttrs)>, Seq<(u64, usize)>, Seq<int>),
            AigError,
        >::Ok((nets@, pimap@, pis)));
    }
    Result::Ok((nets, pimap, pinames, Ghost(pis)))
}

/// The built AIG corresponds to the mirror's lowering of module `m`: the
/// same fan-in structure, the PI and PO tables named after the ports the
/// mirror selected, an empty topological order, and untouched annotations.
pub open spec fn aig_matches(
    aig: AIG,
    m: Module,
    g: (Seq<(AIGRef, AIGRef)>, Seq<int>, Seq<(int, AIGRef)>),
) -> bool {
    &&& fanins_of(aig.nodes@) == g.0
    &&& aig.pi@.len() == g.1.len()
    &&& forall|t: int|
        0 <= t < g.1.len() ==> 0 <= #[trigger] g.1[t] < m.ports@.len() && aig.pi@[t]@
            == m.ports@[g.1[t]].name@
    &&& aig.po@.len() == g.2.len()
    &&& forall|t: int|
        0 <= t < g.2.len() ==> 0 <= (#[trigger] g.2[t]).0 < m.ports@.len() && aig.po@[t].1
            == g.2[t].1 && aig.po@[t].0@ == m.ports@[g.2[t].0].name@
    &&& aig.topo_order@.len() == 0
    &&& forall|j: int| 0 <= j < aig.nodes@.len() ==> node_fresh(#[trigger] aig.nodes@[j])
}

impl AIG {
    /// Lowers a netlist into an AIG: the single top module's gates become
    /// AND nodes with polarity-encoded edges, its input ports the PI table
    /// and its output ports the PO table. The result is exactly what the
    /// mirror [`sp_parse`] prescribes — the same netlist always gives the
    /// same graph — and it is structurally well-formed.
    pub fn parse_netlist(netlist: Netlist) -> (r: Result<AIG, AigError>)
        ensures
            (r matches Result::Err(e) ==> sp_parse(netlist) == Result::<
                (Seq<(AIGRef, AIGRef)>, Seq<int>, Seq<(int, AIGRef)>),
                AigError,
            >::Err(e)),
            (r matches Result::Ok(aig) ==> {
                &&& sp_parse(netlist) is Ok
                &&& sp_find_top(netlist.modules@, 0, Option::None) is Ok
                &&& aig_matches(
                    aig,
                    netlist.modules@[sp_find_top(netlist.modules@, 0, Option::None)->Ok_0],
                    sp_parse(netlist)->Ok_0,
                )
                &&& aig.wf()
            }),
    {
        let t = match find_top(&netlist.modules) {
            Result::Ok(t0) => t0,
            Result::Err(e) => {
                return Result::Err(e);
            },
        };
        let m = &netlist.modules[t];
        let nets2 = match build_nets(m) {
            Result::Ok(v) => v,
            Result::Err(e) => {
                return Result::Err(e);
            },
        };
        let ghost nets2v = nets2@;
        let (nets3, pimap, pinames, Ghost(pis)) = match ports_in_pass(m, nets2) {
            Result::Ok(v) => v,
            Result::Err(e) => {
                return Result::Err(e);
            },
        };
        let ghost npis = pinames@.len() as int;
        if m.cells.len() == usize::MAX {
            return Result::Err(AigError::CapacityExceeded);
        }
        let fuel = m.cells.len() + 1;
        let mut nodes: Vec<AIGNode> = Vec::new();
        let mut po: Vec<(String, AIGRef)> = Vec::new();
        let ghost pos: Seq<(int, AIGRef)> = Seq::<(int, AIGRef)>::empty();
        proof {
            assert(fanins_of(nodes@) =~= Seq::<(AIGRef, AIGRef)>::empty());
        }
        let mut j: usize = 0;
        while j < m.ports.len()
            invariant
                j <= m.ports@.len(),
                t < netlist.modules@.len(),
                sp_find_top(netlist.modules@, 0, Option::None) == Result::<int, AigError>::Ok(
                    t as int,
                ),
                *m == netlist.modules@[t as int],
                sp_nets(*m) == Result::<Seq<(u64, NetAttrs)>, AigError>::Ok(nets2v),
                sp_ports_in(m.ports@, 0, nets2v, Seq::empty(), Seq::empty()) == Result::<
                    (Seq<(u64, NetAttrs)>, Seq<(u64, usize)>, Seq<int>),
                    AigError,
                >::Ok((nets3@, pimap@, pis)),
                m.cells@.len() + 1 <= usize::MAX,
                nets_ok(nets3@, m.cells@.len() as int),
                pimap_ok(pimap@, npis),
                npis == pinames@.len() as int,
                fuel == m.cells@.len() + 1,
                sp_outputs(
                    m.ports@,
                    m.cells@,
                    nets3@,
                    pimap@,
                    0,
                    Seq::empty(),
                    Seq::empty(),
                    fuel as nat,
                ) == sp_outputs(
                    m.ports@,
                    m.cells@,
                    nets3@,
                    pimap@,
                    j as int,
                    fanins_of(nodes@),
                    pos,
                    fuel as nat,
                ),
                nodes_wf_upto(nodes@, npis),
                forall|x: int| 0 <= x < nodes@.len() ==> node_fresh(#[trigger] nodes@[x]),
                po@.len() == pos.len(),
                forall|t: int|
                    0 <= t < pos.len() ==> 0 <= (#[trigger] pos[t]).0 < m.ports@.len()
                        && po@[t].1 == pos[t].1 && po@[t].0@ == m.ports@[pos[t].0].name@
                        && res_ok(pos[t].1, nodes@.len() as int, npis),
            decreases m.ports@.len() - j,
        {
            let p_bits_len = m.ports[j].bits.len();
            if p_bits_len != 1 {
                return Result::Err(AigError::WidthUnsupported);
            }
            match m.ports[j].bits[0] {
                Signal::Constant => {
                    return Result::Err(AigError::ConstantNotSupported);
                },
                Signal::Net(b) => {
                    let is_out = match m.ports[j].direction {
                        PortDirection::Output => true,
                        _ => false,
                    };
                    if is_out {
                        let a = match alook_get(&nets3, b) {
                            Option::Some(a0) => a0,
                            Option::None => {
                                return Result::Err(AigError::UndrivenNet);
                            },
                        };
                        if a.input {
                            return Result::Err(AigError::UndrivenNet);
                        }
                        let ci = match a.driver {
                            Option::Some(c0) => c0,
                            Option::None => {
                                return Result::Err(AigError::UndrivenNet);
                            },
                        };
                        proof {
                            lemma_alook_entry(nets3@, b);
                        }
                        let rref = match process_cell(
                            &mut nodes,
                            m,
                            &nets3,
                            &pimap,
                            ci,
                            fuel,
                            Ghost(npis),
                        ) {
                            Result::Ok(r0) => r0,
                            Result::Err(e) => {
                                return Result::Err(e);
                            },
                        };
                        po.push((m.ports[j].name.clone(), rref));
                        proof {
                            pos = pos.push((j as int, rref));
                        }
                    }
                },
            }
            j = j + 1;
        }
        let aig = AIG { nodes, pi: pinames, po, topo_order: Vec::new() };
        proof {
            assert(sp_outputs(
                m.ports@,
                m.cells@,
                nets3@,
                pimap@,
                m.ports@.len() as int,
                fanins_of(aig.nodes@),
                pos,
                fuel as nat,
            ) == Result::<(Seq<(AIGRef, AIGRef)>, Seq<(int, AIGRef)>), AigError>::Ok(
                (fanins_of(aig.nodes@), pos),
            ));
            assert(sp_module(netlist.modules@[t as int]) == Result::<
                (Seq<(AIGRef, AIGRef)>, Seq<int>, Seq<(int, AIGRef)>),
                AigError,
            >::Ok((fanins_of(aig.nodes@), pis, pos)));
            assert(aig.wf()) by {
                assert forall|x: int|
                    0 <= x < aig.po@.len() implies crate::aig::ref_ok(
                    #[trigger] aig.po@[x].1,
                    aig.nodes@.len() as int,
                    aig.pi@.len() as int,
                ) by {
                    assert(res_ok(pos[x].1, aig.nodes@.len() as int, npis));
                }
            }
        }
        Result::Ok(aig)
    }
}

} // verus!
