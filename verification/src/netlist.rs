//! The netlist model the lowering consumes: one bit per signal,
//! named single-bit nets and ports, and cells drawn from a small two-input
//! gate library, plus the error kinds the pipeline reports.

use vstd::prelude::*;

verus! {

/// A single bit of a signal: a numbered net, or a constant bit, which this
/// flow rejects.
#[derive(Copy, Clone, PartialEq, Eq, Structural, Debug)]
pub enum Signal {
    Net(u64),
    Constant,
}

/// Direction of a module port.
#[derive(Copy, Clone, PartialEq, Eq, Structural, Debug)]
pub enum PortDirection {
    Input,
    Output,
    InOut,
}

/// The cell library of the lowering; `Other` stands for any unknown cell
/// type and is rejected when reached.
#[derive(Copy, Clone, PartialEq, Eq, Structural, Debug)]
pub enum CellKind {
    Buf,
    Not,
    And,
    Or,
    Nand,
    Nor,
    Xor,
    Xnor,
    AndNot,
    OrNot,
    Other,
}

/// A module port: a name, a direction and its bits (exactly one is
/// accepted).
#[derive(Clone, Debug)]
pub struct Port {
    pub name: String,
    pub direction: PortDirection,
    pub bits: Vec<Signal>,
}

/// A cell instance: its name, its kind and its `A`, `B` and `Y` connections
/// where present.
#[derive(Clone, Debug)]
pub struct Cell {
    pub name: String,
    pub kind: CellKind,
    pub conn_a: Option<Vec<Signal>>,
    pub conn_b: Option<Vec<Signal>>,
    pub conn_y: Option<Vec<Signal>>,
}

/// A named net and its bits (exactly one is accepted).
#[derive(Clone, Debug)]
pub struct NetName {
    pub name: String,
    pub bits: Vec<Signal>,
}

/// A module: the value of its `top` attribute where that is numeric, and
/// its ports, cells and named nets.
#[derive(Clone, Debug)]
pub struct Module {
    pub name: String,
    pub top: Option<u64>,
    pub ports: Vec<Port>,
    pub cells: Vec<Cell>,
    pub netnames: Vec<NetName>,
}

/// A whole netlist: its modules, in a fixed order.
#[derive(Clone, Debug)]
pub struct Netlist {
    pub modules: Vec<Module>,
}

/// Everything that can go wrong between a netlist and an annotated AIG.
#[derive(Copy, Clone, PartialEq, Eq, Structural, Debug)]
pub enum AigError {
    /// No module carries a nonzero numeric `top` attribute.
    TopModuleMissing,
    /// More than one module claims to be top.
    TopModuleAmbiguous,
    /// A bit vector of width other than one.
    WidthUnsupported,
    /// A constant bit where a numbered net is needed.
    ConstantNotSupported,
    /// A cell type outside the cell library.
    UnsupportedCell,
    /// A cell missing its `A`, `B` or `Y` connection.
    MalformedCell,
    /// Two drivers on one net.
    DoubleDriver,
    /// A net without a driver reached from a primary output.
    UndrivenNet,
    /// An inout port.
    InoutNotSupported,
    /// The cell graph loops back on itself, so lowering cannot finish.
    CombinationalLoop,
    /// More slots than an edge handle's index field can address.
    CapacityExceeded,
}

} // verus!
