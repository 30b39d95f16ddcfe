//! The parts of a parsed Bristol-format circuit that the conversion reads.

use vstd::prelude::*;

verus! {

/// One gate of a Bristol circuit: the wires it reads, the wires it drives and
/// the name of its operation.
#[derive(Debug, PartialEq, Eq)]
pub struct Gate {
    pub inputs: Vec<usize>,
    pub outputs: Vec<usize>,
    pub op: String,
}

/// The mathematical content of a [`Gate`].
pub struct GateView {
    pub inputs: Seq<usize>,
    pub outputs: Seq<usize>,
    pub op: Seq<char>,
}

impl View for Gate {
    type V = GateView;

    open spec fn view(&self) -> GateView {
        GateView { inputs: self.inputs@, outputs: self.outputs@, op: self.op@ }
    }
}

pub(crate) fn copy_wires(wires: &Vec<usize>) -> (res: Vec<usize>)
    ensures
        res@ == wires@,
{
    let mut res: Vec<usize> = Vec::new();
    let mut i: usize = 0;
    while i < wires.len()
        invariant
            i <= wires@.len(),
            res@ == wires@.take(i as int),
        decreases wires@.len() - i,
    {
        res.push(wires[i]);
        i = i + 1;
        assert(res@ =~= wires@.take(i as int));
    }
    assert(wires@.take(wires@.len() as int) =~= wires@);
    res
}

impl Clone for Gate {
    fn clone(&self) -> (res: Self)
        ensures
            res@ == self@,
    {
        Gate { inputs: copy_wires(&self.inputs), outputs: copy_wires(&self.outputs), op: self.op.clone() }
    }
}

/// The value of a constant of an arithmetic circuit and the wire it drives.
#[derive(Debug, PartialEq, Eq)]
pub struct ConstantInfo {
    pub value: String,
    pub wire_index: usize,
}

/// The names of a circuit's inputs and outputs, each with the first wire of
/// its bits, and the circuit's named constants.
#[derive(Debug, PartialEq, Eq)]
pub struct CircuitInfo {
    pub input_name_to_wire_index: Vec<(String, usize)>,
    pub constants: Vec<(String, ConstantInfo)>,
    pub output_name_to_wire_index: Vec<(String, usize)>,
}

/// A parsed Bristol-format circuit.
#[derive(Debug, PartialEq, Eq)]
pub struct BristolCircuit {
    /// The bit width of each input and of each output, where the header gives
    /// them.
    pub io_widths: Option<(Vec<usize>, Vec<usize>)>,
    pub info: CircuitInfo,
    pub gates: Vec<Gate>,
}

/// A name paired with a wire index or a width, as plain values.
pub open spec fn entries_view(entries: Seq<(String, usize)>) -> Seq<(Seq<char>, usize)> {
    entries.map_values(|e: (String, usize)| (e.0@, e.1))
}

/// The mathematical content of a [`BristolCircuit`].
pub struct BristolCircuitView {
    pub io_widths: Option<(Seq<usize>, Seq<usize>)>,
    pub inputs: Seq<(Seq<char>, usize)>,
    pub constant_count: nat,
    pub outputs: Seq<(Seq<char>, usize)>,
    pub gates: Seq<GateView>,
}

impl View for BristolCircuit {
    type V = BristolCircuitView;

    open spec fn view(&self) -> BristolCircuitView {
        BristolCircuitView {
            io_widths: match self.io_widths {
                Some((i, o)) => Some((i@, o@)),
                None => None,
            },
            inputs: entries_view(self.info.input_name_to_wire_index@),
            constant_count: self.info.constants@.len(),
            outputs: entries_view(self.info.output_name_to_wire_index@),
            gates: self.gates@.map_values(|g: Gate| g@),
        }
    }
}

/// The operations a Bristol circuit may use: the Boolean ones, and the
/// arithmetic addition of 32-bit words.
#[derive(Clone, Copy, PartialEq, Eq, Structural, Debug)]
pub enum GateOp {
    And,
    Xor,
    Or,
    Not,
    Copy,
    Add,
}

/// The operation a gate's name stands for, if it is a supported one.
pub open spec fn gate_op(op: Seq<char>) -> Option<GateOp> {
    if op == "AND"@ {
        Some(GateOp::And)
    } else if op == "XOR"@ {
        Some(GateOp::Xor)
    } else if op == "OR"@ {
        Some(GateOp::Or)
    } else if op == "NOT"@ {
        Some(GateOp::Not)
    } else if op == "COPY"@ {
        Some(GateOp::Copy)
    } else if op == "AAdd"@ {
        Some(GateOp::Add)
    } else {
        None
    }
}

/// AND, XOR, OR and AAdd read two wires; NOT and COPY read one.
pub open spec fn is_binary(op: GateOp) -> bool {
    op == GateOp::And || op == GateOp::Xor || op == GateOp::Or || op == GateOp::Add
}

/// Classifies a gate's operation name.
pub fn classify_op(op: &String) -> (res: Option<GateOp>)
    ensures
        res == gate_op(op@),
{
    if *op == "AND".to_owned() {
        Some(GateOp::And)
    } else if *op == "XOR".to_owned() {
        Some(GateOp::Xor)
    } else if *op == "OR".to_owned() {
        Some(GateOp::Or)
    } else if *op == "NOT".to_owned() {
        Some(GateOp::Not)
    } else if *op == "COPY".to_owned() {
        Some(GateOp::Copy)
    } else if *op == "AAdd".to_owned() {
        Some(GateOp::Add)
    } else {
        None
    }
}

} // verus!
