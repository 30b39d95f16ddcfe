//! Errors reported while turning a Bristol circuit into a [`crate::circuit::Circuit`].

use vstd::prelude::*;
use crate::bristol::{Gate, GateView};

verus! {

/// Why a circuit could not be converted, or a value could not be read.
#[derive(Debug, PartialEq, Eq)]
pub enum MpzTsError {
    /// The circuit gives no input/output widths, or it carries constants:
    /// such arithmetic circuits are not accepted.
    ArithmeticCircuitNotSupported,
    /// The number of named inputs (or outputs) differs from the number of
    /// input (or output) widths.
    IoMismatch,
    /// A gate names an operation other than AND, XOR, OR, NOT and COPY.
    UnsupportedOp { op: String },
    /// A gate has the wrong number of wires, or reads a wire nothing drives.
    InvalidGate { gate: Gate, message: String },
    /// An output bit reads a wire nothing drives.
    OutputWireNotFound { wire_index: usize },
    /// A value of a kind that cannot be handed back to the caller.
    UnexpectedMpzValue,
}

/// The mathematical content of an [`MpzTsError`].
pub enum MpzTsErrorView {
    ArithmeticCircuitNotSupported,
    IoMismatch,
    UnsupportedOp(Seq<char>),
    InvalidGate(GateView, Seq<char>),
    OutputWireNotFound(usize),
    UnexpectedMpzValue,
}

impl View for MpzTsError {
    type V = MpzTsErrorView;

    open spec fn view(&self) -> MpzTsErrorView {
        match self {
            MpzTsError::ArithmeticCircuitNotSupported => MpzTsErrorView::ArithmeticCircuitNotSupported,
            MpzTsError::IoMismatch => MpzTsErrorView::IoMismatch,
            MpzTsError::UnsupportedOp { op } => MpzTsErrorView::UnsupportedOp(op@),
            MpzTsError::InvalidGate { gate, message } => MpzTsErrorView::InvalidGate(gate@, message@),
            MpzTsError::OutputWireNotFound { wire_index } => MpzTsErrorView::OutputWireNotFound(*wire_index),
            MpzTsError::UnexpectedMpzValue => MpzTsErrorView::UnexpectedMpzValue,
        }
    }
}

} // verus!
