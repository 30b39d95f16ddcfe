use mpz_ts::bristol::{BristolCircuit, CircuitInfo, ConstantInfo, Gate};
use mpz_ts::circuit::{CircuitEvalError, CircuitNode, WordKind};
use mpz_ts::value::Value;
use mpz_ts::error::MpzTsError;
use mpz_ts::mpz_circuit_from_bristol::{check_wire_ranges, mpz_circuit_from_bristol};

fn named(entries: &[(&str, usize)]) -> Vec<(String, usize)> {
    entries.iter().map(|(n, w)| (n.to_string(), *w)).collect()
}

fn gate(inputs: &[usize], outputs: &[usize], op: &str) -> Gate {
    Gate { inputs: inputs.to_vec(), outputs: outputs.to_vec(), op: op.to_string() }
}

fn circuit(
    widths: Option<(Vec<usize>, Vec<usize>)>,
    inputs: &[(&str, usize)],
    outputs: &[(&str, usize)],
    gates: Vec<Gate>,
) -> BristolCircuit {
    BristolCircuit {
        io_widths: widths,
        info: CircuitInfo {
            input_name_to_wire_index: named(inputs),
            constants: Vec::new(),
            output_name_to_wire_index: named(outputs),
        },
        gates,
    }
}

fn make_a_plus_b() -> BristolCircuit {
    // "1 3 / 2 1 1 / 1 1 / 2 1 0 1 2 AAdd" with a at wire 0, b at wire 1, c at wire 2.
    circuit(
        Some((vec![1, 1], vec![1])),
        &[("a", 0), ("b", 1)],
        &[("c", 2)],
        vec![gate(&[0, 1], &[2], "AAdd")],
    )
}

#[test]
fn test_mpz_circuit_from_bristol() {
    let circuit = make_a_plus_b();
    let mpz_circuit = mpz_circuit_from_bristol(&circuit).unwrap().circuit;

    let output = mpz_circuit.evaluate(&vec![Value::U32(3), Value::U32(5)]).unwrap();

    assert_eq!(output, vec![Value::U32(8)]);
}

#[test]
fn word_addition_wraps() {
    let c = mpz_circuit_from_bristol(&make_a_plus_b()).unwrap();
    assert_eq!(c.circuit.word, WordKind::U32);
    assert_eq!(c.circuit.evaluate(&vec![Value::U32(u32::MAX), Value::U32(2)]).unwrap(), vec![Value::U32(1)]);
}

#[test]
fn word_circuit_bitwise_gates() {
    let c = circuit(
        Some((vec![1, 1], vec![1, 1, 1, 1])),
        &[("x", 0), ("y", 1)],
        &[("s", 2), ("a", 3), ("o", 4), ("n", 5)],
        vec![
            gate(&[0, 1], &[2], "AAdd"),
            gate(&[0, 1], &[3], "AND"),
            gate(&[0, 1], &[4], "XOR"),
            gate(&[0], &[5], "NOT"),
        ],
    );
    let a = mpz_circuit_from_bristol(&c).unwrap();
    let out = a.circuit.evaluate(&vec![Value::U32(0b1100), Value::U32(0b1010)]).unwrap();
    assert_eq!(out, vec![Value::U32(22), Value::U32(0b1000), Value::U32(0b0110), Value::U32(!0b1100u32)]);
}

#[test]
fn evaluation_checks_inputs() {
    let a = mpz_circuit_from_bristol(&make_a_plus_b()).unwrap().circuit;
    assert_eq!(a.evaluate(&vec![Value::U32(3)]), Err(CircuitEvalError::InputCountMismatch));
    assert_eq!(
        a.evaluate(&vec![Value::U32(3), Value::Bit(true)]),
        Err(CircuitEvalError::InvalidInput { input: 1 })
    );
}

#[test]
fn bit_circuit_evaluates() {
    // a: 2 bits at wires 0..2, b: 2 bits at 2..4; out: (a0 AND b0, NOT a1).
    let c = circuit(
        Some((vec![2, 2], vec![2])),
        &[("a", 0), ("b", 2)],
        &[("out", 4)],
        vec![gate(&[0, 2], &[4], "AND"), gate(&[1], &[5], "NOT")],
    );
    let a = mpz_circuit_from_bristol(&c).unwrap().circuit;
    assert_eq!(a.word, WordKind::Bit);
    let bits = |b: &[bool]| Value::Array(b.iter().map(|x| Value::Bit(*x)).collect());
    let out = a.evaluate(&vec![bits(&[true, true]), bits(&[true, false])]).unwrap();
    assert_eq!(out, vec![bits(&[true, false])]);
    let out = a.evaluate(&vec![bits(&[false, false]), bits(&[true, true])]).unwrap();
    assert_eq!(out, vec![bits(&[false, true])]);
    assert_eq!(
        a.evaluate(&vec![bits(&[true]), bits(&[true, false])]),
        Err(CircuitEvalError::InvalidInput { input: 0 })
    );
}

#[test]
fn unsupported_arithmetic_op() {
    let c = circuit(Some((vec![1, 1], vec![1])), &[("a", 0), ("b", 1)], &[("c", 2)], vec![gate(&[0, 1], &[2], "AMul")]);
    assert_eq!(mpz_circuit_from_bristol(&c).unwrap_err(), MpzTsError::UnsupportedOp { op: "AMul".to_string() });
}

#[test]
fn and_of_two_bits() {
    let c = circuit(
        Some((vec![1, 1], vec![1])),
        &[("b", 1), ("a", 0)],
        &[("c", 2)],
        vec![gate(&[0, 1], &[2], "AND")],
    );
    let a = mpz_circuit_from_bristol(&c).unwrap();
    assert_eq!(a.inputs, named(&[("a", 1), ("b", 1)]));
    assert_eq!(a.outputs, named(&[("c", 1)]));
    assert_eq!(a.circuit.input_widths, vec![1, 1]);
    assert_eq!(
        a.circuit.nodes,
        vec![
            CircuitNode::Input { input: 0, bit: 0 },
            CircuitNode::Input { input: 1, bit: 0 },
            CircuitNode::And(0, 1),
        ]
    );
    assert_eq!(a.circuit.outputs, vec![vec![2]]);
}

#[test]
fn every_supported_gate() {
    // x: wires 0..2, y: wires 2..4; output z on wires 10..14.
    let c = circuit(
        Some((vec![2, 2], vec![4])),
        &[("x", 0), ("y", 2)],
        &[("z", 10)],
        vec![
            gate(&[0, 2], &[10], "XOR"),
            gate(&[1, 3], &[11], "OR"),
            gate(&[10], &[12], "NOT"),
            gate(&[11], &[13], "COPY"),
        ],
    );
    let a = mpz_circuit_from_bristol(&c).unwrap();
    assert_eq!(
        a.circuit.nodes,
        vec![
            CircuitNode::Input { input: 0, bit: 0 },
            CircuitNode::Input { input: 0, bit: 1 },
            CircuitNode::Input { input: 1, bit: 0 },
            CircuitNode::Input { input: 1, bit: 1 },
            CircuitNode::Xor(0, 2),
            CircuitNode::Or(1, 3),
            CircuitNode::Not(4),
        ]
    );
    assert_eq!(a.circuit.outputs, vec![vec![4, 5, 6, 5]]);
}

#[test]
fn a_later_gate_overrides_a_wire() {
    let c = circuit(
        Some((vec![1], vec![1])),
        &[("x", 0)],
        &[("y", 1)],
        vec![gate(&[0], &[1], "COPY"), gate(&[0], &[1], "NOT")],
    );
    let a = mpz_circuit_from_bristol(&c).unwrap();
    assert_eq!(a.circuit.outputs, vec![vec![1]]);
    assert_eq!(a.circuit.nodes[1], CircuitNode::Not(0));
}

#[test]
fn no_io_widths_is_arithmetic() {
    let c = circuit(None, &[("a", 0)], &[("c", 1)], vec![]);
    assert_eq!(mpz_circuit_from_bristol(&c).unwrap_err(), MpzTsError::ArithmeticCircuitNotSupported);
}

#[test]
fn constants_are_arithmetic() {
    let mut c = circuit(Some((vec![1], vec![1])), &[("a", 0)], &[("c", 0)], vec![]);
    c.info.constants.push(("k".to_string(), ConstantInfo { value: "3".to_string(), wire_index: 5 }));
    assert_eq!(mpz_circuit_from_bristol(&c).unwrap_err(), MpzTsError::ArithmeticCircuitNotSupported);
}

#[test]
fn input_count_mismatch() {
    let c = circuit(Some((vec![1, 1], vec![1])), &[("a", 0)], &[("c", 0)], vec![]);
    assert_eq!(mpz_circuit_from_bristol(&c).unwrap_err(), MpzTsError::IoMismatch);
}

#[test]
fn output_count_mismatch() {
    let c = circuit(Some((vec![1], vec![1, 1])), &[("a", 0)], &[("c", 0)], vec![]);
    assert_eq!(mpz_circuit_from_bristol(&c).unwrap_err(), MpzTsError::IoMismatch);
}

fn invalid(g: Gate, message: &str) -> MpzTsError {
    MpzTsError::InvalidGate { gate: g, message: message.to_string() }
}

#[test]
fn binary_gate_needs_two_inputs() {
    let g = gate(&[0], &[1], "AND");
    let c = circuit(Some((vec![1], vec![1])), &[("a", 0)], &[("c", 1)], vec![g.clone()]);
    assert_eq!(mpz_circuit_from_bristol(&c).unwrap_err(), invalid(g, "Binary gate must have exactly 2 inputs"));
}

#[test]
fn binary_gate_needs_one_output() {
    let g = gate(&[0, 0], &[1, 2], "XOR");
    let c = circuit(Some((vec![1], vec![1])), &[("a", 0)], &[("c", 1)], vec![g.clone()]);
    assert_eq!(mpz_circuit_from_bristol(&c).unwrap_err(), invalid(g, "Binary gate must have exactly 1 output"));
}

#[test]
fn binary_gate_first_input_must_exist() {
    let g = gate(&[7, 0], &[1], "OR");
    let c = circuit(Some((vec![1], vec![1])), &[("a", 0)], &[("c", 1)], vec![g.clone()]);
    assert_eq!(mpz_circuit_from_bristol(&c).unwrap_err(), invalid(g, "Input wire not found"));
}

#[test]
fn binary_gate_second_input_must_exist() {
    let g = gate(&[0, 7], &[1], "AND");
    let c = circuit(Some((vec![1], vec![1])), &[("a", 0)], &[("c", 1)], vec![g.clone()]);
    assert_eq!(mpz_circuit_from_bristol(&c).unwrap_err(), invalid(g, "Output wire not found"));
}

#[test]
fn unary_gate_needs_one_input() {
    let g = gate(&[0, 0], &[1], "NOT");
    let c = circuit(Some((vec![1], vec![1])), &[("a", 0)], &[("c", 1)], vec![g.clone()]);
    assert_eq!(mpz_circuit_from_bristol(&c).unwrap_err(), invalid(g, "Unary gate must have exactly 1 input"));
}

#[test]
fn unary_gate_needs_one_output() {
    let g = gate(&[0], &[], "COPY");
    let c = circuit(Some((vec![1], vec![1])), &[("a", 0)], &[("c", 1)], vec![g.clone()]);
    assert_eq!(mpz_circuit_from_bristol(&c).unwrap_err(), invalid(g, "Unary gate must have exactly 1 output"));
}

#[test]
fn unary_gate_input_must_exist() {
    let g = gate(&[3], &[1], "NOT");
    let c = circuit(Some((vec![1], vec![1])), &[("a", 0)], &[("c", 1)], vec![g.clone()]);
    assert_eq!(mpz_circuit_from_bristol(&c).unwrap_err(), invalid(g, "Input wire not found"));
}

#[test]
fn first_failing_gate_wins() {
    let c = circuit(
        Some((vec![1], vec![1])),
        &[("a", 0)],
        &[("c", 1)],
        vec![gate(&[0], &[1], "NAND"), gate(&[9], &[1], "NOT")],
    );
    assert_eq!(
        mpz_circuit_from_bristol(&c).unwrap_err(),
        MpzTsError::UnsupportedOp { op: "NAND".to_string() }
    );
}

#[test]
fn missing_output_wire() {
    let c = circuit(Some((vec![2], vec![2])), &[("a", 0)], &[("c", 1)], vec![]);
    assert_eq!(mpz_circuit_from_bristol(&c).unwrap_err(), MpzTsError::OutputWireNotFound { wire_index: 2 });
}

#[test]
fn output_may_read_input_wires() {
    let c = circuit(Some((vec![3], vec![2])), &[("a", 0)], &[("c", 1)], vec![]);
    let a = mpz_circuit_from_bristol(&c).unwrap();
    assert_eq!(a.circuit.outputs, vec![vec![1, 2]]);
}

#[test]
fn wire_ranges_are_checked() {
    let fits = circuit(Some((vec![1], vec![1])), &[("a", 0)], &[("c", 1)], vec![]);
    assert!(check_wire_ranges(&fits));
    let overflows = circuit(Some((vec![2], vec![1])), &[("a", usize::MAX)], &[("c", 1)], vec![]);
    assert!(!check_wire_ranges(&overflows));
    // The count check comes first: no wire index is computed.
    let mismatched = circuit(Some((vec![2, 1], vec![1])), &[("a", usize::MAX)], &[("c", 1)], vec![]);
    assert!(check_wire_ranges(&mismatched));
    assert_eq!(mpz_circuit_from_bristol(&mismatched).unwrap_err(), MpzTsError::IoMismatch);
    // Constants come first too.
    let mut with_constant = circuit(Some((vec![2], vec![1])), &[("a", usize::MAX)], &[("c", 1)], vec![]);
    with_constant.info.constants.push(("k".to_string(), ConstantInfo { value: "1".to_string(), wire_index: 0 }));
    assert!(check_wire_ranges(&with_constant));
    assert_eq!(mpz_circuit_from_bristol(&with_constant).unwrap_err(), MpzTsError::ArithmeticCircuitNotSupported);
    // An output stops at its first missing wire, before its range would overflow.
    let missing_first = circuit(Some((vec![1], vec![3])), &[("a", 0)], &[("c", usize::MAX - 1)], vec![]);
    assert!(check_wire_ranges(&missing_first));
    assert_eq!(
        mpz_circuit_from_bristol(&missing_first).unwrap_err(),
        MpzTsError::OutputWireNotFound { wire_index: usize::MAX - 1 }
    );
    // A failing gate comes before any output wire index.
    let bad_gate = circuit(Some((vec![1], vec![3])), &[("a", 0)], &[("c", usize::MAX)], vec![gate(&[0], &[1], "NAND")]);
    assert!(check_wire_ranges(&bad_gate));
    // An output whose driven wires run past usize::MAX.
    let overflow_out = circuit(
        Some((vec![1], vec![2])),
        &[("a", usize::MAX)],
        &[("c", usize::MAX)],
        vec![],
    );
    assert!(!check_wire_ranges(&overflow_out));
}

#[test]
fn listing_order_of_names_does_not_matter() {
    let gates = || vec![gate(&[0, 1], &[3], "XOR"), gate(&[3, 2], &[4], "AND")];
    let one = circuit(Some((vec![1, 1, 1], vec![1, 1])), &[("a", 0), ("b", 1), ("c", 2)], &[("x", 3), ("y", 4)], gates());
    let two = circuit(Some((vec![1, 1, 1], vec![1, 1])), &[("c", 2), ("a", 0), ("b", 1)], &[("y", 4), ("x", 3)], gates());
    let r1 = mpz_circuit_from_bristol(&one).unwrap();
    let r2 = mpz_circuit_from_bristol(&two).unwrap();
    assert_eq!(r1, r2);
    assert_eq!(r1.outputs, named(&[("x", 1), ("y", 1)]));
    assert_eq!(r1.circuit.outputs, vec![vec![3], vec![4]]);
}

#[test]
fn later_input_overrides_shared_wires() {
    // "a" covers wires 0..2, "b" starts at wire 1 and overrides it.
    let c = circuit(Some((vec![2, 2], vec![3])), &[("a", 0), ("b", 1)], &[("o", 0)], vec![]);
    let r = mpz_circuit_from_bristol(&c).unwrap();
    assert_eq!(r.circuit.outputs, vec![vec![0, 2, 3]]);
    assert_eq!(r.circuit.nodes[2], CircuitNode::Input { input: 1, bit: 0 });
}
