//! A circuit as a list of nodes, each an input word or a gate over earlier
//! nodes, with the symbolic meaning of every node and its evaluation.

use vstd::prelude::*;
use crate::value::{Value, bit_value};

verus! {

/// What every wire of a circuit carries: a single bit, or a 32-bit word.
#[derive(Clone, Copy, PartialEq, Eq, Structural, Debug)]
pub enum WordKind {
    Bit,
    U32,
}

/// One node of a [`Circuit`]. Gate nodes name the nodes they read by their
/// position in the node list.
#[derive(Clone, Copy, PartialEq, Eq, Structural, Debug)]
pub enum CircuitNode {
    /// Word `bit` (counting from the most significant one) of input `input`.
    Input { input: usize, bit: usize },
    And(usize, usize),
    Xor(usize, usize),
    Or(usize, usize),
    Not(usize),
    /// Addition (of words, wrapping; of bits, modulo two).
    Add(usize, usize),
}

/// What a wire computes, as an expression over the input bits.
pub enum WireExpr {
    Input(usize, usize),
    And(Box<WireExpr>, Box<WireExpr>),
    Xor(Box<WireExpr>, Box<WireExpr>),
    Or(Box<WireExpr>, Box<WireExpr>),
    Not(Box<WireExpr>),
    Add(Box<WireExpr>, Box<WireExpr>),
}

/// A circuit: the kind of its wires, its inputs' widths, its nodes, and for
/// each output the nodes that give its words, most significant first.
#[derive(Debug, PartialEq, Eq)]
pub struct Circuit {
    pub word: WordKind,
    pub input_widths: Vec<usize>,
    pub nodes: Vec<CircuitNode>,
    pub outputs: Vec<Vec<usize>>,
}

/// The expression computed by `node`, where `prev` gives the expressions of
/// the nodes before it.
pub open spec fn node_expr(node: CircuitNode, prev: Seq<WireExpr>) -> WireExpr {
    match node {
        CircuitNode::Input { input, bit } => WireExpr::Input(input, bit),
        CircuitNode::And(a, b) => WireExpr::And(Box::new(prev[a as int]), Box::new(prev[b as int])),
        CircuitNode::Xor(a, b) => WireExpr::Xor(Box::new(prev[a as int]), Box::new(prev[b as int])),
        CircuitNode::Or(a, b) => WireExpr::Or(Box::new(prev[a as int]), Box::new(prev[b as int])),
        CircuitNode::Not(a) => WireExpr::Not(Box::new(prev[a as int])),
        CircuitNode::Add(a, b) => WireExpr::Add(Box::new(prev[a as int]), Box::new(prev[b as int])),
    }
}

/// The expression computed by each node of a node list.
pub open spec fn node_exprs(nodes: Seq<CircuitNode>) -> Seq<WireExpr>
    decreases nodes.len(),
{
    if nodes.len() == 0 {
        Seq::empty()
    } else {
        let prev = node_exprs(nodes.drop_last());
        prev.push(node_expr(nodes.last(), prev))
    }
}

/// The input nodes of a circuit whose inputs have these widths: every bit of
/// every input, input by input, each input from its most significant bit.
pub open spec fn input_nodes(widths: Seq<usize>) -> Seq<CircuitNode>
    decreases widths.len(),
{
    if widths.len() == 0 {
        Seq::empty()
    } else {
        let i = (widths.len() - 1) as usize;
        input_nodes(widths.drop_last()) + Seq::new(
            widths.last() as nat,
            |b: int| CircuitNode::Input { input: i, bit: b as usize },
        )
    }
}

/// `node`, standing at position `id`, is a gate that reads only earlier nodes.
pub open spec fn reads_earlier(node: CircuitNode, id: int) -> bool {
    match node {
        CircuitNode::Input { .. } => false,
        CircuitNode::And(a, b) => a < id && b < id,
        CircuitNode::Xor(a, b) => a < id && b < id,
        CircuitNode::Or(a, b) => a < id && b < id,
        CircuitNode::Not(a) => a < id,
        CircuitNode::Add(a, b) => a < id && b < id,
    }
}

/// The node list starts with the input nodes of `widths`, and every later
/// node is a gate over earlier nodes.
pub open spec fn nodes_wf(widths: Seq<usize>, nodes: Seq<CircuitNode>) -> bool {
    let n_in = input_nodes(widths).len();
    &&& n_in <= nodes.len()
    &&& nodes.take(n_in as int) == input_nodes(widths)
    &&& forall|id: int| n_in <= id < nodes.len() ==> reads_earlier(#[trigger] nodes[id], id)
}

impl Circuit {
    /// The nodes start with every input bit in order, each gate reads only
    /// earlier nodes, and every output bit names an existing node.
    pub open spec fn wf(&self) -> bool {
        &&& nodes_wf(self.input_widths@, self.nodes@)
        &&& forall|o: int, j: int|
            0 <= o < self.outputs@.len() && 0 <= j < self.outputs@[o]@.len() ==> #[trigger] self.outputs@[o]@[j]
                < self.nodes@.len()
    }

    /// The expression computed by each word of each output.
    pub open spec fn output_exprs(&self) -> Seq<Seq<WireExpr>> {
        let exprs = node_exprs(self.nodes@);
        self.outputs@.map_values(|ids: Vec<usize>| ids@.map_values(|id: usize| exprs[id as int]))
    }
}

/// Appending a node leaves the expressions of the earlier nodes as they were.
pub proof fn lemma_node_exprs_push(nodes: Seq<CircuitNode>, node: CircuitNode)
    ensures
        node_exprs(nodes).len() == nodes.len(),
        node_exprs(nodes.push(node)) == node_exprs(nodes).push(node_expr(node, node_exprs(nodes))),
{
    lemma_node_exprs_len(nodes);
    assert(nodes.push(node).drop_last() =~= nodes);
}

proof fn lemma_node_exprs_len(nodes: Seq<CircuitNode>)
    ensures
        node_exprs(nodes).len() == nodes.len(),
    decreases nodes.len(),
{
    if nodes.len() > 0 {
        lemma_node_exprs_len(nodes.drop_last());
    }
}

/// The input nodes of the first `i + 1` widths extend those of the first `i`
/// by the bits of input `i`.
pub proof fn lemma_input_nodes_step(widths: Seq<usize>, i: int)
    requires
        0 <= i < widths.len(),
    ensures
        input_nodes(widths.take(i + 1)) == input_nodes(widths.take(i)) + Seq::new(
            widths[i] as nat,
            |b: int| CircuitNode::Input { input: i as usize, bit: b as usize },
        ),
{
    assert(widths.take(i + 1).drop_last() =~= widths.take(i));
}

/// The complement of a wire value: of a bit, the other bit; of a word, every
/// bit flipped.
pub open spec fn not_word(kind: WordKind, x: u32) -> u32 {
    match kind {
        WordKind::Bit => x ^ 1,
        WordKind::U32 => !x,
    }
}

/// The sum of two wire values: of bits, modulo two; of words, modulo 2^32.
pub open spec fn add_word(kind: WordKind, x: u32, y: u32) -> u32 {
    match kind {
        WordKind::Bit => x ^ y,
        WordKind::U32 => ((x + y) % 0x1_0000_0000) as u32,
    }
}

/// The value of `node` when the earlier nodes have the values `prev` and the
/// inputs have the words `inputs` (bits are 0 and 1).
pub open spec fn node_value(kind: WordKind, node: CircuitNode, prev: Seq<u32>, inputs: Seq<Seq<u32>>) -> u32 {
    match node {
        CircuitNode::Input { input, bit } => inputs[input as int][bit as int],
        CircuitNode::And(a, b) => prev[a as int] & prev[b as int],
        CircuitNode::Xor(a, b) => prev[a as int] ^ prev[b as int],
        CircuitNode::Or(a, b) => prev[a as int] | prev[b as int],
        CircuitNode::Not(a) => not_word(kind, prev[a as int]),
        CircuitNode::Add(a, b) => add_word(kind, prev[a as int], prev[b as int]),
    }
}

/// The value of every node of a node list on the given input words.
pub open spec fn node_values(kind: WordKind, nodes: Seq<CircuitNode>, inputs: Seq<Seq<u32>>) -> Seq<u32>
    decreases nodes.len(),
{
    if nodes.len() == 0 {
        Seq::empty()
    } else {
        let prev = node_values(kind, nodes.drop_last(), inputs);
        prev.push(node_value(kind, nodes.last(), prev, inputs))
    }
}

/// The value of an expression on the given input words.
pub open spec fn eval_expr(kind: WordKind, e: WireExpr, inputs: Seq<Seq<u32>>) -> u32
    decreases e,
{
    match e {
        WireExpr::Input(i, b) => inputs[i as int][b as int],
        WireExpr::And(x, y) => eval_expr(kind, *x, inputs) & eval_expr(kind, *y, inputs),
        WireExpr::Xor(x, y) => eval_expr(kind, *x, inputs) ^ eval_expr(kind, *y, inputs),
        WireExpr::Or(x, y) => eval_expr(kind, *x, inputs) | eval_expr(kind, *y, inputs),
        WireExpr::Not(x) => not_word(kind, eval_expr(kind, *x, inputs)),
        WireExpr::Add(x, y) => add_word(kind, eval_expr(kind, *x, inputs), eval_expr(kind, *y, inputs)),
    }
}

/// Every gate node reads only earlier nodes.
pub open spec fn gates_read_earlier(nodes: Seq<CircuitNode>) -> bool {
    forall|id: int| 0 <= id < nodes.len() && !(nodes[id] is Input) ==> reads_earlier(#[trigger] nodes[id], id)
}

proof fn lemma_node_values_len(kind: WordKind, nodes: Seq<CircuitNode>, inputs: Seq<Seq<u32>>)
    ensures
        node_values(kind, nodes, inputs).len() == nodes.len(),
    decreases nodes.len(),
{
    if nodes.len() > 0 {
        lemma_node_values_len(kind, nodes.drop_last(), inputs);
    }
}

/// Evaluating the nodes in order gives each node the value of the expression
/// it computes.
pub proof fn lemma_node_values_match_exprs(kind: WordKind, nodes: Seq<CircuitNode>, inputs: Seq<Seq<u32>>)
    requires
        gates_read_earlier(nodes),
    ensures
        node_values(kind, nodes, inputs).len() == nodes.len(),
        forall|id: int| 0 <= id < nodes.len() ==> #[trigger] node_values(kind, nodes, inputs)[id] == eval_expr(
            kind,
            node_exprs(nodes)[id],
            inputs,
        ),
    decreases nodes.len(),
{
    lemma_node_values_len(kind, nodes, inputs);
    lemma_node_exprs_len(nodes);
    if nodes.len() > 0 {
        let d = nodes.drop_last();
        assert forall|id: int| 0 <= id < d.len() && !(d[id] is Input) implies reads_earlier(#[trigger] d[id], id) by {
            assert(d[id] == nodes[id]);
        }
        lemma_node_values_match_exprs(kind, d, inputs);
        lemma_node_exprs_len(d);
        let n = nodes.len() - 1;
        assert(nodes[n] == nodes.last());
    }
}

proof fn lemma_input_nodes_are_inputs(widths: Seq<usize>)
    ensures
        forall|id: int| 0 <= id < input_nodes(widths).len() ==> (#[trigger] input_nodes(widths)[id]) is Input,
    decreases widths.len(),
{
    if widths.len() > 0 {
        let d = widths.drop_last();
        lemma_input_nodes_are_inputs(d);
        let prefix = input_nodes(d);
        assert forall|id: int| 0 <= id < input_nodes(widths).len() implies (#[trigger] input_nodes(widths)[id]) is Input by {
            if id < prefix.len() {
                assert(input_nodes(widths)[id] == prefix[id]);
            }
        }
    }
}

/// Input nodes name an existing input and one of its words.
pub proof fn lemma_input_nodes_in_range(widths: Seq<usize>)
    requires
        widths.len() <= usize::MAX,
    ensures
        forall|id: int| 0 <= id < input_nodes(widths).len() ==> (#[trigger] input_nodes(widths)[id] matches CircuitNode::Input { input, bit } && input < widths.len() && bit < widths[input as int]),
    decreases widths.len(),
{
    if widths.len() > 0 {
        let d = widths.drop_last();
        lemma_input_nodes_in_range(d);
        let prefix = input_nodes(d);
        let i = (widths.len() - 1) as usize;
        let tail = Seq::new(widths.last() as nat, |b: int| CircuitNode::Input { input: i, bit: b as usize });
        assert forall|id: int| 0 <= id < input_nodes(widths).len() implies (#[trigger] input_nodes(widths)[id] matches CircuitNode::Input { input, bit } && input < widths.len() && bit < widths[input as int]) by {
            assert(input_nodes(widths) == prefix + tail);
            if id < prefix.len() {
                assert(input_nodes(widths)[id] == prefix[id]);
                match prefix[id] {
                    CircuitNode::Input { input, bit } => {
                        assert(d[input as int] == widths[input as int]);
                    },
                    _ => {},
                }
            } else {
                assert(input_nodes(widths)[id] == tail[id - prefix.len()]);
                assert(widths.last() == widths[i as int]);
            }
        }
    }
}

/// The word carried by a `U32` value (0 for any other value).
pub open spec fn u32_value(v: Value) -> u32 {
    match v {
        Value::U32(x) => x,
        _ => 0,
    }
}

/// The words an input of `width` words stands for, if the value has the
/// input's shape: for bits, an array of `width` bits (as 0 and 1); for
/// words, a single word where the width is 1, else an array of `width` words.
pub open spec fn input_words(kind: WordKind, width: usize, v: Value) -> Option<Seq<u32>> {
    match kind {
        WordKind::Bit => match v {
            Value::Array(items) => if items@.len() == width && forall|i: int| 0 <= i < items@.len() ==> (#[trigger] items@[i]) is Bit {
                Some(items@.map_values(|x: Value| if bit_value(x) { 1u32 } else { 0u32 }))
            } else {
                None
            },
            _ => None,
        },
        WordKind::U32 => if width == 1 {
            match v {
                Value::U32(x) => Some(seq![x]),
                _ => None,
            }
        } else {
            match v {
                Value::Array(items) => if items@.len() == width && forall|i: int| 0 <= i < items@.len() ==> (#[trigger] items@[i]) is U32 {
                    Some(items@.map_values(|x: Value| u32_value(x)))
                } else {
                    None
                },
                _ => None,
            }
        },
    }
}

/// `v` is how an output whose words are `words` is handed back: for bits, an
/// array of bits (a word other than 0 is set); for words, a single word where
/// there is one, else an array of words.
pub open spec fn value_holds(kind: WordKind, v: Value, words: Seq<u32>) -> bool {
    match kind {
        WordKind::Bit => match v {
            Value::Array(items) => items@.len() == words.len() && forall|i: int| 0 <= i < words.len() ==> #[trigger] items@[i] == Value::Bit(words[i] != 0),
            _ => false,
        },
        WordKind::U32 => if words.len() == 1 {
            v == Value::U32(words[0])
        } else {
            match v {
                Value::Array(items) => items@.len() == words.len() && forall|i: int| 0 <= i < words.len() ==> #[trigger] items@[i] == Value::U32(words[i]),
                _ => false,
            }
        },
    }
}

/// Why a circuit could not be evaluated on the given inputs.
#[derive(Clone, Copy, PartialEq, Eq, Structural, Debug)]
pub enum CircuitEvalError {
    /// The number of input values differs from the number of inputs.
    InputCountMismatch,
    /// This input's value does not have the input's shape.
    InvalidInput { input: usize },
}

impl Circuit {
    /// The words of each input, read from values of the right shape.
    pub open spec fn decoded_inputs(&self, inputs: Seq<Value>) -> Seq<Seq<u32>> {
        Seq::new(inputs.len(), |i: int| input_words(self.word, self.input_widths@[i], inputs[i])->Some_0)
    }

    /// The words of each output on the given input words.
    pub open spec fn output_words(&self, inputs: Seq<Seq<u32>>) -> Seq<Seq<u32>> {
        let vals = node_values(self.word, self.nodes@, inputs);
        self.outputs@.map_values(|ids: Vec<usize>| ids@.map_values(|id: usize| vals[id as int]))
    }

    /// Evaluates the circuit: reads each input's words from its value, computes
    /// every node in order, and hands each output back in its shape.
    pub fn evaluate(&self, inputs: &Vec<Value>) -> (res: Result<Vec<Value>, CircuitEvalError>)
        requires
            self.wf(),
        ensures
            match res {
                Err(CircuitEvalError::InputCountMismatch) => inputs@.len() != self.input_widths@.len(),
                Err(CircuitEvalError::InvalidInput { input }) => {
                    &&& inputs@.len() == self.input_widths@.len()
                    &&& input < inputs@.len()
                    &&& input_words(self.word, self.input_widths@[input as int], inputs@[input as int]) is None
                    &&& forall|k: int| 0 <= k < input ==> (#[trigger] input_words(self.word, self.input_widths@[k], inputs@[k])) is Some
                },
                Ok(outs) => {
                    &&& inputs@.len() == self.input_widths@.len()
                    &&& forall|k: int| 0 <= k < inputs@.len() ==> (#[trigger] input_words(self.word, self.input_widths@[k], inputs@[k])) is Some
                    &&& outs@.len() == self.outputs@.len()
                    &&& forall|o: int| 0 <= o < outs@.len() ==> value_holds(self.word, #[trigger] outs@[o], self.output_words(self.decoded_inputs(inputs@))[o])
                },
            },
    {
        if inputs.len() != self.input_widths.len() {
            return Err(CircuitEvalError::InputCountMismatch);
        }
        let kind = self.word;
        let mut words: Vec<Vec<u32>> = Vec::new();
        let mut i: usize = 0;
        while i < inputs.len()
            invariant
                i <= inputs@.len() == self.input_widths@.len(),
                kind == self.word,
                words@.len() == i,
                forall|k: int| 0 <= k < i ==> (#[trigger] input_words(kind, self.input_widths@[k], inputs@[k])) == Some(words@[k]@),
            decreases inputs@.len() - i,
        {
            match decode_input(kind, self.input_widths[i], &inputs[i]) {
                Some(w) => {
                    words.push(w);
                },
                None => {
                    return Err(CircuitEvalError::InvalidInput { input: i });
                },
            }
            i = i + 1;
        }
        let ghost ins = self.decoded_inputs(inputs@);
        assert(forall|k: int| 0 <= k < inputs@.len() ==> (#[trigger] ins[k]) == words@[k]@);
        let ghost n_in = input_nodes(self.input_widths@).len();
        proof {
            lemma_input_nodes_in_range(self.input_widths@);
        }
        let mut vals: Vec<u32> = Vec::new();
        let mut id: usize = 0;
        while id < self.nodes.len()
            invariant
                self.wf(),
                kind == self.word,
                n_in == input_nodes(self.input_widths@).len(),
                forall|k: int| 0 <= k < n_in ==> (#[trigger] input_nodes(self.input_widths@)[k] matches CircuitNode::Input { input, bit } && input < self.input_widths@.len() && bit < self.input_widths@[input as int]),
                words@.len() == self.input_widths@.len() == ins.len(),
                forall|k: int| 0 <= k < words@.len() ==> (#[trigger] ins[k]) == words@[k]@ && words@[k]@.len() == self.input_widths@[k],
                id <= self.nodes@.len(),
                vals@ == node_values(kind, self.nodes@.take(id as int), ins),
            decreases self.nodes@.len() - id,
        {
            let ghost prefix = self.nodes@.take(id as int);
            proof {
                lemma_node_values_len(kind, prefix, ins);
                assert(self.nodes@.take(id + 1).drop_last() =~= prefix);
                if id < n_in {
                    assert(self.nodes@[id as int] == self.nodes@.take(n_in as int)[id as int]);
                }
            }
            let node = self.nodes[id];
            let v: u32 = match node {
                CircuitNode::Input { input, bit } => {
                    proof {
                        if id >= n_in {
                            assert(reads_earlier(self.nodes@[id as int], id as int));
                        }
                        assert(self.nodes@[id as int] == input_nodes(self.input_widths@)[id as int]);
                        assert(ins[input as int] == words@[input as int]@);
                        assert(words@[input as int]@.len() == self.input_widths@[input as int]);
                    }
                    words[input][bit]
                },
                CircuitNode::And(a, b) => vals[a] & vals[b],
                CircuitNode::Xor(a, b) => vals[a] ^ vals[b],
                CircuitNode::Or(a, b) => vals[a] | vals[b],
                CircuitNode::Not(a) => {
                    let x = vals[a];
                    match kind {
                        WordKind::Bit => x ^ 1,
                        WordKind::U32 => !x,
                    }
                },
                CircuitNode::Add(a, b) => {
                    let x = vals[a];
                    let y = vals[b];
                    match kind {
                        WordKind::Bit => x ^ y,
                        WordKind::U32 => if x <= u32::MAX - y {
                            x + y
                        } else {
                            x - (u32::MAX - y) - 1
                        },
                    }
                },
            };
            vals.push(v);
            id = id + 1;
        }
        assert(self.nodes@.take(self.nodes@.len() as int) =~= self.nodes@);
        proof {
            lemma_node_values_len(kind, self.nodes@, ins);
        }
        let ghost all_vals = node_values(kind, self.nodes@, ins);
        let mut outs: Vec<Value> = Vec::new();
        let mut o: usize = 0;
        while o < self.outputs.len()
            invariant
                self.wf(),
                kind == self.word,
                vals@ == all_vals,
                all_vals == node_values(kind, self.nodes@, ins),
                all_vals.len() == self.nodes@.len(),
                o <= self.outputs@.len(),
                outs@.len() == o,
                forall|k: int| 0 <= k < o ==> value_holds(kind, #[trigger] outs@[k], self.output_words(ins)[k]),
            decreases self.outputs@.len() - o,
        {
            let ids = &self.outputs[o];
            let ghost expected = self.output_words(ins)[o as int];
            assert(expected == ids@.map_values(|id: usize| all_vals[id as int]));
            let mut out_words: Vec<u32> = Vec::new();
            let mut j: usize = 0;
            while j < ids.len()
                invariant
                    self.wf(),
                    o < self.outputs@.len(),
                    *ids == self.outputs@[o as int],
                    vals@ == all_vals,
                    all_vals.len() == self.nodes@.len(),
                    j <= ids@.len(),
                    out_words@ == expected.take(j as int),
                    expected == ids@.map_values(|id: usize| all_vals[id as int]),
                decreases ids@.len() - j,
            {
                assert(ids@[j as int] < self.nodes@.len());
                out_words.push(vals[ids[j]]);
                j = j + 1;
                assert(out_words@ =~= expected.take(j as int));
            }
            assert(expected.take(j as int) =~= expected);
            let value = encode_output(kind, &out_words);
            let ghost before = outs@;
            outs.push(value);
            proof {
                assert forall|k: int| 0 <= k < o + 1 implies value_holds(kind, #[trigger] outs@[k], self.output_words(ins)[k]) by {
                    if k < o {
                        assert(outs@[k] == before[k]);
                    }
                }
            }
            o = o + 1;
        }
        Ok(outs)
    }
}

fn decode_input(kind: WordKind, width: usize, v: &Value) -> (res: Option<Vec<u32>>)
    ensures
        match res {
            Some(w) => input_words(kind, width, *v) == Some(w@),
            None => input_words(kind, width, *v) is None,
        },
{
    match kind {
        WordKind::U32 => {
            if width == 1 {
                match v {
                    Value::U32(x) => {
                        let mut w: Vec<u32> = Vec::new();
                        w.push(*x);
                        assert(w@ =~= seq![*x]);
                        return Some(w);
                    },
                    _ => {
                        return None;
                    },
                }
            }
        },
        WordKind::Bit => {},
    }
    match v {
        Value::Array(items) => {
            if items.len() != width {
                return None;
            }
            let mut w: Vec<u32> = Vec::new();
            let mut i: usize = 0;
            while i < items.len()
                invariant
                    *v == Value::Array(*items),
                    kind == WordKind::U32 ==> width != 1,
                    i <= items@.len() == width,
                    w@.len() == i,
                    forall|k: int| 0 <= k < i ==> match kind {
                        WordKind::Bit => (#[trigger] items@[k]) is Bit && w@[k] == (if bit_value(items@[k]) { 1u32 } else { 0u32 }),
                        WordKind::U32 => (#[trigger] items@[k]) is U32 && w@[k] == u32_value(items@[k]),
                    },
                decreases items@.len() - i,
            {
                let x: u32 = match (kind, &items[i]) {
                    (WordKind::Bit, Value::Bit(b)) => if *b { 1 } else { 0 },
                    (WordKind::U32, Value::U32(x)) => *x,
                    _ => {
                        assert(match kind {
                            WordKind::Bit => !(items@[i as int] is Bit),
                            WordKind::U32 => !(items@[i as int] is U32),
                        });
                        return None;
                    },
                };
                w.push(x);
                i = i + 1;
            }
            proof {
                match kind {
                    WordKind::Bit => {
                        assert(w@ =~= items@.map_values(|x: Value| if bit_value(x) { 1u32 } else { 0u32 }));
                    },
                    WordKind::U32 => {
                        assert(w@ =~= items@.map_values(|x: Value| u32_value(x)));
                    },
                }
            }
            Some(w)
        },
        _ => None,
    }
}

fn encode_output(kind: WordKind, words: &Vec<u32>) -> (v: Value)
    ensures
        value_holds(kind, v, words@),
{
    if kind == WordKind::U32 && words.len() == 1 {
        return Value::U32(words[0]);
    }
    let mut items: Vec<Value> = Vec::new();
    let mut i: usize = 0;
    while i < words.len()
        invariant
            !(kind == WordKind::U32 && words@.len() == 1),
            i <= words@.len(),
            items@.len() == i,
            forall|k: int| 0 <= k < i ==> #[trigger] items@[k] == match kind {
                WordKind::Bit => Value::Bit(words@[k] != 0),
                WordKind::U32 => Value::U32(words@[k]),
            },
        decreases words@.len() - i,
    {
        let item = match kind {
            WordKind::Bit => Value::Bit(words[i] != 0),
            WordKind::U32 => Value::U32(words[i]),
        };
        items.push(item);
        i = i + 1;
    }
    Value::Array(items)
}

/// The value of each node, and so of each output word, is the value of the
/// expression the node computes.
pub proof fn lemma_output_words_match_exprs(c: &Circuit, inputs: Seq<Seq<u32>>)
    requires
        c.wf(),
    ensures
        c.output_words(inputs).len() == c.output_exprs().len(),
        forall|o: int, j: int| 0 <= o < c.outputs@.len() && 0 <= j < c.outputs@[o]@.len() ==> #[trigger] c.output_words(inputs)[o][j] == eval_expr(
            c.word,
            c.output_exprs()[o][j],
            inputs,
        ),
{
    let nodes = c.nodes@;
    let n_in = input_nodes(c.input_widths@).len();
    lemma_input_nodes_are_inputs(c.input_widths@);
    assert forall|id: int| 0 <= id < nodes.len() && !(nodes[id] is Input) implies reads_earlier(#[trigger] nodes[id], id) by {
        if id < n_in {
            assert(nodes[id] == nodes.take(n_in as int)[id]);
        }
    }
    lemma_node_values_match_exprs(c.word, nodes, inputs);
    assert forall|o: int, j: int| 0 <= o < c.outputs@.len() && 0 <= j < c.outputs@[o]@.len() implies #[trigger] c.output_words(inputs)[o][j] == eval_expr(
        c.word,
        c.output_exprs()[o][j],
        inputs,
    ) by {
        assert(c.outputs@[o]@[j] < nodes.len());
    }
}

proof fn lemma_node_values_take(kind: WordKind, nodes: Seq<CircuitNode>, inputs: Seq<Seq<u32>>, n: int)
    requires
        0 <= n <= nodes.len(),
    ensures
        node_values(kind, nodes, inputs).take(n) == node_values(kind, nodes.take(n), inputs),
    decreases nodes.len(),
{
    lemma_node_values_len(kind, nodes, inputs);
    if n == nodes.len() {
        assert(nodes.take(n) =~= nodes);
        assert(node_values(kind, nodes, inputs).take(n) =~= node_values(kind, nodes, inputs));
    } else {
        let d = nodes.drop_last();
        lemma_node_values_take(kind, d, inputs, n);
        lemma_node_values_len(kind, d, inputs);
        assert(d.take(n) =~= nodes.take(n));
        assert(node_values(kind, nodes, inputs).take(n) =~= node_values(kind, d, inputs).take(n));
    }
}

/// Bit `k` (from the least significant) of a word is set.
pub open spec fn bit_set(x: u32, k: u32) -> bool {
    (x >> k) & 1 == 1
}

proof fn lemma_and_bits(x: u32, y: u32, k: u32)
    by (bit_vector)
    requires
        k < 32,
    ensures
        ((x & y) >> k) & 1 == 1 <==> ((x >> k) & 1 == 1 && (y >> k) & 1 == 1),
        x <= 1 && y <= 1 ==> (x & y) <= 1 && ((x & y) == 1 <==> (x == 1 && y == 1)),
{
}

proof fn lemma_or_bits(x: u32, y: u32, k: u32)
    by (bit_vector)
    requires
        k < 32,
    ensures
        ((x | y) >> k) & 1 == 1 <==> ((x >> k) & 1 == 1 || (y >> k) & 1 == 1),
        x <= 1 && y <= 1 ==> (x | y) <= 1 && ((x | y) == 1 <==> (x == 1 || y == 1)),
{
}

proof fn lemma_xor_bits(x: u32, y: u32, k: u32)
    by (bit_vector)
    requires
        k < 32,
    ensures
        ((x ^ y) >> k) & 1 == 1 <==> ((x >> k) & 1 == 1) != ((y >> k) & 1 == 1),
        x <= 1 && y <= 1 ==> (x ^ y) <= 1 && ((x ^ y) == 1 <==> x != y),
{
}

proof fn lemma_not_bits(x: u32, k: u32)
    by (bit_vector)
    requires
        k < 32,
    ensures
        ((!x) >> k) & 1 == 1 <==> !((x >> k) & 1 == 1),
        x <= 1 ==> (x ^ 1) <= 1 && ((x ^ 1) == 1 <==> x == 0),
{
}

/// What each gate computes, in terms of the values of the nodes it reads:
/// AND, OR and XOR act on every bit (bit `k` of the result is set exactly
/// when bit `k` of both, of either, of exactly one operand is); NOT flips
/// every bit of a word, and turns bit 0 into 1 and 1 into 0; addition of
/// words gives their sum, less 2^32 where the sum does not fit, and addition
/// of bits is 1 exactly when the bits differ.
pub proof fn lemma_gate_values(kind: WordKind, nodes: Seq<CircuitNode>, inputs: Seq<Seq<u32>>, id: int)
    requires
        0 <= id < nodes.len(),
        reads_earlier(nodes[id], id),
    ensures
        ({
            let v = node_values(kind, nodes, inputs);
            match nodes[id] {
                CircuitNode::And(a, b) => {
                    &&& forall|k: u32| k < 32 ==> (#[trigger] bit_set(v[id], k) <==> bit_set(v[a as int], k) && bit_set(v[b as int], k))
                    &&& v[a as int] <= 1 && v[b as int] <= 1 ==> v[id] <= 1 && (v[id] == 1 <==> v[a as int] == 1 && v[b as int] == 1)
                },
                CircuitNode::Or(a, b) => {
                    &&& forall|k: u32| k < 32 ==> (#[trigger] bit_set(v[id], k) <==> bit_set(v[a as int], k) || bit_set(v[b as int], k))
                    &&& v[a as int] <= 1 && v[b as int] <= 1 ==> v[id] <= 1 && (v[id] == 1 <==> v[a as int] == 1 || v[b as int] == 1)
                },
                CircuitNode::Xor(a, b) => {
                    &&& forall|k: u32| k < 32 ==> (#[trigger] bit_set(v[id], k) <==> bit_set(v[a as int], k) != bit_set(v[b as int], k))
                    &&& v[a as int] <= 1 && v[b as int] <= 1 ==> v[id] <= 1 && (v[id] == 1 <==> v[a as int] != v[b as int])
                },
                CircuitNode::Not(a) => match kind {
                    WordKind::U32 => forall|k: u32| k < 32 ==> (#[trigger] bit_set(v[id], k) <==> !bit_set(v[a as int], k)),
                    WordKind::Bit => v[a as int] <= 1 ==> v[id] <= 1 && (v[id] == 1 <==> v[a as int] == 0),
                },
                CircuitNode::Add(a, b) => match kind {
                    WordKind::U32 => v[id] == v[a as int] + v[b as int] || v[id] == v[a as int] + v[b as int] - 0x1_0000_0000,
                    WordKind::Bit => v[a as int] <= 1 && v[b as int] <= 1 ==> v[id] <= 1 && (v[id] == 1 <==> v[a as int] != v[b as int]),
                },
                CircuitNode::Input { .. } => true,
            }
        }),
{
    let v = node_values(kind, nodes, inputs);
    lemma_node_values_len(kind, nodes, inputs);
    lemma_node_values_take(kind, nodes, inputs, id + 1);
    lemma_node_values_take(kind, nodes, inputs, id);
    let prev = node_values(kind, nodes.take(id), inputs);
    assert(nodes.take(id + 1).drop_last() =~= nodes.take(id));
    assert(nodes.take(id + 1).last() == nodes[id]);
    assert(v[id] == v.take(id + 1)[id]);
    assert(v[id] == node_value(kind, nodes[id], prev, inputs));
    match nodes[id] {
        CircuitNode::And(a, b) => {
            assert(prev[a as int] == v.take(id)[a as int]);
            assert(prev[b as int] == v.take(id)[b as int]);
            assert forall|k: u32| k < 32 implies (#[trigger] bit_set(v[id], k) <==> bit_set(v[a as int], k) && bit_set(v[b as int], k)) by {
                lemma_and_bits(v[a as int], v[b as int], k);
            }
            lemma_and_bits(v[a as int], v[b as int], 0);
        },
        CircuitNode::Or(a, b) => {
            assert(prev[a as int] == v.take(id)[a as int]);
            assert(prev[b as int] == v.take(id)[b as int]);
            assert forall|k: u32| k < 32 implies (#[trigger] bit_set(v[id], k) <==> bit_set(v[a as int], k) || bit_set(v[b as int], k)) by {
                lemma_or_bits(v[a as int], v[b as int], k);
            }
            lemma_or_bits(v[a as int], v[b as int], 0);
        },
        CircuitNode::Xor(a, b) => {
            assert(prev[a as int] == v.take(id)[a as int]);
            assert(prev[b as int] == v.take(id)[b as int]);
            assert forall|k: u32| k < 32 implies (#[trigger] bit_set(v[id], k) <==> bit_set(v[a as int], k) != bit_set(v[b as int], k)) by {
                lemma_xor_bits(v[a as int], v[b as int], k);
            }
            lemma_xor_bits(v[a as int], v[b as int], 0);
        },
        CircuitNode::Not(a) => {
            assert(prev[a as int] == v.take(id)[a as int]);
            assert forall|k: u32| k < 32 implies (#[trigger] bit_set(!v[a as int], k) <==> !bit_set(v[a as int], k)) by {
                lemma_not_bits(v[a as int], k);
            }
            lemma_not_bits(v[a as int], 0);
        },
        CircuitNode::Add(a, b) => {
            assert(prev[a as int] == v.take(id)[a as int]);
            assert(prev[b as int] == v.take(id)[b as int]);
            lemma_xor_bits(v[a as int], v[b as int], 0);
        },
        CircuitNode::Input { .. } => {},
    }
}

} // verus!
