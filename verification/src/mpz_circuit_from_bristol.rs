//! Conversion of a Bristol circuit into a [`Circuit`] whose outputs compute
//! what the Bristol circuit's output wires carry.

use vstd::prelude::*;
use crate::bristol::{copy_wires, entries_view, BristolCircuit, BristolCircuitView, Gate, GateOp, GateView, classify_op, gate_op, is_binary};
use crate::circuit::{Circuit, CircuitNode, WordKind, eval_expr, lemma_output_words_match_exprs, WireExpr, input_nodes, node_expr, node_exprs, nodes_wf, reads_earlier, lemma_node_exprs_push, lemma_input_nodes_step};
use crate::error::{MpzTsError, MpzTsErrorView};

verus! {

broadcast use vstd::std_specs::hash::group_hash_axioms;

/// A name with a wire index or a width.
pub type Entry = (Seq<char>, usize);

/// Inserts `x` into `sorted` after every entry whose wire index is at most
/// that of `x`.
pub open spec fn insert_by_wire(sorted: Seq<Entry>, x: Entry) -> Seq<Entry>
    decreases sorted.len(),
{
    if sorted.len() == 0 {
        seq![x]
    } else if sorted.last().1 <= x.1 {
        sorted.push(x)
    } else {
        insert_by_wire(sorted.drop_last(), x).push(sorted.last())
    }
}

/// The entries ordered by wire index; entries with equal indices keep their
/// order.
pub open spec fn sort_by_wire(entries: Seq<Entry>) -> Seq<Entry>
    decreases entries.len(),
{
    if entries.len() == 0 {
        Seq::empty()
    } else {
        insert_by_wire(sort_by_wire(entries.drop_last()), entries.last())
    }
}

/// The entries are in ascending order of wire index.
pub open spec fn sorted_by_wire(entries: Seq<Entry>) -> bool {
    forall|i: int, j: int| 0 <= i < j < entries.len() ==> (#[trigger] entries[i]).1 <= (#[trigger] entries[j]).1
}

proof fn lemma_insert_by_wire_multiset(sorted: Seq<Entry>, x: Entry)
    ensures
        insert_by_wire(sorted, x).to_multiset() == sorted.to_multiset().insert(x),
        insert_by_wire(sorted, x).len() == sorted.len() + 1,
    decreases sorted.len(),
{
    broadcast use vstd::seq_lib::group_seq_properties;
    broadcast use vstd::multiset::group_multiset_axioms;

    if sorted.len() == 0 {
        assert(seq![x] =~= Seq::<Entry>::empty().push(x));
    } else if sorted.last().1 <= x.1 {
    } else {
        let d = sorted.drop_last();
        lemma_insert_by_wire_multiset(d, x);
        assert(d.push(sorted.last()) =~= sorted);
        assert(insert_by_wire(sorted, x).to_multiset() =~= sorted.to_multiset().insert(x));
    }
}

proof fn lemma_insert_by_wire_bound(sorted: Seq<Entry>, x: Entry, bound: usize)
    requires
        forall|i: int| 0 <= i < sorted.len() ==> (#[trigger] sorted[i]).1 <= bound,
        x.1 <= bound,
    ensures
        forall|i: int| 0 <= i < insert_by_wire(sorted, x).len() ==> (#[trigger] insert_by_wire(sorted, x)[i]).1 <= bound,
    decreases sorted.len(),
{
    let r = insert_by_wire(sorted, x);
    if sorted.len() == 0 {
        assert(r =~= seq![x]);
    } else if sorted.last().1 <= x.1 {
        assert(r =~= sorted.push(x));
        assert forall|i: int| 0 <= i < r.len() implies (#[trigger] r[i]).1 <= bound by {
            if i < sorted.len() {
                assert(r[i] == sorted[i]);
            }
        }
    } else {
        let d = sorted.drop_last();
        lemma_insert_by_wire_bound(d, x, bound);
        let r0 = insert_by_wire(d, x);
        assert(r =~= r0.push(sorted.last()));
        assert forall|i: int| 0 <= i < r.len() implies (#[trigger] r[i]).1 <= bound by {
            if i < r0.len() {
                assert(r[i] == r0[i]);
            }
        }
    }
}

proof fn lemma_insert_by_wire_sorted(sorted: Seq<Entry>, x: Entry)
    requires
        sorted_by_wire(sorted),
    ensures
        sorted_by_wire(insert_by_wire(sorted, x)),
    decreases sorted.len(),
{
    if sorted.len() > 0 && sorted.last().1 > x.1 {
        let d = sorted.drop_last();
        lemma_insert_by_wire_sorted(d, x);
        lemma_insert_by_wire_bound(d, x, sorted.last().1);
        lemma_insert_by_wire_multiset(d, x);
    }
}

/// Ordering entries by wire index yields them in ascending order of wire
/// index.
pub proof fn lemma_sort_by_wire_sorted(entries: Seq<Entry>)
    ensures
        sorted_by_wire(sort_by_wire(entries)),
    decreases entries.len(),
{
    if entries.len() > 0 {
        lemma_sort_by_wire_sorted(entries.drop_last());
        lemma_insert_by_wire_sorted(sort_by_wire(entries.drop_last()), entries.last());
    }
}

/// Ordering entries by wire index neither loses nor adds an entry.
pub proof fn lemma_sort_by_wire_permutation(entries: Seq<Entry>)
    ensures
        sort_by_wire(entries).to_multiset() == entries.to_multiset(),
        sort_by_wire(entries).len() == entries.len(),
    decreases entries.len(),
{
    broadcast use vstd::seq_lib::group_seq_properties;

    if entries.len() > 0 {
        let d = entries.drop_last();
        lemma_sort_by_wire_permutation(d);
        lemma_insert_by_wire_multiset(sort_by_wire(d), entries.last());
        assert(d.push(entries.last()) =~= entries);
    }
}

/// No two entries share a wire index.
pub open spec fn distinct_wires(entries: Seq<Entry>) -> bool {
    forall|i: int, j: int| 0 <= i < j < entries.len() ==> (#[trigger] entries[i]).1 != (#[trigger] entries[j]).1
}

proof fn lemma_distinct_wires_carry(a: Seq<Entry>, r: Seq<Entry>)
    requires
        a.to_multiset() == r.to_multiset(),
        distinct_wires(a),
    ensures
        distinct_wires(r),
{
    broadcast use vstd::seq_lib::group_seq_properties;
    broadcast use vstd::multiset::group_multiset_axioms;

    assert forall|i: int, j: int| 0 <= i < a.len() && 0 <= j < a.len() && i != j implies a[i] != a[j] by {
        if i < j {
            assert(a[i].1 != a[j].1);
        } else {
            assert(a[j].1 != a[i].1);
        }
    }
    assert(a.no_duplicates());
    a.lemma_multiset_has_no_duplicates();
    r.lemma_multiset_has_no_duplicates_conv();
    assert forall|i: int, j: int| 0 <= i < j < r.len() implies (#[trigger] r[i]).1 != (#[trigger] r[j]).1 by {
        assert(r.contains(r[i]));
        assert(r.contains(r[j]));
        assert(a.to_multiset().count(r[i]) > 0);
        assert(a.to_multiset().count(r[j]) > 0);
        let p = choose|p: int| 0 <= p < a.len() && a[p] == r[i];
        let q = choose|q: int| 0 <= q < a.len() && a[q] == r[j];
        assert(r[i] != r[j]);
        assert(p != q);
        if p < q {
            assert(a[p].1 != a[q].1);
        } else {
            assert(a[q].1 != a[p].1);
        }
    }
}

proof fn lemma_sorted_unique(r1: Seq<Entry>, r2: Seq<Entry>)
    requires
        sorted_by_wire(r1),
        sorted_by_wire(r2),
        r1.to_multiset() == r2.to_multiset(),
        distinct_wires(r1),
    ensures
        r1 == r2,
    decreases r1.len(),
{
    broadcast use vstd::seq_lib::group_seq_properties;
    broadcast use vstd::multiset::group_multiset_axioms;

    if r1.len() == 0 {
        vstd::seq_lib::to_multiset_len(r1);
        vstd::seq_lib::to_multiset_len(r2);
        assert(r2.to_multiset().len() == 0);
        assert(r2.len() == 0);
        assert(r1 =~= r2);
    } else {
        vstd::seq_lib::to_multiset_len(r1);
        vstd::seq_lib::to_multiset_len(r2);
        assert(r2.len() == r1.len());
        let n = r1.len() - 1;
        let x1 = r1.last();
        let x2 = r2.last();
        assert(r2.contains(x2));
        assert(r1.to_multiset().count(x2) > 0);
        let k = choose|k: int| 0 <= k < r1.len() && r1[k] == x2;
        assert(r1.contains(x1));
        assert(r2.to_multiset().count(x1) > 0);
        let m = choose|m: int| 0 <= m < r2.len() && r2[m] == x1;
        if k < n {
            assert(r1[k].1 <= r1[n].1);
        }
        if m < n {
            assert(r2[m].1 <= r2[n].1);
        }
        assert(x1.1 == x2.1);
        if k < n {
            assert(r1[k].1 != r1[n].1);
        }
        assert(x1 == x2);
        let d1 = r1.drop_last();
        let d2 = r2.drop_last();
        assert(d1.push(x1) =~= r1);
        assert(d2.push(x2) =~= r2);
        assert(d1.to_multiset() =~= d2.to_multiset()) by {
            vstd::seq_lib::to_multiset_build(d1, x1);
            vstd::seq_lib::to_multiset_build(d2, x2);
            assert(r1.to_multiset() == d1.to_multiset().insert(x1));
            assert(r2.to_multiset() == d2.to_multiset().insert(x2));
            assert forall|y: Entry| d1.to_multiset().count(y) == d2.to_multiset().count(y) by {
                assert(r1.to_multiset().count(y) == r2.to_multiset().count(y));
                assert(d1.to_multiset().insert(x1).count(y) == r1.to_multiset().count(y));
                assert(d2.to_multiset().insert(x1).count(y) == r2.to_multiset().count(y));
                if y == x1 {
                    assert(d1.to_multiset().insert(x1).count(y) == d1.to_multiset().count(y) + 1);
                    assert(d2.to_multiset().insert(x1).count(y) == d2.to_multiset().count(y) + 1);
                } else {
                    assert(d1.to_multiset().insert(x1).count(y) == d1.to_multiset().count(y));
                    assert(d2.to_multiset().insert(x1).count(y) == d2.to_multiset().count(y));
                }
            }
        }
        lemma_sorted_unique(d1, d2);
        assert(r1 =~= r2);
    }
}

/// When no two named entries share a wire index, the order in which the
/// entries are listed does not matter: any two listings of the same entries
/// are ordered by wire index alike.
pub proof fn lemma_sort_by_wire_order_independent(a: Seq<Entry>, b: Seq<Entry>)
    requires
        a.to_multiset() == b.to_multiset(),
        distinct_wires(a),
    ensures
        sort_by_wire(a) == sort_by_wire(b),
{
    lemma_sort_by_wire_sorted(a);
    lemma_sort_by_wire_sorted(b);
    lemma_sort_by_wire_permutation(a);
    lemma_sort_by_wire_permutation(b);
    lemma_distinct_wires_carry(a, sort_by_wire(a));
    lemma_sorted_unique(sort_by_wire(a), sort_by_wire(b));
}

/// Copies the entries, ordered by wire index.
fn sort_by_wire_index(entries: &Vec<(String, usize)>) -> (res: Vec<(String, usize)>)
    ensures
        entries_view(res@) == sort_by_wire(entries_view(entries@)),
{
    let ghost all = entries_view(entries@);
    let mut res: Vec<(String, usize)> = Vec::new();
    let mut i: usize = 0;
    while i < entries.len()
        invariant
            i <= entries@.len(),
            all == entries_view(entries@),
            entries_view(res@) == sort_by_wire(all.take(i as int)),
        decreases entries@.len() - i,
    {
        let name = entries[i].0.clone();
        let wire = entries[i].1;
        let ghost t = entries_view(res@);
        let ghost x: Entry = (name@, wire);
        assert(all.take(i + 1).drop_last() =~= all.take(i as int));
        assert(all.take(i + 1).last() == x);
        let mut k: usize = res.len();
        assert(t.take(k as int) =~= t);
        assert(insert_by_wire(t, x) + t.skip(k as int) =~= insert_by_wire(t, x));
        while k > 0 && res[k - 1].1 > wire
            invariant
                k <= res@.len(),
                t == entries_view(res@),
                x == (name@, wire),
                insert_by_wire(t, x) == insert_by_wire(t.take(k as int), x) + t.skip(k as int),
            decreases k,
        {
            assert(t.take(k as int).drop_last() =~= t.take(k - 1));
            assert(insert_by_wire(t.take(k - 1), x).push(t[k - 1]) + t.skip(k as int)
                =~= insert_by_wire(t.take(k - 1), x) + t.skip(k - 1));
            k = k - 1;
        }
        proof {
            if k == 0 {
                assert(t.take(0) =~= Seq::<Entry>::empty());
            }
        }
        res.insert(k, (name, wire));
        assert(entries_view(res@) =~= insert_by_wire(t, x));
        i = i + 1;
    }
    assert(all.take(entries@.len() as int) =~= all);
    res
}

/// Each entry's name paired with the width at the same position.
pub open spec fn named_widths(entries: Seq<Entry>, widths: Seq<usize>) -> Seq<Entry> {
    Seq::new(entries.len(), |i: int| (entries[i].0, widths[i]))
}

/// The wires `wire .. wire + count` carry bits `0 .. count` of input `input`.
pub open spec fn input_range(wire: usize, input: usize, count: nat) -> Map<usize, WireExpr> {
    Map::new(
        |k: usize| wire <= k < wire + count,
        |k: usize| WireExpr::Input(input, (k - wire) as usize),
    )
}

/// What each wire carries once the first `n` inputs (in the given order) have
/// been laid on their wires; a later input overrides an earlier one.
pub open spec fn input_env(inputs: Seq<Entry>, widths: Seq<usize>, n: nat) -> Map<usize, WireExpr>
    decreases n,
{
    if n == 0 {
        Map::empty()
    } else {
        let i = (n - 1) as nat;
        input_env(inputs, widths, i).union_prefer_right(input_range(inputs[i as int].1, i as usize, widths[i as int] as nat))
    }
}

/// Every wire the map knows is mapped to a node of `plan` that computes what
/// `env` says the wire carries, and the map knows exactly the wires of `env`.
pub open spec fn tracks(wires: Map<usize, usize>, plan: Seq<CircuitNode>, env: Map<usize, WireExpr>) -> bool {
    &&& wires.dom() == env.dom()
    &&& forall|w: usize| #[trigger] env.contains_key(w) ==> wires[w] < plan.len() && node_exprs(plan)[wires[w] as int] == env[w]
}

/// Lays the bits of every input on the wires from the input's wire index on,
/// creating one input node per bit.
fn add_input_nodes(
    ordered: &Vec<(String, usize)>,
    widths: &Vec<usize>,
    nodes: &mut std::collections::HashMap<usize, usize>,
    plan: &mut Vec<CircuitNode>,
) -> (inputs: Vec<(String, usize)>)
    requires
        ordered@.len() == widths@.len(),
        old(nodes)@ == Map::<usize, usize>::empty(),
        old(plan)@ == Seq::<CircuitNode>::empty(),
        forall|i: int| 0 <= i < ordered@.len() ==> ordered@[i].1 + widths@[i] <= usize::MAX + 1,
    ensures
        entries_view(inputs@) == named_widths(entries_view(ordered@), widths@),
        final(plan)@ == input_nodes(widths@),
        tracks(final(nodes)@, final(plan)@, input_env(entries_view(ordered@), widths@, ordered@.len())),
{
    let ghost ov = entries_view(ordered@);
    let ghost wv = widths@;
    let mut inputs: Vec<(String, usize)> = Vec::new();
    let mut i: usize = 0;
    assert(wv.take(0) =~= Seq::<usize>::empty());
    assert(tracks(nodes@, plan@, input_env(ov, wv, 0)));
    while i < ordered.len()
        invariant
            i <= ordered@.len() == widths@.len(),
            ov == entries_view(ordered@),
            wv == widths@,
            forall|i: int| 0 <= i < ordered@.len() ==> ordered@[i].1 + widths@[i] <= usize::MAX + 1,
            entries_view(inputs@) == named_widths(ov, wv).take(i as int),
            plan@ == input_nodes(wv.take(i as int)),
            tracks(nodes@, plan@, input_env(ov, wv, i as nat)),
        decreases ordered@.len() - i,
    {
        let wire = ordered[i].1;
        let width = widths[i];
        let ghost base_env = input_env(ov, wv, i as nat);
        let ghost base_plan = plan@;
        let name = ordered[i].0.clone();
        let ghost old_inputs = inputs@;
        inputs.push((name, width));
        assert(entries_view(inputs@) =~= entries_view(old_inputs).push((ov[i as int].0, wv[i as int])));
        assert(entries_view(inputs@) =~= named_widths(ov, wv).take(i + 1));
        let mut j: usize = 0;
        assert(base_env.union_prefer_right(input_range(wire, i, 0)) =~= base_env);
        assert(plan@ =~= base_plan + Seq::new(0, |b: int| CircuitNode::Input { input: i, bit: b as usize }));
        while j < width
            invariant
                j <= width,
                wire + width <= usize::MAX + 1,
                base_plan == input_nodes(wv.take(i as int)),
                plan@ == base_plan + Seq::new(j as nat, |b: int| CircuitNode::Input { input: i, bit: b as usize }),
                tracks(nodes@, plan@, base_env.union_prefer_right(input_range(wire, i, j as nat))),
            decreases width - j,
        {
            let ghost old_plan = plan@;
            let ghost old_env = base_env.union_prefer_right(input_range(wire, i, j as nat));
            let id = plan.len();
            let node = CircuitNode::Input { input: i, bit: j };
            plan.push(node);
            nodes.insert(wire + j, id);
            proof {
                lemma_node_exprs_push(old_plan, node);
                let new_env = base_env.union_prefer_right(input_range(wire, i, (j + 1) as nat));
                assert(new_env =~= old_env.insert((wire + j) as usize, WireExpr::Input(i, j)));
                assert(nodes@.dom() =~= new_env.dom());
                assert forall|w: usize| #[trigger] new_env.contains_key(w) implies nodes@[w] < plan@.len()
                    && node_exprs(plan@)[nodes@[w] as int] == new_env[w] by {
                    if w != wire + j {
                        assert(old_env.contains_key(w));
                    }
                }
                assert(plan@ =~= base_plan + Seq::new((j + 1) as nat, |b: int| CircuitNode::Input { input: i, bit: b as usize }));
            }
            j = j + 1;
        }
        proof {
            lemma_input_nodes_step(wv, i as int);
        }
        i = i + 1;
    }
    assert(named_widths(ov, wv).take(i as int) =~= named_widths(ov, wv));
    assert(wv.take(i as int) =~= wv);
    inputs
}

/// Why a two-input gate cannot be applied when the wires in `defined` carry
/// values, if it cannot.
pub open spec fn binary_io_error(defined: Set<usize>, g: GateView) -> Option<MpzTsErrorView> {
    if g.inputs.len() != 2 {
        Some(MpzTsErrorView::InvalidGate(g, "Binary gate must have exactly 2 inputs"@))
    } else if g.outputs.len() != 1 {
        Some(MpzTsErrorView::InvalidGate(g, "Binary gate must have exactly 1 output"@))
    } else if !defined.contains(g.inputs[0]) {
        Some(MpzTsErrorView::InvalidGate(g, "Input wire not found"@))
    } else if !defined.contains(g.inputs[1]) {
        Some(MpzTsErrorView::InvalidGate(g, "Output wire not found"@))
    } else {
        None
    }
}

/// Why a one-input gate cannot be applied when the wires in `defined` carry
/// values, if it cannot.
pub open spec fn unary_io_error(defined: Set<usize>, g: GateView) -> Option<MpzTsErrorView> {
    if g.inputs.len() != 1 {
        Some(MpzTsErrorView::InvalidGate(g, "Unary gate must have exactly 1 input"@))
    } else if g.outputs.len() != 1 {
        Some(MpzTsErrorView::InvalidGate(g, "Unary gate must have exactly 1 output"@))
    } else if !defined.contains(g.inputs[0]) {
        Some(MpzTsErrorView::InvalidGate(g, "Input wire not found"@))
    } else {
        None
    }
}

/// The expression a gate of operation `op` computes from what its input wires
/// carry (`y` is ignored by one-input gates).
pub open spec fn gate_expr(op: GateOp, x: WireExpr, y: WireExpr) -> WireExpr {
    match op {
        GateOp::And => WireExpr::And(Box::new(x), Box::new(y)),
        GateOp::Xor => WireExpr::Xor(Box::new(x), Box::new(y)),
        GateOp::Or => WireExpr::Or(Box::new(x), Box::new(y)),
        GateOp::Not => WireExpr::Not(Box::new(x)),
        GateOp::Copy => x,
        GateOp::Add => WireExpr::Add(Box::new(x), Box::new(y)),
    }
}

/// What the wires carry after gate `g` has been applied, or why it cannot be.
pub open spec fn apply_gate(env: Map<usize, WireExpr>, g: GateView) -> Result<Map<usize, WireExpr>, MpzTsErrorView> {
    match gate_op(g.op) {
        None => Err(MpzTsErrorView::UnsupportedOp(g.op)),
        Some(op) => {
            let check = if is_binary(op) {
                binary_io_error(env.dom(), g)
            } else {
                unary_io_error(env.dom(), g)
            };
            match check {
                Some(e) => Err(e),
                None => {
                    let y = if is_binary(op) { env[g.inputs[1]] } else { env[g.inputs[0]] };
                    Ok(env.insert(g.outputs[0], gate_expr(op, env[g.inputs[0]], y)))
                },
            }
        },
    }
}

/// What the wires carry after the first `n` gates have been applied in order,
/// or the error of the first gate that cannot be.
pub open spec fn run_gates(env: Map<usize, WireExpr>, gates: Seq<GateView>, n: nat) -> Result<Map<usize, WireExpr>, MpzTsErrorView>
    decreases n,
{
    if n == 0 {
        Ok(env)
    } else {
        match run_gates(env, gates, (n - 1) as nat) {
            Ok(e) => apply_gate(e, gates[n - 1]),
            Err(e) => Err(e),
        }
    }
}

proof fn lemma_run_gates_error_stays(env: Map<usize, WireExpr>, gates: Seq<GateView>, i: nat, n: nat)
    requires
        i <= n,
        run_gates(env, gates, i) is Err,
    ensures
        run_gates(env, gates, n) == run_gates(env, gates, i),
    decreases n - i,
{
    if i < n {
        lemma_run_gates_error_stays(env, gates, i, (n - 1) as nat);
    }
}

/// Reads the two input wires and the output wire of a two-input gate.
fn get_binary_io(gate: &Gate, nodes: &std::collections::HashMap<usize, usize>) -> (res: Result<(usize, usize, usize), MpzTsError>)
    ensures
        match res {
            Ok((x, y, z)) => {
                &&& binary_io_error(nodes@.dom(), gate@) is None
                &&& x == nodes@[gate@.inputs[0]]
                &&& y == nodes@[gate@.inputs[1]]
                &&& z == gate@.outputs[0]
            },
            Err(e) => binary_io_error(nodes@.dom(), gate@) == Some(e@),
        },
{
    if gate.inputs.len() != 2 {
        return Err(MpzTsError::InvalidGate {
            gate: gate.clone(),
            message: "Binary gate must have exactly 2 inputs".to_owned(),
        });
    }
    if gate.outputs.len() != 1 {
        return Err(MpzTsError::InvalidGate {
            gate: gate.clone(),
            message: "Binary gate must have exactly 1 output".to_owned(),
        });
    }
    let x = match nodes.get(&gate.inputs[0]) {
        Some(x) => *x,
        None => {
            return Err(MpzTsError::InvalidGate { gate: gate.clone(), message: "Input wire not found".to_owned() });
        },
    };
    let y = match nodes.get(&gate.inputs[1]) {
        Some(y) => *y,
        None => {
            return Err(MpzTsError::InvalidGate { gate: gate.clone(), message: "Output wire not found".to_owned() });
        },
    };
    Ok((x, y, gate.outputs[0]))
}

/// Reads the input wire and the output wire of a one-input gate.
fn get_unary_io(gate: &Gate, nodes: &std::collections::HashMap<usize, usize>) -> (res: Result<(usize, usize), MpzTsError>)
    ensures
        match res {
            Ok((x, z)) => {
                &&& unary_io_error(nodes@.dom(), gate@) is None
                &&& x == nodes@[gate@.inputs[0]]
                &&& z == gate@.outputs[0]
            },
            Err(e) => unary_io_error(nodes@.dom(), gate@) == Some(e@),
        },
{
    if gate.inputs.len() != 1 {
        return Err(MpzTsError::InvalidGate {
            gate: gate.clone(),
            message: "Unary gate must have exactly 1 input".to_owned(),
        });
    }
    if gate.outputs.len() != 1 {
        return Err(MpzTsError::InvalidGate {
            gate: gate.clone(),
            message: "Unary gate must have exactly 1 output".to_owned(),
        });
    }
    let x = match nodes.get(&gate.inputs[0]) {
        Some(x) => *x,
        None => {
            return Err(MpzTsError::InvalidGate { gate: gate.clone(), message: "Input wire not found".to_owned() });
        },
    };
    Ok((x, gate.outputs[0]))
}

/// Applies one gate: a new node for AND, XOR, OR, NOT and AAdd, and for COPY
/// the output wire takes the node of the input wire.
fn lower_gate(
    gate: &Gate,
    nodes: &mut std::collections::HashMap<usize, usize>,
    plan: &mut Vec<CircuitNode>,
    Ghost(widths): Ghost<Seq<usize>>,
    Ghost(env): Ghost<Map<usize, WireExpr>>,
) -> (res: Result<(), MpzTsError>)
    requires
        tracks(old(nodes)@, old(plan)@, env),
        nodes_wf(widths, old(plan)@),
    ensures
        match res {
            Ok(()) => apply_gate(env, gate@) matches Ok(e) && tracks(final(nodes)@, final(plan)@, e),
            Err(err) => apply_gate(env, gate@) == Err::<Map<usize, WireExpr>, MpzTsErrorView>(err@),
        },
        nodes_wf(widths, final(plan)@),
{
    let op = match classify_op(&gate.op) {
        Some(op) => op,
        None => {
            return Err(MpzTsError::UnsupportedOp { op: gate.op.clone() });
        },
    };
    let ghost old_plan = plan@;
    let ghost n_in = input_nodes(widths).len();
    assert(nodes@.dom() == env.dom());
    if op == GateOp::Copy {
        let (x, z) = get_unary_io(gate, nodes)?;
        nodes.insert(z, x);
        proof {
            let new_env = env.insert(z, env[gate@.inputs[0]]);
            assert(apply_gate(env, gate@) == Ok::<Map<usize, WireExpr>, MpzTsErrorView>(new_env));
            assert(nodes@.dom() =~= new_env.dom());
            assert(env.contains_key(gate@.inputs[0]));
            assert forall|w: usize| #[trigger] new_env.contains_key(w) implies nodes@[w] < plan@.len()
                && node_exprs(plan@)[nodes@[w] as int] == new_env[w] by {
                if w != z {
                    assert(env.contains_key(w));
                }
            }
        }
        return Ok(());
    }
    let node = if op == GateOp::Not {
        let (x, z) = get_unary_io(gate, nodes)?;
        (CircuitNode::Not(x), z)
    } else {
        let (x, y, z) = get_binary_io(gate, nodes)?;
        assert(env.contains_key(gate@.inputs[1]));
        if op == GateOp::And {
            (CircuitNode::And(x, y), z)
        } else if op == GateOp::Xor {
            (CircuitNode::Xor(x, y), z)
        } else if op == GateOp::Or {
            (CircuitNode::Or(x, y), z)
        } else {
            (CircuitNode::Add(x, y), z)
        }
    };
    let (node, z) = node;
    let id = plan.len();
    plan.push(node);
    nodes.insert(z, id);
    proof {
        assert(env.contains_key(gate@.inputs[0]));
        lemma_node_exprs_push(old_plan, node);
        let y = if is_binary(op) { env[gate@.inputs[1]] } else { env[gate@.inputs[0]] };
        let new_env = env.insert(z, gate_expr(op, env[gate@.inputs[0]], y));
        assert(apply_gate(env, gate@) == Ok::<Map<usize, WireExpr>, MpzTsErrorView>(new_env));
        assert(nodes@.dom() =~= new_env.dom());
        assert(node_exprs(plan@)[id as int] == node_expr(node, node_exprs(old_plan)));
        assert forall|w: usize| #[trigger] new_env.contains_key(w) implies nodes@[w] < plan@.len()
            && node_exprs(plan@)[nodes@[w] as int] == new_env[w] by {
            if w != z {
                assert(env.contains_key(w));
            }
        }
        assert(plan@.take(n_in as int) =~= old_plan.take(n_in as int));
        assert forall|k: int| n_in <= k < plan@.len() implies reads_earlier(#[trigger] plan@[k], k) by {
            if k < old_plan.len() {
                assert(plan@[k] == old_plan[k]);
            }
        }
    }
    Ok(())
}

/// Applies every gate in order; stops at the first gate that cannot be
/// applied.
fn lower_gates(
    gates: &Vec<Gate>,
    nodes: &mut std::collections::HashMap<usize, usize>,
    plan: &mut Vec<CircuitNode>,
    Ghost(widths): Ghost<Seq<usize>>,
    Ghost(env): Ghost<Map<usize, WireExpr>>,
) -> (res: Result<(), MpzTsError>)
    requires
        tracks(old(nodes)@, old(plan)@, env),
        nodes_wf(widths, old(plan)@),
    ensures
        match res {
            Ok(()) => run_gates(env, gates@.map_values(|g: Gate| g@), gates@.len()) matches Ok(e) && tracks(final(nodes)@, final(plan)@, e),
            Err(err) => run_gates(env, gates@.map_values(|g: Gate| g@), gates@.len()) == Err::<Map<usize, WireExpr>, MpzTsErrorView>(err@),
        },
        nodes_wf(widths, final(plan)@),
{
    let ghost gv = gates@.map_values(|g: Gate| g@);
    let mut i: usize = 0;
    while i < gates.len()
        invariant
            i <= gates@.len() == gv.len(),
            gv == gates@.map_values(|g: Gate| g@),
            run_gates(env, gv, i as nat) matches Ok(e) && tracks(nodes@, plan@, e),
            nodes_wf(widths, plan@),
        decreases gates@.len() - i,
    {
        let ghost cur = run_gates(env, gv, i as nat)->Ok_0;
        let r = lower_gate(&gates[i], nodes, plan, Ghost(widths), Ghost(cur));
        assert(gv[i as int] == gates@[i as int]@);
        match r {
            Ok(()) => {},
            Err(e) => {
                proof {
                    lemma_run_gates_error_stays(env, gv, (i + 1) as nat, gv.len());
                }
                return Err(e);
            },
        }
        i = i + 1;
    }
    Ok(())
}

/// What bits `0 .. k` of an output starting at `wire` compute, or the first of
/// their wires that nothing drives.
pub open spec fn output_bits(env: Map<usize, WireExpr>, wire: usize, k: nat) -> Result<Seq<WireExpr>, usize>
    decreases k,
{
    if k == 0 {
        Ok(Seq::empty())
    } else {
        match output_bits(env, wire, (k - 1) as nat) {
            Ok(bits) => {
                let w = (wire + (k - 1)) as usize;
                if env.contains_key(w) {
                    Ok(bits.push(env[w]))
                } else {
                    Err(w)
                }
            },
            Err(w) => Err(w),
        }
    }
}

/// What the bits of the first `n` outputs compute, or the first wire among
/// them that nothing drives.
pub open spec fn outputs_exprs(env: Map<usize, WireExpr>, outputs: Seq<Entry>, widths: Seq<usize>, n: nat) -> Result<Seq<Seq<WireExpr>>, usize>
    decreases n,
{
    if n == 0 {
        Ok(Seq::empty())
    } else {
        match outputs_exprs(env, outputs, widths, (n - 1) as nat) {
            Ok(done) => match output_bits(env, outputs[n - 1].1, widths[n - 1] as nat) {
                Ok(bits) => Ok(done.push(bits)),
                Err(w) => Err(w),
            },
            Err(w) => Err(w),
        }
    }
}

proof fn lemma_output_bits_error_stays(env: Map<usize, WireExpr>, wire: usize, i: nat, n: nat)
    requires
        i <= n,
        output_bits(env, wire, i) is Err,
    ensures
        output_bits(env, wire, n) == output_bits(env, wire, i),
    decreases n - i,
{
    if i < n {
        lemma_output_bits_error_stays(env, wire, i, (n - 1) as nat);
    }
}

proof fn lemma_outputs_exprs_error_stays(env: Map<usize, WireExpr>, outputs: Seq<Entry>, widths: Seq<usize>, i: nat, n: nat)
    requires
        i <= n,
        outputs_exprs(env, outputs, widths, i) is Err,
    ensures
        outputs_exprs(env, outputs, widths, n) == outputs_exprs(env, outputs, widths, i),
    decreases n - i,
{
    if i < n {
        lemma_outputs_exprs_error_stays(env, outputs, widths, i, (n - 1) as nat);
    }
}

/// The expressions of the nodes that each output's bits name.
pub open spec fn ids_exprs(plan: Seq<CircuitNode>, ids: Seq<Vec<usize>>) -> Seq<Seq<WireExpr>> {
    let exprs = node_exprs(plan);
    ids.map_values(|v: Vec<usize>| v@.map_values(|id: usize| exprs[id as int]))
}

/// The first `k` bits of an output starting at `wire` are read without a
/// wire index leaving `usize`; reading stops at the first wire nothing drives.
pub open spec fn bits_fit(env: Map<usize, WireExpr>, wire: usize, k: nat) -> bool
    decreases k,
{
    if k == 0 {
        true
    } else {
        &&& bits_fit(env, wire, (k - 1) as nat)
        &&& output_bits(env, wire, (k - 1) as nat) is Ok ==> wire + (k - 1) <= usize::MAX
    }
}

/// The bits of the first `n` outputs are read without a wire index leaving
/// `usize`; reading stops at the first wire nothing drives.
pub open spec fn outputs_fit(env: Map<usize, WireExpr>, outputs: Seq<Entry>, widths: Seq<usize>, n: nat) -> bool
    decreases n,
{
    if n == 0 {
        true
    } else {
        &&& outputs_fit(env, outputs, widths, (n - 1) as nat)
        &&& outputs_exprs(env, outputs, widths, (n - 1) as nat) is Ok ==> bits_fit(env, outputs[n - 1].1, widths[n - 1] as nat)
    }
}

proof fn lemma_bits_fit_prefix(env: Map<usize, WireExpr>, wire: usize, i: nat, n: nat)
    requires
        i <= n,
        bits_fit(env, wire, n),
    ensures
        bits_fit(env, wire, i),
    decreases n - i,
{
    if i < n {
        lemma_bits_fit_prefix(env, wire, i, (n - 1) as nat);
    }
}

proof fn lemma_bits_fit_after_error(env: Map<usize, WireExpr>, wire: usize, i: nat, n: nat)
    requires
        i <= n,
        bits_fit(env, wire, i),
        output_bits(env, wire, i) is Err,
    ensures
        bits_fit(env, wire, n),
    decreases n - i,
{
    if i < n {
        lemma_bits_fit_after_error(env, wire, i, (n - 1) as nat);
        lemma_output_bits_error_stays(env, wire, i, (n - 1) as nat);
    }
}

proof fn lemma_outputs_fit_prefix(env: Map<usize, WireExpr>, outputs: Seq<Entry>, widths: Seq<usize>, i: nat, n: nat)
    requires
        i <= n,
        outputs_fit(env, outputs, widths, n),
    ensures
        outputs_fit(env, outputs, widths, i),
    decreases n - i,
{
    if i < n {
        lemma_outputs_fit_prefix(env, outputs, widths, i, (n - 1) as nat);
    }
}

proof fn lemma_outputs_fit_after_error(env: Map<usize, WireExpr>, outputs: Seq<Entry>, widths: Seq<usize>, i: nat, n: nat)
    requires
        i <= n,
        outputs_fit(env, outputs, widths, i),
        outputs_exprs(env, outputs, widths, i) is Err,
    ensures
        outputs_fit(env, outputs, widths, n),
    decreases n - i,
{
    if i < n {
        lemma_outputs_fit_after_error(env, outputs, widths, i, (n - 1) as nat);
        lemma_outputs_exprs_error_stays(env, outputs, widths, i, (n - 1) as nat);
    }
}

/// How a conversion can end other than with a circuit: an error the caller
/// gets, or a wire index that would leave `usize`.
enum Failure {
    Error(MpzTsError),
    Overflow,
}

/// Finds, for every bit of every output, the node that drives its wire.
fn collect_output_nodes(
    ordered: &Vec<(String, usize)>,
    widths: &Vec<usize>,
    nodes: &std::collections::HashMap<usize, usize>,
    Ghost(plan): Ghost<Seq<CircuitNode>>,
    Ghost(env): Ghost<Map<usize, WireExpr>>,
) -> (res: Result<Vec<Vec<usize>>, Failure>)
    requires
        tracks(nodes@, plan, env),
        ordered@.len() == widths@.len(),
    ensures
        match res {
            Ok(ids) => {
                &&& outputs_fit(env, entries_view(ordered@), widths@, ordered@.len())
                &&& outputs_exprs(env, entries_view(ordered@), widths@, ordered@.len()) == Ok::<Seq<Seq<WireExpr>>, usize>(ids_exprs(plan, ids@))
                &&& forall|o: int, j: int| 0 <= o < ids@.len() && 0 <= j < ids@[o]@.len() ==> #[trigger] ids@[o]@[j] < plan.len()
            },
            Err(Failure::Error(e)) => {
                &&& outputs_fit(env, entries_view(ordered@), widths@, ordered@.len())
                &&& outputs_exprs(env, entries_view(ordered@), widths@, ordered@.len()) matches Err(w)
                &&& e@ == MpzTsErrorView::OutputWireNotFound(w)
            },
            Err(Failure::Overflow) => !outputs_fit(env, entries_view(ordered@), widths@, ordered@.len()),
        },
{
    let ghost ov = entries_view(ordered@);
    let ghost wv = widths@;
    let mut all: Vec<Vec<usize>> = Vec::new();
    let mut i: usize = 0;
    assert(ids_exprs(plan, all@) =~= Seq::<Seq<WireExpr>>::empty());
    while i < ordered.len()
        invariant
            i <= ordered@.len() == widths@.len(),
            ov == entries_view(ordered@),
            wv == widths@,
            tracks(nodes@, plan, env),
            outputs_fit(env, ov, wv, i as nat),
            outputs_exprs(env, ov, wv, i as nat) == Ok::<Seq<Seq<WireExpr>>, usize>(ids_exprs(plan, all@)),
            forall|o: int, j: int| 0 <= o < all@.len() && 0 <= j < all@[o]@.len() ==> #[trigger] all@[o]@[j] < plan.len(),
        decreases ordered@.len() - i,
    {
        let wire = ordered[i].1;
        let width = widths[i];
        assert(ov[i as int].1 == wire);
        let mut ids: Vec<usize> = Vec::new();
        let mut j: usize = 0;
        assert(ids@.map_values(|id: usize| node_exprs(plan)[id as int]) =~= Seq::<WireExpr>::empty());
        while j < width
            invariant
                i < ordered@.len() == widths@.len() == ov.len() == wv.len(),
                ov == entries_view(ordered@),
                wv == widths@,
                wire == ov[i as int].1,
                width == wv[i as int],
                outputs_fit(env, ov, wv, i as nat),
                outputs_exprs(env, ov, wv, i as nat) == Ok::<Seq<Seq<WireExpr>>, usize>(ids_exprs(plan, all@)),
                j <= width,
                tracks(nodes@, plan, env),
                bits_fit(env, wire, j as nat),
                output_bits(env, wire, j as nat) == Ok::<Seq<WireExpr>, usize>(ids@.map_values(|id: usize| node_exprs(plan)[id as int])),
                forall|k: int| 0 <= k < ids@.len() ==> #[trigger] ids@[k] < plan.len(),
            decreases width - j,
        {
            if wire > usize::MAX - j {
                proof {
                    assert(!bits_fit(env, wire, (j + 1) as nat));
                    if bits_fit(env, wire, width as nat) {
                        lemma_bits_fit_prefix(env, wire, (j + 1) as nat, width as nat);
                    }
                    assert(!outputs_fit(env, ov, wv, (i + 1) as nat));
                    if outputs_fit(env, ov, wv, ov.len()) {
                        lemma_outputs_fit_prefix(env, ov, wv, (i + 1) as nat, ov.len());
                    }
                }
                return Err(Failure::Overflow);
            }
            let w = wire + j;
            let ghost before = ids@;
            match nodes.get(&w) {
                Some(id) => {
                    assert(env.contains_key(w));
                    ids.push(*id);
                    assert(ids@.map_values(|id: usize| node_exprs(plan)[id as int])
                        =~= before.map_values(|id: usize| node_exprs(plan)[id as int]).push(env[w]));
                },
                None => {
                    proof {
                        assert(!env.contains_key(w));
                        assert(bits_fit(env, wire, (j + 1) as nat));
                        lemma_bits_fit_after_error(env, wire, (j + 1) as nat, width as nat);
                        lemma_output_bits_error_stays(env, wire, (j + 1) as nat, width as nat);
                        assert(outputs_fit(env, ov, wv, (i + 1) as nat));
                        lemma_outputs_fit_after_error(env, ov, wv, (i + 1) as nat, ov.len());
                        lemma_outputs_exprs_error_stays(env, ov, wv, (i + 1) as nat, ov.len());
                    }
                    return Err(Failure::Error(MpzTsError::OutputWireNotFound { wire_index: w }));
                },
            }
            j = j + 1;
        }
        let ghost before_all = all@;
        all.push(ids);
        assert(ids_exprs(plan, all@) =~= ids_exprs(plan, before_all).push(ids@.map_values(|id: usize| node_exprs(plan)[id as int])));
        proof {
            assert forall|o: int, k: int| 0 <= o < all@.len() && 0 <= k < all@[o]@.len() implies #[trigger] all@[o]@[k] < plan.len() by {
                if o < before_all.len() {
                    assert(all@[o] == before_all[o]);
                }
            }
        }
        i = i + 1;
    }
    Ok(all)
}

/// The circuit uses the arithmetic addition of words.
pub open spec fn uses_addition(gates: Seq<GateView>) -> bool {
    exists|i: int| 0 <= i < gates.len() && gate_op(#[trigger] gates[i].op) == Some(GateOp::Add)
}

/// A circuit with an arithmetic addition carries 32-bit words on its wires;
/// any other carries bits.
pub open spec fn circuit_word(gates: Seq<GateView>) -> WordKind {
    if uses_addition(gates) {
        WordKind::U32
    } else {
        WordKind::Bit
    }
}

proof fn lemma_gate_op_add(op: Seq<char>)
    ensures
        gate_op(op) == Some(GateOp::Add) <==> op == "AAdd"@,
{
    reveal_strlit("AND");
    reveal_strlit("XOR");
    reveal_strlit("OR");
    reveal_strlit("NOT");
    reveal_strlit("COPY");
    reveal_strlit("AAdd");
    if op == "AAdd"@ {
        assert(op[0] == 'A' && op.len() == 4);
        assert(op != "AND"@);
        assert(op != "XOR"@);
        assert(op != "OR"@);
        assert(op != "NOT"@);
        assert(op != "COPY"@);
    }
}

/// A circuit's wires carry 32-bit words exactly when some gate, at any
/// position, is named `AAdd`; otherwise they carry bits.
pub proof fn lemma_word_kind_follows_any_addition(gates: Seq<GateView>)
    ensures
        circuit_word(gates) == WordKind::U32 <==> exists|i: int| 0 <= i < gates.len() && (#[trigger] gates[i]).op == "AAdd"@,
        circuit_word(gates) == WordKind::Bit <==> forall|i: int| 0 <= i < gates.len() ==> (#[trigger] gates[i]).op != "AAdd"@,
{
    if circuit_word(gates) == WordKind::U32 {
        let i = choose|i: int| 0 <= i < gates.len() && gate_op(#[trigger] gates[i].op) == Some(GateOp::Add);
        lemma_gate_op_add(gates[i].op);
        assert(gates[i].op == "AAdd"@);
    }
    assert forall|i: int| 0 <= i < gates.len() && (#[trigger] gates[i]).op == "AAdd"@ implies circuit_word(gates) == WordKind::U32 by {
        lemma_gate_op_add(gates[i].op);
        assert(gate_op(gates[i].op) == Some(GateOp::Add));
    }
}

/// The kind of a circuit's wires does not depend on the order of its gates:
/// listing the same gates in any order gives the same kind.
pub proof fn lemma_word_kind_ignores_gate_order(g1: Seq<GateView>, g2: Seq<GateView>)
    requires
        g1.to_multiset() == g2.to_multiset(),
    ensures
        circuit_word(g1) == circuit_word(g2),
{
    broadcast use vstd::seq_lib::group_seq_properties;

    lemma_word_kind_follows_any_addition(g1);
    lemma_word_kind_follows_any_addition(g2);
    if exists|i: int| 0 <= i < g1.len() && (#[trigger] g1[i]).op == "AAdd"@ {
        let i = choose|i: int| 0 <= i < g1.len() && (#[trigger] g1[i]).op == "AAdd"@;
        assert(g1.contains(g1[i]));
        assert(g2.to_multiset().count(g1[i]) > 0);
        assert(g2.contains(g1[i]));
        let j = choose|j: int| 0 <= j < g2.len() && g2[j] == g1[i];
        assert(g2[j].op == "AAdd"@);
    }
    if exists|j: int| 0 <= j < g2.len() && (#[trigger] g2[j]).op == "AAdd"@ {
        let j = choose|j: int| 0 <= j < g2.len() && (#[trigger] g2[j]).op == "AAdd"@;
        assert(g2.contains(g2[j]));
        assert(g1.to_multiset().count(g2[j]) > 0);
        assert(g1.contains(g2[j]));
        let i = choose|i: int| 0 <= i < g1.len() && g1[i] == g2[j];
        assert(g1[i].op == "AAdd"@);
    }
}

fn find_word(gates: &Vec<Gate>) -> (word: WordKind)
    ensures
        word == circuit_word(gates@.map_values(|g: Gate| g@)),
{
    let ghost gv = gates@.map_values(|g: Gate| g@);
    let mut i: usize = 0;
    while i < gates.len()
        invariant
            i <= gates@.len() == gv.len(),
            gv == gates@.map_values(|g: Gate| g@),
            forall|k: int| 0 <= k < i ==> gate_op(#[trigger] gv[k].op) != Some(GateOp::Add),
        decreases gates@.len() - i,
    {
        assert(gv[i as int] == gates@[i as int]@);
        match classify_op(&gates[i].op) {
            Some(GateOp::Add) => {
                assert(gate_op(gv[i as int].op) == Some(GateOp::Add));
                return WordKind::U32;
            },
            _ => {},
        }
        i = i + 1;
    }
    WordKind::Bit
}

/// The result of a successful conversion, as plain values: what the wires
/// carry, the inputs and the outputs, each with its width, and what each word
/// of each output computes.
pub struct ConversionView {
    pub word: WordKind,
    pub inputs: Seq<Entry>,
    pub outputs: Seq<Entry>,
    pub output_exprs: Seq<Seq<WireExpr>>,
}

/// What converting a Bristol circuit gives: the circuit must give input and
/// output widths and no constants, must name as many inputs (outputs) as it
/// gives widths, and its gates must apply in order to the wires its inputs,
/// ordered by wire index, are laid on; then each output, ordered by wire
/// index, computes what its wires carry after the last gate. The wires carry
/// 32-bit words when some gate adds (`AAdd`), bits otherwise.
pub open spec fn conversion(c: BristolCircuitView) -> Result<ConversionView, MpzTsErrorView> {
    match c.io_widths {
        None => Err(MpzTsErrorView::ArithmeticCircuitNotSupported),
        Some((iw, ow)) => {
            let ins = sort_by_wire(c.inputs);
            let outs = sort_by_wire(c.outputs);
            if c.constant_count != 0 {
                Err(MpzTsErrorView::ArithmeticCircuitNotSupported)
            } else if ins.len() != iw.len() {
                Err(MpzTsErrorView::IoMismatch)
            } else if outs.len() != ow.len() {
                Err(MpzTsErrorView::IoMismatch)
            } else {
                match run_gates(input_env(ins, iw, ins.len()), c.gates, c.gates.len()) {
                    Err(e) => Err(e),
                    Ok(env) => match outputs_exprs(env, outs, ow, outs.len()) {
                        Err(w) => Err(MpzTsErrorView::OutputWireNotFound(w)),
                        Ok(exprs) => Ok(
                            ConversionView {
                                word: circuit_word(c.gates),
                                inputs: named_widths(ins, iw),
                                outputs: named_widths(outs, ow),
                                output_exprs: exprs,
                            },
                        ),
                    },
                }
            }
        },
    }
}

/// Every wire index the conversion computes stays within `usize`: those of
/// the inputs' words, once the widths are given, there are no constants and
/// the name counts match; those of the outputs' words, once every gate has
/// applied, up to the first output wire that nothing drives.
pub open spec fn wire_ranges_fit(c: BristolCircuitView) -> bool {
    match c.io_widths {
        None => true,
        Some((iw, ow)) => {
            let ins = sort_by_wire(c.inputs);
            let outs = sort_by_wire(c.outputs);
            ||| c.constant_count != 0
            ||| ins.len() != iw.len()
            ||| outs.len() != ow.len()
            ||| {
                &&& pairs_fit(ins, iw)
                &&& match run_gates(input_env(ins, iw, ins.len()), c.gates, c.gates.len()) {
                    Err(_) => true,
                    Ok(env) => outputs_fit(env, outs, ow, outs.len()),
                }
            }
        },
    }
}

/// Each entry's wire index plus the width at the same position stays within
/// `usize`.
pub open spec fn pairs_fit(entries: Seq<Entry>, widths: Seq<usize>) -> bool {
    forall|i: int| 0 <= i < entries.len() ==> #[trigger] entries[i].1 + widths[i] <= usize::MAX + 1
}

/// A circuit together with the names and widths of its inputs and outputs.
#[derive(Debug, PartialEq, Eq)]
pub struct AnnotatedMpzCircuit {
    pub circuit: Circuit,
    pub inputs: Vec<(String, usize)>,
    pub outputs: Vec<(String, usize)>,
}

impl AnnotatedMpzCircuit {
    /// The plain content of the result: the wires' kind, names, widths and
    /// what each output word computes.
    pub open spec fn summary(&self) -> ConversionView {
        ConversionView {
            word: self.circuit.word,
            inputs: entries_view(self.inputs@),
            outputs: entries_view(self.outputs@),
            output_exprs: self.circuit.output_exprs(),
        }
    }

    /// The result is well formed and its circuit's input widths are those of
    /// its named inputs.
    pub open spec fn consistent(&self) -> bool {
        &&& self.circuit.wf()
        &&& self.circuit.input_widths@.len() == self.inputs@.len()
        &&& forall|i: int| 0 <= i < self.inputs@.len() ==> #[trigger] self.circuit.input_widths@[i] == self.inputs@[i].1
    }
}

fn convert(circuit: &BristolCircuit) -> (res: Result<AnnotatedMpzCircuit, Failure>)
    ensures
        match res {
            Ok(a) => wire_ranges_fit(circuit@) && conversion(circuit@) == Ok::<ConversionView, MpzTsErrorView>(a.summary()) && a.consistent(),
            Err(Failure::Error(e)) => wire_ranges_fit(circuit@) && conversion(circuit@) == Err::<ConversionView, MpzTsErrorView>(e@),
            Err(Failure::Overflow) => !wire_ranges_fit(circuit@),
        },
{
    let (input_widths, output_widths) = match &circuit.io_widths {
        Some(widths) => (&widths.0, &widths.1),
        None => {
            return Err(Failure::Error(MpzTsError::ArithmeticCircuitNotSupported));
        },
    };
    if circuit.info.constants.len() != 0 {
        return Err(Failure::Error(MpzTsError::ArithmeticCircuitNotSupported));
    }
    let ordered_inputs = sort_by_wire_index(&circuit.info.input_name_to_wire_index);
    if ordered_inputs.len() != input_widths.len() {
        return Err(Failure::Error(MpzTsError::IoMismatch));
    }
    let ordered_outputs = sort_by_wire_index(&circuit.info.output_name_to_wire_index);
    if ordered_outputs.len() != output_widths.len() {
        return Err(Failure::Error(MpzTsError::IoMismatch));
    }
    let ghost ins = entries_view(ordered_inputs@);
    let ghost outs = entries_view(ordered_outputs@);
    let ghost iw = input_widths@;
    let ghost ow = output_widths@;
    if !ranges_fit(&ordered_inputs, input_widths) {
        return Err(Failure::Overflow);
    }
    assert(forall|i: int| 0 <= i < ordered_inputs@.len() ==> #[trigger] ordered_inputs@[i].1 == ins[i].1);

    let mut nodes: std::collections::HashMap<usize, usize> = std::collections::HashMap::new();
    let mut plan: Vec<CircuitNode> = Vec::new();
    let inputs = add_input_nodes(&ordered_inputs, input_widths, &mut nodes, &mut plan);
    let ghost env0 = input_env(ins, iw, ins.len());
    proof {
        assert(plan@.take(plan@.len() as int) =~= plan@);
    }
    let word = find_word(&circuit.gates);
    match lower_gates(&circuit.gates, &mut nodes, &mut plan, Ghost(iw), Ghost(env0)) {
        Ok(()) => {},
        Err(e) => {
            return Err(Failure::Error(e));
        },
    }
    let ghost env1 = run_gates(env0, circuit@.gates, circuit@.gates.len())->Ok_0;
    let output_nodes = collect_output_nodes(&ordered_outputs, output_widths, &nodes, Ghost(plan@), Ghost(env1))?;

    let mut outputs: Vec<(String, usize)> = Vec::new();
    let mut i: usize = 0;
    while i < ordered_outputs.len()
        invariant
            i <= ordered_outputs@.len() == ow.len(),
            outs == entries_view(ordered_outputs@),
            ow == output_widths@,
            entries_view(outputs@) == named_widths(outs, ow).take(i as int),
        decreases ordered_outputs@.len() - i,
    {
        let ghost before = outputs@;
        outputs.push((ordered_outputs[i].0.clone(), output_widths[i]));
        assert(entries_view(outputs@) =~= entries_view(before).push((outs[i as int].0, ow[i as int])));
        assert(entries_view(outputs@) =~= named_widths(outs, ow).take(i + 1));
        i = i + 1;
    }
    assert(named_widths(outs, ow).take(i as int) =~= named_widths(outs, ow));

    let result = AnnotatedMpzCircuit {
        circuit: Circuit { word, input_widths: copy_wires(input_widths), nodes: plan, outputs: output_nodes },
        inputs,
        outputs,
    };
    assert(result.circuit.output_exprs() =~= ids_exprs(plan@, output_nodes@));
    assert(circuit@.io_widths == Some((iw, ow)));
    assert(result.summary().inputs == named_widths(ins, iw));
    assert(result.summary().outputs == named_widths(outs, ow));
    assert(conversion(circuit@) == Ok::<ConversionView, MpzTsErrorView>(result.summary()));
    assert(result.circuit.wf());
    assert forall|i: int| 0 <= i < result.inputs@.len() implies #[trigger] result.circuit.input_widths@[i] == result.inputs@[i].1 by {
        assert(entries_view(result.inputs@)[i] == named_widths(ins, iw)[i]);
    }
    Ok(result)
}

/// Converts a Bristol circuit into a [`Circuit`], naming its inputs and
/// outputs in order of wire index.
pub fn mpz_circuit_from_bristol(circuit: &BristolCircuit) -> (res: Result<AnnotatedMpzCircuit, MpzTsError>)
    requires
        wire_ranges_fit(circuit@),
    ensures
        match res {
            Ok(a) => conversion(circuit@) == Ok::<ConversionView, MpzTsErrorView>(a.summary()) && a.consistent(),
            Err(e) => conversion(circuit@) == Err::<ConversionView, MpzTsErrorView>(e@),
        },
{
    match convert(circuit) {
        Ok(a) => Ok(a),
        Err(Failure::Error(e)) => Err(e),
        Err(Failure::Overflow) => {
            proof {
                assert(false);
            }
            Err(MpzTsError::IoMismatch)
        },
    }
}

fn ranges_fit(ordered: &Vec<(String, usize)>, widths: &Vec<usize>) -> (res: bool)
    requires
        ordered@.len() == widths@.len(),
    ensures
        res == pairs_fit(entries_view(ordered@), widths@),
{
    let mut i: usize = 0;
    while i < ordered.len()
        invariant
            i <= ordered@.len() == widths@.len(),
            forall|k: int| 0 <= k < i ==> #[trigger] entries_view(ordered@)[k].1 + widths@[k] <= usize::MAX + 1,
        decreases ordered@.len() - i,
    {
        let wire = ordered[i].1;
        assert(entries_view(ordered@)[i as int].1 == wire);
        let width = widths[i];
        if width > 0 && wire > usize::MAX - (width - 1) {
            return false;
        }
        i = i + 1;
    }
    true
}

/// Whether [`mpz_circuit_from_bristol`] can compute every wire index it needs
/// without leaving `usize`.
pub fn check_wire_ranges(circuit: &BristolCircuit) -> (res: bool)
    ensures
        res == wire_ranges_fit(circuit@),
{
    match convert(circuit) {
        Err(Failure::Overflow) => false,
        _ => true,
    }
}

proof fn lemma_output_bits_len(env: Map<usize, WireExpr>, wire: usize, k: nat)
    ensures
        output_bits(env, wire, k) matches Ok(bits) ==> bits.len() == k,
    decreases k,
{
    if k > 0 {
        lemma_output_bits_len(env, wire, (k - 1) as nat);
    }
}

proof fn lemma_outputs_exprs_len(env: Map<usize, WireExpr>, outputs: Seq<Entry>, widths: Seq<usize>, n: nat)
    ensures
        outputs_exprs(env, outputs, widths, n) matches Ok(exprs) ==> exprs.len() == n && forall|o: int|
            0 <= o < n ==> (#[trigger] exprs[o]).len() == widths[o],
    decreases n,
{
    if n > 0 {
        lemma_outputs_exprs_len(env, outputs, widths, (n - 1) as nat);
        lemma_output_bits_len(env, outputs[n - 1].1, widths[n - 1] as nat);
    }
}

/// A converted circuit has one output per named output, in the order of the
/// outputs' wire indices, and each output has exactly as many bits as the
/// width the Bristol header gives it; likewise each input keeps its width.
pub proof fn lemma_conversion_widths(c: BristolCircuitView)
    requires
        conversion(c) is Ok,
    ensures
        ({
            let v = conversion(c)->Ok_0;
            let (iw, ow) = c.io_widths->Some_0;
            &&& v.inputs.len() == iw.len()
            &&& forall|i: int| 0 <= i < iw.len() ==> (#[trigger] v.inputs[i]).1 == iw[i]
            &&& v.outputs.len() == ow.len() == v.output_exprs.len()
            &&& forall|o: int| 0 <= o < ow.len() ==> (#[trigger] v.outputs[o]).1 == ow[o] && v.output_exprs[o].len() == ow[o]
        }),
{
    let (iw, ow) = c.io_widths->Some_0;
    let ins = sort_by_wire(c.inputs);
    let outs = sort_by_wire(c.outputs);
    let env = run_gates(input_env(ins, iw, ins.len()), c.gates, c.gates.len())->Ok_0;
    lemma_outputs_exprs_len(env, outs, ow, outs.len());
}

/// Evaluating a converted circuit on any input words gives every output word
/// the value of what the Bristol circuit's output wire carries after its last
/// gate, evaluated on the same input words.
pub proof fn lemma_conversion_evaluates_bristol(c: BristolCircuitView, a: &AnnotatedMpzCircuit, inputs: Seq<Seq<u32>>)
    requires
        conversion(c) == Ok::<ConversionView, MpzTsErrorView>(a.summary()),
        a.consistent(),
    ensures
        forall|o: int, j: int|
            0 <= o < a.circuit.outputs@.len() && 0 <= j < a.circuit.outputs@[o]@.len() ==> #[trigger] a.circuit.output_words(inputs)[o][j]
                == eval_expr(conversion(c)->Ok_0.word, conversion(c)->Ok_0.output_exprs[o][j], inputs),
{
    lemma_output_words_match_exprs(&a.circuit, inputs);
}

} // verus!
