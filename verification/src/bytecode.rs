//! The compiler: lowering a topologically ordered graph to a linear tape.
//!
//! The ledger is re-ordered for the tape: the formulas of the order occupy
//! storage slots `0..F` in execution order — instruction `i` writes slot
//! `i` — and the constants, series and solver variables follow at `F..N`.
//! One instruction is emitted per formula: its opcode byte, the storage
//! slots of its two parents, and the lag for a temporal shift.
//!
//! Because parents precede their nodes in the order, instruction `i` only
//! ever reads slots below `i` or input slots at `F` and beyond — never the
//! slot it writes. `lemma_tape_reads_precede` states that fact, which is
//! what allows a kernel to process rows without aliasing checks.

use vstd::prelude::*;
use crate::ledger::ComputationError;
use crate::registry::Registry;
use crate::topology::{is_topo_order, seq_pos};
use crate::types::{NodeId, NodeKind, Operation};

verus! {

/// The fixed instruction encoding of the tape.
#[derive(Debug, Clone, Copy, PartialEq, Eq, Structural)]
pub enum OpCode {
    Add,
    Sub,
    Mul,
    Div,
    Prev,
    Identity,
}

/// The byte values of the encoding are fixed: Add is 0, Sub 1, Mul 2,
/// Div 3, Prev 4, Identity 5.
pub open spec fn opcode_byte(c: OpCode) -> u8 {
    match c {
        OpCode::Add => 0,
        OpCode::Sub => 1,
        OpCode::Mul => 2,
        OpCode::Div => 3,
        OpCode::Prev => 4,
        OpCode::Identity => 5,
    }
}

impl OpCode {
    /// The opcode's byte in the tape encoding.
    pub fn as_byte(self) -> (r: u8)
        ensures
            r == opcode_byte(self),
    {
        match self {
            OpCode::Add => 0,
            OpCode::Sub => 1,
            OpCode::Mul => 2,
            OpCode::Div => 3,
            OpCode::Prev => 4,
            OpCode::Identity => 5,
        }
    }
}

/// The opcode of a formula operation.
pub open spec fn op_opcode(op: Operation) -> OpCode {
    match op {
        Operation::Add => OpCode::Add,
        Operation::Subtract => OpCode::Sub,
        Operation::Multiply => OpCode::Mul,
        Operation::Divide => OpCode::Div,
        Operation::PreviousValue { .. } => OpCode::Prev,
    }
}

/// The auxiliary word of an instruction: the lag of a temporal shift,
/// zero otherwise.
pub open spec fn op_aux(op: Operation) -> u32 {
    match op {
        Operation::PreviousValue { lag, .. } => lag,
        _ => 0,
    }
}

/// The compiled tape in structure-of-arrays form.
#[derive(Debug)]
pub struct Program {
    /// One opcode byte per instruction.
    pub ops: Vec<u8>,
    /// Source storage slots of the two parents.
    pub p1: Vec<u32>,
    pub p2: Vec<u32>,
    /// Auxiliary data: the lag of a temporal shift, zero otherwise.
    pub aux: Vec<u32>,
    /// The topological execution order the tape was compiled from.
    pub order: Vec<NodeId>,
    /// Node id to storage slot.
    pub layout: Vec<u32>,
    /// Where the input slots begin: the number of instructions.
    pub input_start_index: usize,
}

/// Whether the node is a formula (and so occupies a computed slot).
pub open spec fn is_formula(reg: &Registry, n: int) -> bool {
    reg.kinds@[n] matches NodeKind::Formula(_)
}

/// How many of the first `t` entries of the order are formulas.
pub open spec fn fcount(reg: &Registry, order: Seq<NodeId>, t: int) -> int
    decreases t,
{
    if t <= 0 {
        0
    } else {
        fcount(reg, order, t - 1) + if is_formula(reg, order[t - 1].0 as int) { 1int } else { 0int }
    }
}

/// The formula count grows by at most one per step and never falls.
pub proof fn lemma_fcount_mono(reg: &Registry, order: Seq<NodeId>, a: int, b: int)
    requires
        0 <= a <= b,
    ensures
        fcount(reg, order, a) <= fcount(reg, order, b),
        fcount(reg, order, b) - fcount(reg, order, a) <= b - a,
        0 <= fcount(reg, order, a) <= a,
    decreases b,
{
    if b > a {
        lemma_fcount_mono(reg, order, a, b - 1);
    } else if a > 0 {
        lemma_fcount_mono(reg, order, 0, a - 1);
    }
}

/// A strictly earlier formula has a strictly smaller formula index.
pub proof fn lemma_fcount_strict(reg: &Registry, order: Seq<NodeId>, a: int, b: int)
    requires
        0 <= a < b,
        is_formula(reg, order[a].0 as int),
    ensures
        fcount(reg, order, a) < fcount(reg, order, b),
    decreases b,
{
    if b == a + 1 {
        lemma_fcount_mono(reg, order, 0, a);
    } else {
        lemma_fcount_strict(reg, order, a, b - 1);
    }
}

/// The layout a compiled program must give every node of the order:
/// formula `t` sits at its formula index, an input sits after all
/// formulas, offset by its input index.
pub open spec fn layout_spec(reg: &Registry, order: Seq<NodeId>, t: int) -> int {
    if is_formula(reg, order[t].0 as int) {
        fcount(reg, order, t)
    } else {
        fcount(reg, order, order.len() as int) + (t - fcount(reg, order, t))
    }
}

/// The whole contract of a compiled program against its order.
pub open spec fn compiled_ok(reg: &Registry, order: Seq<NodeId>, prog: &Program) -> bool {
    let f_total = fcount(reg, order, order.len() as int);
    &&& prog.order@ == order
    &&& prog.input_start_index == f_total
    &&& prog.ops@.len() == f_total
    &&& prog.p1@.len() == f_total
    &&& prog.p2@.len() == f_total
    &&& prog.aux@.len() == f_total
    &&& prog.layout@.len() == reg.kinds@.len()
    &&& forall|t: int| 0 <= t < order.len()
        ==> (#[trigger] prog.layout@[order[t].0 as int]) as int == layout_spec(reg, order, t)
    &&& forall|t: int|
        #![trigger is_formula(reg, order[t].0 as int)]
        0 <= t < order.len() && is_formula(reg, order[t].0 as int)
        ==> {
            let k = fcount(reg, order, t);
            let n = order[t].0 as int;
            match reg.kinds@[n] {
                NodeKind::Formula(op) => {
                    let ps = reg.parents_seq(n);
                    &&& prog.ops@[k] == opcode_byte(op_opcode(op))
                    &&& prog.aux@[k] == op_aux(op)
                    &&& prog.p1@[k] as int == (if ps.len() >= 1 {
                        prog.layout@[ps[0].0 as int] as int
                    } else {
                        0
                    })
                    &&& prog.p2@[k] as int == (if ps.len() >= 2 {
                        prog.layout@[ps[1].0 as int] as int
                    } else {
                        0
                    })
                },
                _ => false,
            }
        }
}

/// Reads never alias the in-flight write: instruction `k`'s source slots
/// are either below `k` — already written — or input slots at or beyond
/// `input_start_index`. This is what lets a kernel elide aliasing checks.
pub proof fn lemma_tape_reads_precede(
    reg: &Registry,
    order: Seq<NodeId>,
    prog: &Program,
    t: int,
    j: int,
)
    requires
        reg.wf(),
        is_topo_order(reg, order),
        compiled_ok(reg, order, prog),
        0 <= t < order.len(),
        is_formula(reg, order[t].0 as int),
        0 <= j < reg.parents_seq(order[t].0 as int).len(),
    ensures
        ({
            let k = fcount(reg, order, t);
            let slot = prog.layout@[reg.parents_seq(order[t].0 as int)[j].0 as int] as int;
            slot < k || slot >= prog.input_start_index
        }),
{
    let n = order[t].0 as int;
    let p = reg.parents_seq(n)[j].0;
    let tp = seq_pos(order, p);
    assert(0 <= tp < t && order[tp].0 == p);
    assert(prog.layout@[order[tp].0 as int] as int == layout_spec(reg, order, tp));
    if is_formula(reg, p as int) {
        lemma_fcount_strict(reg, order, tp, t);
    } else {
        lemma_fcount_mono(reg, order, tp, order.len() as int);
        assert(layout_spec(reg, order, tp)
            == fcount(reg, order, order.len() as int) + (tp - fcount(reg, order, tp)));
        lemma_fcount_mono(reg, order, 0, tp);
    }
}

/// The compiler: lowers a registry and a topological order to a tape.
pub struct Compiler<'a> {
    pub registry: &'a Registry,
}

impl<'a> Compiler<'a> {
    /// A compiler over the given registry.
    pub fn new(registry: &'a Registry) -> (r: Self)
        ensures
            r.registry == registry,
    {
        Compiler { registry }
    }

    /// Compiles the order into a linear program: formulas take slots
    /// `0..F` in order, inputs take `F..N`, and instruction `i` encodes
    /// the `i`-th formula over its parents' slots.
    pub fn compile(&self, execution_order: Vec<NodeId>) -> (r: Result<Program, ComputationError>)
        requires
            self.registry.wf(),
            is_topo_order(self.registry, execution_order@),
        ensures
            r matches Ok(prog) ==> compiled_ok(self.registry, execution_order@, &prog),
            r is Ok,
    {
        let reg = self.registry;
        let node_count = reg.count();
        let order_len = execution_order.len();
        let ghost order = execution_order@;

        // 1. Partition: formulas in order, inputs in order.
        let mut formulas: Vec<NodeId> = Vec::new();
        let mut inputs: Vec<NodeId> = Vec::new();
        let ghost mut fpos: Seq<int> = Seq::empty();
        let ghost mut ipos: Seq<int> = Seq::empty();
        let mut t: usize = 0;
        while t < order_len
            invariant
                0 <= t <= order_len,
                order_len == order.len(),
                order == execution_order@,
                reg == self.registry,
                reg.wf(),
                is_topo_order(reg, order),
                node_count == reg.kinds@.len(),
                formulas@.len() == fcount(reg, order, t as int),
                formulas@.len() + inputs@.len() == t,
                fpos.len() == formulas@.len(),
                ipos.len() == inputs@.len(),
                forall|k: int| 0 <= k < formulas@.len()
                    ==> 0 <= #[trigger] fpos[k] < t
                        && order[fpos[k]] == formulas@[k]
                        && is_formula(reg, order[fpos[k]].0 as int)
                        && fcount(reg, order, fpos[k]) == k,
                forall|k: int| 0 <= k < inputs@.len()
                    ==> 0 <= #[trigger] ipos[k] < t
                        && order[ipos[k]] == inputs@[k]
                        && !is_formula(reg, order[ipos[k]].0 as int)
                        && ipos[k] - fcount(reg, order, ipos[k]) == k,
            decreases order_len - t,
        {
            let node = execution_order[t];
            proof {
                assert((node.0 as int) < reg.kinds@.len());
            }
            match reg.kinds[node.index()] {
                NodeKind::Formula(_) => {
                    formulas.push(node);
                    proof {
                        fpos = fpos.push(t as int);
                    }
                },
                _ => {
                    inputs.push(node);
                    proof {
                        ipos = ipos.push(t as int);
                        assert(ipos[ipos.len() - 1] - fcount(reg, order, t as int)
                            == inputs@.len() - 1);
                    }
                },
            }
            t = t + 1;
        }
        let f_total = formulas.len();
        let input_count = inputs.len();
        proof {
            // The partition inherits bounds and distinctness from the order.
            assert forall|q: int| 0 <= q < formulas@.len()
                implies ((#[trigger] formulas@[q]).0 as int) < node_count
                    && is_formula(reg, formulas@[q].0 as int) by {
                assert(order[fpos[q]] == formulas@[q]);
            }
            assert forall|q: int| 0 <= q < inputs@.len()
                implies ((#[trigger] inputs@[q]).0 as int) < node_count by {
                assert(order[ipos[q]] == inputs@[q]);
            }
            assert forall|q1: int, q2: int|
                #![trigger formulas@[q1].0, formulas@[q2].0]
                0 <= q1 < q2 < formulas@.len()
                implies formulas@[q1].0 != formulas@[q2].0 by {
                assert(fcount(reg, order, fpos[q1]) == q1);
                assert(fcount(reg, order, fpos[q2]) == q2);
                if fpos[q1] < fpos[q2] {
                    assert(order[fpos[q1]].0 != order[fpos[q2]].0);
                } else if fpos[q2] < fpos[q1] {
                    assert(order[fpos[q2]].0 != order[fpos[q1]].0);
                }
            }
            assert forall|q1: int, q2: int|
                #![trigger inputs@[q1].0, inputs@[q2].0]
                0 <= q1 < q2 < inputs@.len()
                implies inputs@[q1].0 != inputs@[q2].0 by {
                assert(ipos[q1] - fcount(reg, order, ipos[q1]) == q1);
                assert(ipos[q2] - fcount(reg, order, ipos[q2]) == q2);
                if ipos[q1] < ipos[q2] {
                    assert(order[ipos[q1]].0 != order[ipos[q2]].0);
                } else if ipos[q2] < ipos[q1] {
                    assert(order[ipos[q2]].0 != order[ipos[q1]].0);
                }
            }
            assert forall|q1: int, q2: int|
                #![trigger formulas@[q1].0, inputs@[q2].0]
                0 <= q1 < formulas@.len() && 0 <= q2 < inputs@.len()
                implies formulas@[q1].0 != inputs@[q2].0 by {
                if fpos[q1] == ipos[q2] {
                    assert(is_formula(reg, order[fpos[q1]].0 as int));
                    assert(!is_formula(reg, order[ipos[q2]].0 as int));
                } else if fpos[q1] < ipos[q2] {
                    assert(order[fpos[q1]].0 != order[ipos[q2]].0);
                } else {
                    assert(order[ipos[q2]].0 != order[fpos[q1]].0);
                }
            }
            assert(f_total + input_count == order.len());
            assert(order.len() == reg.kinds@.len());
        }

        // 2. Storage slots: formulas first, inputs after, walking the
        // order once with a counter for each side.
        let mut layout: Vec<u32> = vec![0xFFFF_FFFFu32; node_count];
        let mut fc: usize = 0;
        let mut ic: usize = 0;
        let mut t2: usize = 0;
        proof {
            assert(f_total == fcount(reg, order, order.len() as int));
        }
        while t2 < order_len
            invariant
                0 <= t2 <= order_len,
                order_len == order.len(),
                order == execution_order@,
                reg == self.registry,
                reg.wf(),
                is_topo_order(reg, order),
                node_count == reg.kinds@.len(),
                layout@.len() == node_count,
                f_total == fcount(reg, order, order.len() as int),
                fc == fcount(reg, order, t2 as int),
                ic == t2 - fc,
                forall|u: int| 0 <= u < t2
                    ==> (#[trigger] layout@[order[u].0 as int]) as int
                        == layout_spec(reg, order, u),
            decreases order_len - t2,
        {
            let node = execution_order[t2];
            proof {
                assert((node.0 as int) < reg.kinds@.len());
                lemma_fcount_mono(reg, order, t2 as int, order.len() as int);
                lemma_fcount_mono(reg, order, 0, t2 as int);
            }
            let ghost layout0 = layout@;
            match reg.kinds[node.index()] {
                NodeKind::Formula(_) => {
                    layout.set(node.index(), fc as u32);
                    fc = fc + 1;
                },
                _ => {
                    layout.set(node.index(), (f_total + ic) as u32);
                    ic = ic + 1;
                },
            }
            proof {
                assert forall|u: int| 0 <= u < t2 + 1
                    implies (#[trigger] layout@[order[u].0 as int]) as int
                        == layout_spec(reg, order, u) by {
                    if u < t2 {
                        assert(order[u].0 != order[t2 as int].0);
                        assert(layout@[order[u].0 as int] == layout0[order[u].0 as int]);
                    }
                }
            }
            t2 = t2 + 1;
        }
        proof {
            assert(order.take(order_len as int) =~= order);
        }

        // 3. Emit one instruction per formula.
        let mut ops: Vec<u8> = Vec::new();
        let mut p1: Vec<u32> = Vec::new();
        let mut p2: Vec<u32> = Vec::new();
        let mut aux: Vec<u32> = Vec::new();
        let mut k3: usize = 0;
        while k3 < f_total
            invariant
                0 <= k3 <= f_total,
                f_total == formulas@.len(),
                reg == self.registry,
                reg.wf(),
                layout@.len() == node_count,
                node_count == reg.kinds@.len(),
                ops@.len() == k3,
                p1@.len() == k3,
                p2@.len() == k3,
                aux@.len() == k3,
                forall|q: int| 0 <= q < formulas@.len()
                    ==> ((#[trigger] formulas@[q]).0 as int) < node_count
                        && is_formula(reg, formulas@[q].0 as int),
                forall|q: int| 0 <= q < k3 ==> {
                    let n = (#[trigger] formulas@[q]).0 as int;
                    match reg.kinds@[n] {
                        NodeKind::Formula(op) => {
                            let ps = reg.parents_seq(n);
                            &&& ops@[q] == opcode_byte(op_opcode(op))
                            &&& aux@[q] == op_aux(op)
                            &&& p1@[q] as int == (if ps.len() >= 1 {
                                layout@[ps[0].0 as int] as int
                            } else {
                                0
                            })
                            &&& p2@[q] as int == (if ps.len() >= 2 {
                                layout@[ps[1].0 as int] as int
                            } else {
                                0
                            })
                        },
                        _ => false,
                    }
                },
            decreases f_total - k3,
        {
            let node = formulas[k3];
            let idx = node.index();
            match reg.kinds[idx] {
                NodeKind::Formula(op) => {
                    let parents = reg.get_parents(node);
                    let idx1: u32 = if parents.len() >= 1 {
                        layout[parents[0].index()]
                    } else {
                        0
                    };
                    let idx2: u32 = if parents.len() >= 2 {
                        layout[parents[1].index()]
                    } else {
                        0
                    };
                    let (code, aux_val): (OpCode, u32) = match op {
                        Operation::Add => (OpCode::Add, 0),
                        Operation::Subtract => (OpCode::Sub, 0),
                        Operation::Multiply => (OpCode::Mul, 0),
                        Operation::Divide => (OpCode::Div, 0),
                        Operation::PreviousValue { lag, .. } => (OpCode::Prev, lag),
                    };
                    ops.push(code.as_byte());
                    p1.push(idx1);
                    p2.push(idx2);
                    aux.push(aux_val);
                },
                _ => {
                    proof {
                        assert(false);
                    }
                },
            }
            k3 = k3 + 1;
        }

        let prog = Program {
            ops,
            p1,
            p2,
            aux,
            order: execution_order,
            layout,
            input_start_index: f_total,
        };
        proof {
            assert(fcount(reg, order, order.len() as int) == f_total);
            assert forall|t2: int| 0 <= t2 < order.len()
                implies (#[trigger] prog.layout@[order[t2].0 as int]) as int
                    == layout_spec(reg, order, t2) by {
                assert((layout@[order[t2].0 as int]) as int == layout_spec(reg, order, t2));
            }
            assert forall|t2: int|
                #![trigger is_formula(reg, order[t2].0 as int)]
                0 <= t2 < order.len() && is_formula(reg, order[t2].0 as int)
                implies {
                    let kq = fcount(reg, order, t2);
                    let n = order[t2].0 as int;
                    match reg.kinds@[n] {
                        NodeKind::Formula(op) => {
                            let ps = reg.parents_seq(n);
                            &&& prog.ops@[kq] == opcode_byte(op_opcode(op))
                            &&& prog.aux@[kq] == op_aux(op)
                            &&& prog.p1@[kq] as int == (if ps.len() >= 1 {
                                prog.layout@[ps[0].0 as int] as int
                            } else {
                                0
                            })
                            &&& prog.p2@[kq] as int == (if ps.len() >= 2 {
                                prog.layout@[ps[1].0 as int] as int
                            } else {
                                0
                            })
                        },
                        _ => false,
                    }
                } by {
                let kq = fcount(reg, order, t2);
                lemma_fcount_mono(reg, order, 0, t2);
                lemma_fcount_strict(reg, order, t2, order.len() as int);
                assert(fpos[kq] == t2) by {
                    if fpos[kq] < t2 {
                        lemma_fcount_strict(reg, order, fpos[kq], t2);
                    } else if fpos[kq] > t2 {
                        lemma_fcount_strict(reg, order, t2, fpos[kq]);
                    }
                }
                assert(formulas@[kq] == order[t2]);
            }
        }
        Ok(prog)
    }
}

/// A non-formula between two positions keeps the input index strictly
/// increasing: the in-between step contributes to `t - fcount(t)`.
pub proof fn lemma_fcount_strict_input(reg: &Registry, order: Seq<NodeId>, a: int, b: int)
    requires
        0 <= a < b,
        !is_formula(reg, order[a].0 as int),
    ensures
        a - fcount(reg, order, a) < b - fcount(reg, order, b),
    decreases b,
{
    if b == a + 1 {
        lemma_fcount_mono(reg, order, 0, a);
    } else {
        lemma_fcount_strict_input(reg, order, a, b - 1);
        lemma_fcount_mono(reg, order, b - 1, b);
    }
}

} // verus!

verus! {

impl Program {
    /// The pre-loop validation of a tape run: the ledger buffer must cut
    /// evenly into rows of the model length, and must hold at least one
    /// row per instruction. Checked once, before any instruction runs.
    pub fn validate_layout(&self, ledger_len: usize, model_len: usize)
        -> (r: Result<(), ComputationError>)
        requires
            model_len >= 1,
        ensures
            r is Ok <==> (ledger_len % model_len == 0
                && ledger_len >= self.ops@.len() * model_len),
            r matches Err(e) ==> e matches ComputationError::Mismatch { .. },
    {
        if ledger_len % model_len != 0 {
            return Err(ComputationError::Mismatch {
                msg: "ledger length is not a multiple of the model length".to_owned(),
            });
        }
        let rows = ledger_len / model_len;
        let n_ops = self.ops.len();
        proof {
            assert(ledger_len as int == (rows as int) * (model_len as int)) by (nonlinear_arith)
                requires
                    model_len >= 1,
                    (ledger_len as int) % (model_len as int) == 0,
                    rows as int == (ledger_len as int) / (model_len as int);
            if rows >= n_ops {
                assert(n_ops * model_len <= rows * model_len) by (nonlinear_arith)
                    requires n_ops <= rows, model_len >= 1;
            } else {
                assert(rows * model_len < n_ops * model_len) by (nonlinear_arith)
                    requires rows < n_ops, model_len >= 1;
            }
        }
        if rows < n_ops {
            return Err(ComputationError::Mismatch {
                msg: "ledger is too small for the program".to_owned(),
            });
        }
        Ok(())
    }
}

} // verus!
