//! The pipeline end to end: graph building, planning, evaluation,
//! incremental recomputation and the solver scenario.

use prism_core::bytecode::Compiler;
use prism_core::topology::sort;
use prism_core::types::NodeKind;
use prism_core::engine::{session_resolve, session_step, ComputationEngine, ComputeSession,
    PendingOp, StepResult};
use prism_core::graph::ComputationGraph;
use prism_core::ledger::{ComputationError, Ledger, NodeStatus, Value};
use prism_core::registry::Registry;
use prism_core::types::{NodeId, NodeMetadata, Operation, TemporalType, Unit};

fn named(name: &str) -> NodeMetadata {
    NodeMetadata { name: name.to_string(), temporal_type: None, unit: None }
}

fn bits(x: f64) -> u64 {
    x.to_bits()
}

fn scalar(x: f64) -> Vec<u64> {
    vec![bits(x)]
}

fn series(xs: &[f64]) -> Vec<u64> {
    xs.iter().map(|x| x.to_bits()).collect()
}

/// The arithmetic kernel the engine delegates to: one elementwise
/// floating-point operation over two equal-length rows of bit patterns.
fn kernel(p: &PendingOp) -> Vec<u64> {
    let mut out = Vec::with_capacity(p.lhs.len());
    for t in 0..p.lhs.len() {
        let a = f64::from_bits(p.lhs[t]);
        let b = f64::from_bits(p.rhs[t]);
        let v = match p.op {
            Operation::Add => a + b,
            Operation::Subtract => a - b,
            Operation::Multiply => a * b,
            Operation::Divide => a / b,
            Operation::PreviousValue { .. } => unreachable!(),
        };
        out.push(v.to_bits());
    }
    out
}

/// Drives one planned evaluation to completion.
fn run(g: &ComputationGraph, targets: &[NodeId], led: &mut Ledger) -> Result<ComputeSession, ComputationError> {
    let engine = ComputationEngine::new(&g.store);
    let mut s = engine.plan(targets, led)?;
    loop {
        match session_step(&g.store, &mut s, led) {
            StepResult::Finished => return Ok(s),
            StepResult::Advanced => {},
            StepResult::Pending(p) => {
                let out = kernel(&p);
                session_resolve(&g.store, &mut s, led, out);
            },
        }
    }
}

fn scalar_value(led: &Ledger, id: NodeId) -> f64 {
    match led.get(id) {
        Some(Ok(Value::Scalar(b))) => f64::from_bits(b),
        other => panic!("expected a scalar, got {:?}", other),
    }
}

fn series_value(led: &Ledger, id: NodeId) -> Vec<f64> {
    match led.get(id) {
        Some(Ok(Value::Series(v))) => v.iter().map(|b| f64::from_bits(*b)).collect(),
        other => panic!("expected a series, got {:?}", other),
    }
}

#[test]
fn scalar_chain_computes() {
    // A=3, B=4, C=A+B, D=C*2 -> D = 14.
    let mut g = ComputationGraph::new();
    let a = g.add_constant(scalar(3.0), named("A"));
    let b = g.add_constant(scalar(4.0), named("B"));
    let c = g.add_formula(Operation::Add, vec![a, b], named("C"));
    let two = g.add_constant(scalar(2.0), named("two"));
    let d = g.add_formula(Operation::Multiply, vec![c, two], named("D"));
    let mut led = Ledger::new();
    run(&g, &[d], &mut led).unwrap();
    assert_eq!(scalar_value(&led, d), 14.0);
    assert_eq!(scalar_value(&led, c), 7.0);
}

#[test]
fn temporal_shift_fills_from_default() {
    // X=[10,20,30,40], Y = Prev(X, default=[-1,-1,-1,-1], lag=1).
    let mut g = ComputationGraph::new();
    let x = g.add_constant(series(&[10.0, 20.0, 30.0, 40.0]), named("X"));
    let dflt = g.add_constant(series(&[-1.0, -1.0, -1.0, -1.0]), named("default"));
    let y = g.add_formula(
        Operation::PreviousValue { lag: 1, default_node: dflt },
        vec![x, dflt],
        named("Y"),
    );
    let mut led = Ledger::new();
    run(&g, &[y], &mut led).unwrap();
    assert_eq!(series_value(&led, y), vec![-1.0, 10.0, 20.0, 30.0]);
}

#[test]
fn zero_lag_shift_is_identity() {
    let mut g = ComputationGraph::new();
    let x = g.add_constant(series(&[1.5, 2.5, 3.5]), named("X"));
    let dflt = g.add_constant(series(&[0.0, 0.0, 0.0]), named("default"));
    let y = g.add_formula(
        Operation::PreviousValue { lag: 0, default_node: dflt },
        vec![x, dflt],
        named("Y"),
    );
    let z = g.add_formula(
        Operation::PreviousValue { lag: 9, default_node: dflt },
        vec![x, dflt],
        named("Z"),
    );
    let mut led = Ledger::new();
    run(&g, &[y, z], &mut led).unwrap();
    // lag 0: the main series; lag beyond the width: the default.
    assert_eq!(series_value(&led, y), vec![1.5, 2.5, 3.5]);
    assert_eq!(series_value(&led, z), vec![0.0, 0.0, 0.0]);
}

#[test]
fn division_by_zero_is_recorded_and_propagates() {
    // A=1, B=0, C=A/B -> DivisionByZero; D=C+1 -> Upstream.
    let mut g = ComputationGraph::new();
    let a = g.add_constant(scalar(1.0), named("A"));
    let b = g.add_constant(scalar(0.0), named("B"));
    let c = g.add_formula(Operation::Divide, vec![a, b], named("C"));
    let one = g.add_constant(scalar(1.0), named("one"));
    let d = g.add_formula(Operation::Add, vec![c, one], named("D"));
    let mut led = Ledger::new();
    run(&g, &[d], &mut led).unwrap();
    match led.get(c) {
        Some(Err(ComputationError::DivisionByZero { node_id, .. })) => assert_eq!(node_id, c),
        other => panic!("expected a division error, got {:?}", other),
    }
    match led.get(d) {
        Some(Err(ComputationError::Upstream { parent_id, .. })) => assert_eq!(parent_id, c),
        other => panic!("expected an upstream error, got {:?}", other),
    }
}

#[test]
fn negative_zero_divisor_also_fails() {
    let mut g = ComputationGraph::new();
    let a = g.add_constant(scalar(1.0), named("A"));
    let b = g.add_constant(scalar(-0.0), named("B"));
    let c = g.add_formula(Operation::Divide, vec![a, b], named("C"));
    let mut led = Ledger::new();
    run(&g, &[c], &mut led).unwrap();
    assert!(matches!(led.get(c), Some(Err(ComputationError::DivisionByZero { .. }))));
}

#[test]
fn broadcasting_promotes_scalars_and_short_series() {
    // A scalar added to a series behaves like the promoted series, and
    // addition commutes.
    let mut g = ComputationGraph::new();
    let s = g.add_constant(scalar(10.0), named("S"));
    let xs = g.add_constant(series(&[1.0, 2.0, 3.0]), named("X"));
    let promoted = g.add_constant(series(&[10.0, 10.0, 10.0]), named("P"));
    let sum1 = g.add_formula(Operation::Add, vec![s, xs], named("sum1"));
    let sum2 = g.add_formula(Operation::Add, vec![xs, s], named("sum2"));
    let sum3 = g.add_formula(Operation::Add, vec![promoted, xs], named("sum3"));
    // A shorter series extends its last element.
    let short = g.add_constant(series(&[100.0, 200.0]), named("short"));
    let sum4 = g.add_formula(Operation::Add, vec![short, xs], named("sum4"));
    let mut led = Ledger::new();
    run(&g, &[sum1, sum2, sum3, sum4], &mut led).unwrap();
    let v1 = series_value(&led, sum1);
    assert_eq!(v1, vec![11.0, 12.0, 13.0]);
    assert_eq!(v1, series_value(&led, sum2));
    assert_eq!(v1, series_value(&led, sum3));
    assert_eq!(series_value(&led, sum4), vec![101.0, 202.0, 203.0]);
}

#[test]
fn incremental_recompute_touches_only_downstream() {
    // A full ledger; one input changes; only its downstream cone is
    // replanned, everything else keeps its computed cell.
    let mut g = ComputationGraph::new();
    let a = g.add_constant(scalar(1.0), named("A"));
    let b = g.add_constant(scalar(2.0), named("B"));
    let c = g.add_formula(Operation::Add, vec![a, b], named("C"));
    let d = g.add_formula(Operation::Multiply, vec![c, c], named("D"));
    let e = g.add_constant(scalar(5.0), named("E"));
    let f = g.add_formula(Operation::Add, vec![e, e], named("F"));
    let mut led = Ledger::new();
    run(&g, &[d, f], &mut led).unwrap();
    assert_eq!(scalar_value(&led, d), 9.0);
    assert_eq!(scalar_value(&led, f), 10.0);

    // Update B and invalidate its downstream set.
    g.update_constant(b, scalar(4.0)).unwrap();
    let dirty = g.downstream_from(&[b]);
    assert!(dirty[b.0 as usize] && dirty[c.0 as usize] && dirty[d.0 as usize]);
    assert!(!dirty[a.0 as usize] && !dirty[e.0 as usize] && !dirty[f.0 as usize]);
    led.invalidate(&dirty);

    // The replan covers exactly the dirty cone of the target.
    let s = run(&g, &[d, f], &mut led).unwrap();
    let replanned: Vec<u32> = s.plan.iter().map(|n| n.0).collect();
    assert_eq!(replanned.len(), 3);
    assert!(replanned.contains(&b.0) && replanned.contains(&c.0) && replanned.contains(&d.0));
    assert_eq!(scalar_value(&led, d), 25.0);
    // F kept its previous value without recomputation.
    assert_eq!(scalar_value(&led, f), 10.0);

    // The incremental result agrees with a from-scratch evaluation.
    let mut fresh = Ledger::new();
    run(&g, &[d, f], &mut fresh).unwrap();
    assert_eq!(scalar_value(&fresh, d), scalar_value(&led, d));
    assert_eq!(scalar_value(&fresh, f), scalar_value(&led, f));
}

#[test]
fn solver_scenario_meets_constraints() {
    // p+q = 10, p-q = 4: a damped-free Newton step on the residuals
    // (the role the external NLP library plays) lands on p=7, q=3.
    let mut g = ComputationGraph::new();
    let p = g.add_solver_var(named("p"));
    let q = g.add_solver_var(named("q"));
    let ten = g.add_constant(scalar(10.0), named("ten"));
    let four = g.add_constant(scalar(4.0), named("four"));
    let sum = g.add_formula(Operation::Add, vec![p, q], named("p_plus_q"));
    let diff = g.add_formula(Operation::Subtract, vec![p, q], named("p_minus_q"));
    let r1 = g.must_equal(sum, ten, "sum_is_ten".to_string());
    let r2 = g.must_equal(diff, four, "diff_is_four".to_string());

    let eval = |x: [f64; 2]| -> [f64; 2] {
        let mut led = Ledger::new();
        led.ensure_capacity(g.node_count());
        led.insert(p, Ok(Value::Series(vec![x[0].to_bits()])));
        led.insert(q, Ok(Value::Series(vec![x[1].to_bits()])));
        run(&g, &[r1, r2], &mut led).unwrap();
        let g1 = match led.get(r1) {
            Some(Ok(v)) => f64::from_bits(v.get_at(0)),
            other => panic!("residual not computed: {:?}", other),
        };
        let g2 = match led.get(r2) {
            Some(Ok(v)) => f64::from_bits(v.get_at(0)),
            other => panic!("residual not computed: {:?}", other),
        };
        [g1, g2]
    };

    // Finite-difference Jacobian at the origin, then one Newton step.
    let mut x = [0.0f64, 0.0f64];
    for _ in 0..4 {
        let g0 = eval(x);
        let h = 1e-8;
        let mut jac = [[0.0f64; 2]; 2];
        for j in 0..2 {
            let mut xp = x;
            xp[j] += h;
            let gp = eval(xp);
            let mut xm = x;
            xm[j] -= h;
            let gm = eval(xm);
            jac[0][j] = (gp[0] - gm[0]) / (2.0 * h);
            jac[1][j] = (gp[1] - gm[1]) / (2.0 * h);
        }
        let det = jac[0][0] * jac[1][1] - jac[0][1] * jac[1][0];
        let dx = [
            (g0[0] * jac[1][1] - g0[1] * jac[0][1]) / det,
            (g0[1] * jac[0][0] - g0[0] * jac[1][0]) / det,
        ];
        x[0] -= dx[0];
        x[1] -= dx[1];
    }
    let res = eval(x);
    assert!((x[0] - 7.0).abs() < 1e-6, "p = {}", x[0]);
    assert!((x[1] - 3.0).abs() < 1e-6, "q = {}", x[1]);
    assert!(res[0].abs() < 1e-6 && res[1].abs() < 1e-6);
}

#[test]
fn compiled_tape_layout_and_encoding() {
    let mut g = ComputationGraph::new();
    let a = g.add_constant(scalar(3.0), named("A"));
    let b = g.add_constant(scalar(4.0), named("B"));
    let c = g.add_formula(Operation::Add, vec![a, b], named("C"));
    let d = g.add_formula(Operation::Divide, vec![c, b], named("D"));
    let order = g.topological_order().unwrap();
    let compiler = Compiler::new(&g.store);
    let prog = compiler.compile(order).unwrap();
    // Two formulas: slots 0 and 1; inputs A, B at 2 and 3.
    assert_eq!(prog.input_start_index, 2);
    assert_eq!(prog.ops, vec![0u8, 3u8]); // Add=0, Div=3
    assert_eq!(prog.layout[c.0 as usize], 0);
    assert_eq!(prog.layout[d.0 as usize], 1);
    assert!(prog.layout[a.0 as usize] >= 2 && prog.layout[b.0 as usize] >= 2);
    // Instruction 1 (D = C / B) reads slot 0 and B's input slot.
    assert_eq!(prog.p1[1], 0);
    assert_eq!(prog.p2[1], prog.layout[b.0 as usize]);
    assert_eq!(prog.aux, vec![0u32, 0u32]);
}

#[test]
fn name_collisions_get_suffixes() {
    let mut g = ComputationGraph::new();
    let a1 = g.add_constant(scalar(1.0), named("A"));
    let a2 = g.add_constant(scalar(2.0), named("A"));
    let a3 = g.add_constant(scalar(3.0), named("A"));
    assert_eq!(g.store.meta[a1.0 as usize].name, "A");
    assert_eq!(g.store.meta[a2.0 as usize].name, "A_1");
    assert_eq!(g.store.meta[a3.0 as usize].name, "A_2");
}

#[test]
fn update_constant_rejects_kind_changes() {
    let mut g = ComputationGraph::new();
    let a = g.add_constant(scalar(1.0), named("A"));
    let x = g.add_constant(series(&[1.0, 2.0]), named("X"));
    let f = g.add_formula(Operation::Add, vec![a, a], named("F"));
    assert!(g.update_constant(a, scalar(2.0)).is_ok());
    assert!(g.update_constant(a, series(&[1.0, 2.0])).is_err());
    assert!(g.update_constant(x, scalar(1.0)).is_err());
    assert!(g.update_constant(x, series(&[3.0, 4.0, 5.0])).is_ok());
    assert!(g.update_constant(f, scalar(1.0)).is_err());
}

#[test]
fn ledger_invalidate_and_timeseries() {
    let mut led = Ledger::new();
    led.ensure_capacity(3);
    led.insert(NodeId(0), Ok(Value::Scalar(bits(1.0))));
    led.insert(NodeId(1), Ok(Value::Series(series(&[1.0, 2.0]))));
    assert!(led.is_computed(NodeId(0)) && led.is_computed(NodeId(1)));
    assert!(led.is_timeseries(&[NodeId(0), NodeId(1)]));
    assert!(!led.is_timeseries(&[NodeId(0), NodeId(2)]));
    led.invalidate(&vec![true, false, false]);
    assert!(!led.is_computed(NodeId(0)));
    assert!(led.is_computed(NodeId(1)));
    assert!(matches!(led.status[1], NodeStatus::ComputedSeries));
}

#[test]
fn upstream_walks_parents() {
    let mut g = ComputationGraph::new();
    let a = g.add_constant(scalar(1.0), named("A"));
    let b = g.add_constant(scalar(2.0), named("B"));
    let c = g.add_formula(Operation::Add, vec![a, b], named("C"));
    let d = g.add_constant(scalar(3.0), named("D"));
    let up = g.upstream_from(&[c]);
    assert!(up[a.0 as usize] && up[b.0 as usize] && up[c.0 as usize]);
    assert!(!up[d.0 as usize]);
}

#[test]
fn metadata_units_survive() {
    let mut g = ComputationGraph::new();
    let a = g.add_constant(
        scalar(1.0),
        NodeMetadata {
            name: "A".to_string(),
            temporal_type: Some(TemporalType::Stock),
            unit: Some(Unit("USD".to_string())),
        },
    );
    let meta = g.get_node_meta(a);
    assert_eq!(meta.unit, Some(Unit("USD".to_string())));
    assert_eq!(meta.temporal_type, Some(TemporalType::Stock));
}

#[test]
fn test_sort_diamond_dependency() {
    // Shape: A -> B, A -> C, B+C -> D
    // Valid Orders: A,B,C,D or A,C,B,D
    let mut reg = Registry::new();
    let no_parents: Vec<NodeId> = Vec::new();
    let a = reg.add_node(NodeKind::Scalar(bits(1.0)), &no_parents, named("A"));
    let b = reg.add_node(NodeKind::Formula(Operation::Add), &vec![a, a], named("B"));
    let c = reg.add_node(NodeKind::Formula(Operation::Add), &vec![a, a], named("C"));
    let d = reg.add_node(NodeKind::Formula(Operation::Add), &vec![b, c], named("D"));

    let res = sort(&reg).expect("Sort failed");

    let pos = |id: NodeId| res.iter().position(|&x| x == id).unwrap();
    assert!(pos(a) < pos(b));
    assert!(pos(a) < pos(c));
    assert!(pos(b) < pos(d));
    assert!(pos(c) < pos(d));
}

#[test]
fn test_cycle_detection_explicit() {
    // Construct A -> B. Then force B -> A via internal mutation.
    let mut reg = Registry::new();
    let no_parents: Vec<NodeId> = Vec::new();
    let a = reg.add_node(NodeKind::Scalar(bits(0.0)), &no_parents, named("A")); // ID 0
    let b = reg.add_node(NodeKind::Formula(Operation::Add), &vec![a, a], named("B")); // ID 1

    // Manually inject the cycle: A depends on B.
    assert_eq!(reg.parents_ranges[0].1, 0);
    reg.parents_flat.push(b);
    let new_start = (reg.parents_flat.len() - 1) as u32;
    reg.parents_ranges[0] = (new_start, 1);

    // Now A -> B and B -> A.
    let err = sort(&reg).unwrap_err();
    assert!(err.contains("Cycle detected"), "Msg: {}", err);
}

#[test]
fn rename_and_edit_metadata() {
    let mut g = ComputationGraph::new();
    let a = g.add_constant(scalar(1.0), named("A"));
    let b = g.add_constant(scalar(2.0), named("B"));
    // Renaming returns the old name and resolves collisions.
    let old = g.store.set_node_name(a, "Alpha".to_string()).unwrap();
    assert_eq!(old, "A");
    assert_eq!(g.store.meta[a.0 as usize].name, "Alpha");
    let old = g.store.set_node_name(b, "Alpha".to_string()).unwrap();
    assert_eq!(old, "B");
    assert_eq!(g.store.meta[b.0 as usize].name, "Alpha_1");
    assert!(g.store.set_node_name(NodeId(99), "X".to_string()).is_err());
    // Metadata edits return the old pair and overwrite only what is given.
    let (old_unit, old_t) = g.store
        .set_node_metadata(a, Some(Unit("USD".to_string())), None)
        .unwrap();
    assert_eq!(old_unit, None);
    assert_eq!(old_t, None);
    let (old_unit, _) = g.store
        .set_node_metadata(a, None, Some(TemporalType::Stock))
        .unwrap();
    assert_eq!(old_unit, Some(Unit("USD".to_string())));
    let m = g.store.meta[a.0 as usize].clone();
    assert_eq!(m.unit, Some(Unit("USD".to_string())));
    assert_eq!(m.temporal_type, Some(TemporalType::Stock));
    assert!(g.store.set_node_metadata(NodeId(99), None, None).is_err());
}

#[test]
fn tape_layout_validation() {
    let mut g = ComputationGraph::new();
    let a = g.add_constant(scalar(3.0), named("A"));
    let b = g.add_constant(scalar(4.0), named("B"));
    let _c = g.add_formula(Operation::Add, vec![a, b], named("C"));
    let order = g.topological_order().unwrap();
    let prog = Compiler::new(&g.store).compile(order).unwrap();
    // One instruction, three nodes: three rows of width 4 fit, two do not,
    // and a ragged buffer is refused outright.
    assert!(prog.validate_layout(12, 4).is_ok());
    assert!(prog.validate_layout(2, 4).is_err());
    assert!(prog.validate_layout(13, 4).is_err());
}

#[test]
fn residual_nodes_carry_their_names() {
    let mut g = ComputationGraph::new();
    let a = g.add_constant(scalar(1.0), named("A"));
    let b = g.add_constant(scalar(2.0), named("B"));
    let r = g.must_equal(a, b, "balance".to_string());
    assert_eq!(g.store.meta[r.0 as usize].name, "residual_for_balance");
    assert_eq!(g.constraints.len(), 1);
    assert_eq!(g.constraints[0].1, "balance");
}
