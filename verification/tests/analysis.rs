//! The static analyzer: temporal and unit rules.

use prism_core::analyzer::{infer_and_validate_temporal, infer_and_validate_units, TypeChecker,
    ValidationErrorType, Validator};
use prism_core::graph::ComputationGraph;
use prism_core::types::{NodeMetadata, Operation, TemporalType, Unit};

fn meta(name: &str, t: Option<TemporalType>, u: Option<&str>) -> NodeMetadata {
    NodeMetadata {
        name: name.to_string(),
        temporal_type: t,
        unit: u.map(|s| Unit(s.to_string())),
    }
}

#[test]
fn temporal_inference_rules() {
    let stock = meta("s", Some(TemporalType::Stock), None);
    let flow = meta("f", Some(TemporalType::Flow), None);
    let plain = meta("p", None, None);

    // Stock + Flow = Stock.
    let r = infer_and_validate_temporal(&Operation::Add, &[stock.clone(), flow.clone()]);
    assert_eq!(r.unwrap(), Some(TemporalType::Stock));
    // Flow + Flow = Flow.
    let r = infer_and_validate_temporal(&Operation::Add, &[flow.clone(), flow.clone()]);
    assert_eq!(r.unwrap(), Some(TemporalType::Flow));
    // Stock + Stock is rejected.
    let r = infer_and_validate_temporal(&Operation::Add, &[stock.clone(), stock.clone()]);
    assert_eq!(r.unwrap_err().error_type, ValidationErrorType::TemporalMismatch);
    // Untyped parents infer nothing.
    let r = infer_and_validate_temporal(&Operation::Add, &[plain.clone(), plain.clone()]);
    assert_eq!(r.unwrap(), None);
    // Multiplying a stock is rejected; a flow propagates.
    let r = infer_and_validate_temporal(&Operation::Multiply, &[stock.clone(), flow.clone()]);
    assert!(r.is_err());
    let r = infer_and_validate_temporal(&Operation::Multiply, &[flow.clone(), plain.clone()]);
    assert_eq!(r.unwrap(), Some(TemporalType::Flow));
    // A temporal shift inherits its main parent's type.
    let op = Operation::PreviousValue { lag: 1, default_node: prism_core::types::NodeId(0) };
    let r = infer_and_validate_temporal(&op, &[stock.clone(), plain.clone()]);
    assert_eq!(r.unwrap(), Some(TemporalType::Stock));
}

#[test]
fn unit_inference_rules() {
    let usd = meta("a", None, Some("USD"));
    let mwh = meta("b", None, Some("MWh"));
    let none = meta("c", None, None);

    // Matching units pass through.
    let r = infer_and_validate_units(&Operation::Add, &[usd.clone(), usd.clone()]);
    assert_eq!(r.unwrap(), Some(Unit("USD".to_string())));
    // Canonically equal spellings also pass.
    let kgm = meta("k", None, Some("kg*m"));
    let mkg = meta("m", None, Some("m*kg"));
    let r = infer_and_validate_units(&Operation::Add, &[kgm.clone(), mkg.clone()]);
    assert!(r.is_ok());
    // Distinct units are a mismatch.
    let r = infer_and_validate_units(&Operation::Add, &[usd.clone(), mwh.clone()]);
    assert_eq!(r.unwrap_err().error_type, ValidationErrorType::UnitMismatch);
    // No units: nothing inferred.
    let r = infer_and_validate_units(&Operation::Add, &[none.clone(), none.clone()]);
    assert_eq!(r.unwrap(), None);
    // Multiplication multiplies the parsed units.
    let ms = meta("v", None, Some("m/s"));
    let s = meta("t", None, Some("s"));
    let r = infer_and_validate_units(&Operation::Multiply, &[ms.clone(), s.clone()]);
    assert_eq!(r.unwrap(), Some(Unit("m".to_string())));
    // Division divides them, treating a missing unit as dimensionless.
    let m = meta("d", None, Some("m"));
    let r = infer_and_validate_units(&Operation::Divide, &[m.clone(), s.clone()]);
    assert_eq!(r.unwrap(), Some(Unit("m/s".to_string())));
    let r = infer_and_validate_units(&Operation::Divide, &[none.clone(), s.clone()]);
    assert_eq!(r.unwrap(), Some(Unit("1/s".to_string())));
}

#[test]
fn validate_reports_unit_mismatch() {
    // A in USD, B in MWh, C = A + B: the validator flags C.
    let mut g = ComputationGraph::new();
    let a = g.add_constant(vec![1.0f64.to_bits()], meta("A", None, Some("USD")));
    let b = g.add_constant(vec![2.0f64.to_bits()], meta("B", None, Some("MWh")));
    let c = g.add_formula(Operation::Add, vec![a, b], meta("C", None, None));
    let validator = Validator::new(&g);
    let errs = validator.validate().unwrap_err();
    assert_eq!(errs.len(), 1);
    assert_eq!(errs[0].node_id, c);
    assert_eq!(errs[0].error_type, ValidationErrorType::UnitMismatch);

    // The inference checker reports it as well.
    let mut checker = TypeChecker::new(&g);
    let errs = checker.check_and_infer().unwrap_err();
    assert!(errs.iter().any(|e| e.error_type == ValidationErrorType::UnitMismatch));
}

#[test]
fn validate_accepts_consistent_graphs() {
    let mut g = ComputationGraph::new();
    let a = g.add_constant(vec![1.0f64.to_bits()], meta("A", None, Some("USD")));
    let b = g.add_constant(vec![2.0f64.to_bits()], meta("B", None, Some("USD")));
    let _c = g.add_formula(Operation::Add, vec![a, b], meta("C", None, None));
    assert!(Validator::new(&g).validate().is_ok());
    assert!(TypeChecker::new(&g).check_and_infer().is_ok());
}

#[test]
fn checker_flags_declared_mismatch() {
    // C declares Flow but infers Stock.
    let mut g = ComputationGraph::new();
    let a = g.add_constant(vec![1.0f64.to_bits()], meta("A", Some(TemporalType::Stock), None));
    let b = g.add_constant(vec![2.0f64.to_bits()], meta("B", Some(TemporalType::Flow), None));
    let _c = g.add_formula(
        Operation::Add,
        vec![a, b],
        meta("C", Some(TemporalType::Flow), None),
    );
    let mut checker = TypeChecker::new(&g);
    let errs = checker.check_and_infer().unwrap_err();
    assert!(errs.iter().any(|e| e.error_type == ValidationErrorType::TemporalMismatch));
}

#[test]
fn checker_infers_through_chains() {
    // Stock flows through an addition chain: (stock + flow) + flow is
    // still a stock; declaring Stock on the top is accepted.
    let mut g = ComputationGraph::new();
    let s = g.add_constant(vec![1.0f64.to_bits()], meta("S", Some(TemporalType::Stock), None));
    let f1 = g.add_constant(vec![2.0f64.to_bits()], meta("F1", Some(TemporalType::Flow), None));
    let f2 = g.add_constant(vec![3.0f64.to_bits()], meta("F2", Some(TemporalType::Flow), None));
    let mid = g.add_formula(Operation::Add, vec![s, f1], meta("mid", None, None));
    let _top = g.add_formula(
        Operation::Add,
        vec![mid, f2],
        meta("top", Some(TemporalType::Stock), None),
    );
    assert!(TypeChecker::new(&g).check_and_infer().is_ok());
}
