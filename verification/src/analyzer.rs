//! The static analyzer: temporal (stock/flow) and dimensional rules,
//! the local rule validator, and the two-phase inference checker.

use vstd::prelude::*;
use crate::graph::ComputationGraph;
use crate::types::{NodeId, NodeKind, NodeMetadata, Operation, TemporalType, Unit};
use crate::units::{bag_merge, bval, canon_spec, parse_spec, terms_view, ParsedUnit};

verus! {

/// The category of a validation finding.
#[derive(Debug, Clone, Copy, PartialEq, Eq, Structural)]
pub enum ValidationErrorType {
    TemporalMismatch,
    UnitMismatch,
    Structure,
}

/// A structured finding of the static analyzer.
#[derive(Debug, PartialEq)]
pub struct ValidationError {
    pub node_id: NodeId,
    pub node_name: String,
    pub error_type: ValidationErrorType,
    pub message: String,
}

impl Clone for ValidationError {
    fn clone(&self) -> (r: Self)
        ensures
            r == *self,
    {
        ValidationError {
            node_id: self.node_id,
            node_name: self.node_name.clone(),
            error_type: self.error_type,
            message: self.message.clone(),
        }
    }
}

impl ValidationError {
    /// A graph-level structural finding carrying only a message.
    pub fn from_string(msg: String) -> (r: Self)
        ensures
            r.error_type == ValidationErrorType::Structure,
            r.node_id.0 == 0,
            r.message == msg,
    {
        ValidationError {
            node_id: NodeId(0),
            node_name: "Graph".to_owned(),
            error_type: ValidationErrorType::Structure,
            message: msg,
        }
    }

    /// The same finding pinned to a node.
    pub fn at_node(self, node_id: NodeId, node_name: String) -> (r: Self)
        ensures
            r.node_id == node_id,
            r.node_name == node_name,
            r.error_type == self.error_type,
            r.message == self.message,
    {
        ValidationError { node_id, node_name, error_type: self.error_type, message: self.message }
    }
}

/// How many of the metadata entries declare the given temporal type.
pub open spec fn count_temporal(ps: Seq<NodeMetadata>, t: TemporalType) -> int
    decreases ps.len(),
{
    if ps.len() == 0 {
        0
    } else {
        count_temporal(ps.drop_last(), t)
            + if ps.last().temporal_type == Some(t) { 1int } else { 0int }
    }
}

proof fn lemma_count_temporal_nonneg(ps: Seq<NodeMetadata>, t: TemporalType)
    ensures
        0 <= count_temporal(ps, t) <= ps.len(),
    decreases ps.len(),
{
    if ps.len() > 0 {
        lemma_count_temporal_nonneg(ps.drop_last(), t);
    }
}

/// Counts the parents declaring the given temporal type.
fn count_temporal_exec(parents: &[NodeMetadata], t: TemporalType) -> (r: usize)
    ensures
        r == count_temporal(parents@, t),
{
    let n = parents.len();
    let mut c: usize = 0;
    let mut i: usize = 0;
    while i < n
        invariant
            0 <= i <= n,
            n == parents@.len(),
            c == count_temporal(parents@.take(i as int), t),
            c <= i,
        decreases n - i,
    {
        let here = match (&parents[i].temporal_type, t) {
            (Some(TemporalType::Stock), TemporalType::Stock) => true,
            (Some(TemporalType::Flow), TemporalType::Flow) => true,
            _ => false,
        };
        proof {
            let p1 = parents@.take(i + 1);
            assert(p1.drop_last() =~= parents@.take(i as int));
            assert(p1.last() == parents@[i as int]);
            assert(here == (parents@[i as int].temporal_type == Some(t)));
        }
        if here {
            c = c + 1;
        }
        i = i + 1;
    }
    proof {
        assert(parents@.take(n as int) =~= parents@);
    }
    c
}

/// The complete temporal rule, relating a formula's operation and its
/// parents' metadata to the inference verdict.
pub open spec fn temporal_inference_spec(
    op: Operation,
    parents: Seq<NodeMetadata>,
    r: Result<Option<TemporalType>, ValidationError>,
) -> bool {
    match op {
        Operation::Add | Operation::Subtract => {
            let stocks = count_temporal(parents, TemporalType::Stock);
            let flows = count_temporal(parents, TemporalType::Flow);
            if stocks > 1 {
                r matches Err(e) && e.error_type == ValidationErrorType::TemporalMismatch
            } else if stocks == 1 {
                r == Ok::<Option<TemporalType>, ValidationError>(Some(TemporalType::Stock))
            } else if flows > 0 {
                r == Ok::<Option<TemporalType>, ValidationError>(Some(TemporalType::Flow))
            } else {
                r == Ok::<Option<TemporalType>, ValidationError>(None)
            }
        },
        Operation::Multiply | Operation::Divide => {
            let stocks = count_temporal(parents, TemporalType::Stock);
            let flows = count_temporal(parents, TemporalType::Flow);
            if stocks > 0 {
                r matches Err(e) && e.error_type == ValidationErrorType::TemporalMismatch
            } else if flows > 0 {
                r == Ok::<Option<TemporalType>, ValidationError>(Some(TemporalType::Flow))
            } else {
                r == Ok::<Option<TemporalType>, ValidationError>(None)
            }
        },
        Operation::PreviousValue { .. } => r == Ok::<Option<TemporalType>, ValidationError>(
            parents[0].temporal_type),
    }
}

/// Whether the temporal rule itself rejects the formula.
pub open spec fn temporal_rule_errs(op: Operation, parents: Seq<NodeMetadata>) -> bool {
    match op {
        Operation::Add | Operation::Subtract =>
            count_temporal(parents, TemporalType::Stock) > 1,
        Operation::Multiply | Operation::Divide =>
            count_temporal(parents, TemporalType::Stock) > 0,
        Operation::PreviousValue { .. } => false,
    }
}

/// Whether the unit rule itself rejects the formula: addition or
/// subtraction over units that are not all canonically equal.
pub open spec fn unit_rule_errs(op: Operation, parents: Seq<NodeMetadata>) -> bool {
    match op {
        Operation::Add | Operation::Subtract => units_of(parents).len() > 0
            && !(forall|j: int| 0 <= j < units_of(parents).len()
                ==> canon_eq(units_of(parents)[0], #[trigger] units_of(parents)[j])),
        _ => false,
    }
}

/// Infers the temporal type of a formula from its parents' types, or
/// rejects it. The rules: adding or subtracting more than one stock is
/// ambiguous and refused; one stock absorbs flows (`Stock + Flow` is a
/// stock); flows combine to flows. Multiplying or dividing a stock is
/// refused; otherwise any flow makes the product a flow. A temporal
/// shift inherits its main parent's type.
pub fn infer_and_validate_temporal(op: &Operation, parents: &[NodeMetadata])
    -> (r: Result<Option<TemporalType>, ValidationError>)
    requires
        op matches Operation::PreviousValue { .. } ==> parents@.len() >= 1,
    ensures
        temporal_inference_spec(*op, parents@, r),
        r is Err <==> temporal_rule_errs(*op, parents@),
{
    match op {
        Operation::Add | Operation::Subtract => {
            let stocks = count_temporal_exec(parents, TemporalType::Stock);
            let flows = count_temporal_exec(parents, TemporalType::Flow);
            if stocks > 1 {
                Err(ValidationError {
                    node_id: NodeId(0),
                    node_name: String::new(),
                    error_type: ValidationErrorType::TemporalMismatch,
                    message: "Temporal Error: Addition or subtraction of more than one 'Stock' type is ambiguous and not permitted.".to_owned(),
                })
            } else if stocks == 1 {
                Ok(Some(TemporalType::Stock))
            } else if flows > 0 {
                Ok(Some(TemporalType::Flow))
            } else {
                Ok(None)
            }
        },
        Operation::Multiply | Operation::Divide => {
            let stocks = count_temporal_exec(parents, TemporalType::Stock);
            let flows = count_temporal_exec(parents, TemporalType::Flow);
            if stocks > 0 {
                Err(ValidationError {
                    node_id: NodeId(0),
                    node_name: String::new(),
                    error_type: ValidationErrorType::TemporalMismatch,
                    message: "Temporal Error: Multiplication or division involving 'Stock' types is not supported.".to_owned(),
                })
            } else if flows > 0 {
                Ok(Some(TemporalType::Flow))
            } else {
                Ok(None)
            }
        },
        Operation::PreviousValue { .. } => {
            let t = match &parents[0].temporal_type {
                Some(TemporalType::Stock) => Some(TemporalType::Stock),
                Some(TemporalType::Flow) => Some(TemporalType::Flow),
                None => None,
            };
            Ok(t)
        },
    }
}

} // verus!

verus! {

/// The views of the units that the metadata entries declare, in order.
pub open spec fn units_of(ps: Seq<NodeMetadata>) -> Seq<Seq<char>>
    decreases ps.len(),
{
    if ps.len() == 0 {
        Seq::empty()
    } else {
        let r = units_of(ps.drop_last());
        match ps.last().unit {
            Some(u) => r.push(u.0@),
            None => r,
        }
    }
}

/// Structural equality after canonicalization: parseable units compare as
/// exponent bags, anything else — including strings beyond the parser's
/// length bound — compares verbatim.
pub open spec fn canon_eq(a: Seq<char>, b: Seq<char>) -> bool {
    if a.len() <= 0xFFFF_FF00 && b.len() <= 0xFFFF_FF00 {
        match (parse_spec(a), parse_spec(b)) {
            (Some(ma), Some(mb)) => ma == mb,
            _ => a == b,
        }
    } else {
        a == b
    }
}

/// The declared units of the given metadata entries, collected.
fn collect_units(parents: &[NodeMetadata]) -> (r: Vec<String>)
    ensures
        r@.len() == units_of(parents@).len(),
        forall|j: int| 0 <= j < r@.len() ==> (#[trigger] r@[j])@ == units_of(parents@)[j],
{
    let n = parents.len();
    let mut out: Vec<String> = Vec::new();
    let mut i: usize = 0;
    while i < n
        invariant
            0 <= i <= n,
            n == parents@.len(),
            out@.len() == units_of(parents@.take(i as int)).len(),
            forall|j: int| 0 <= j < out@.len()
                ==> (#[trigger] out@[j])@ == units_of(parents@.take(i as int))[j],
        decreases n - i,
    {
        proof {
            let p1 = parents@.take(i + 1);
            assert(p1.drop_last() =~= parents@.take(i as int));
            assert(p1.last() == parents@[i as int]);
        }
        match &parents[i].unit {
            Some(u) => {
                out.push(u.0.clone());
            },
            None => {},
        }
        i = i + 1;
    }
    proof {
        assert(parents@.take(n as int) =~= parents@);
    }
    out
}

/// Parses a unit string when it is short enough for the parser's bound;
/// anything longer counts as unparsable.
fn parse_unit_checked(s: &String) -> (r: Result<ParsedUnit, ()>)
    ensures
        match r {
            Ok(u) => parse_spec(s@) == Some(u@) && u.wf() && s@.len() <= 0xFFFF_FF00,
            Err(_) => parse_spec(s@) is None || s@.len() > 0xFFFF_FF00,
        },
{
    if s.as_str().unicode_len() > 0xFFFF_FF00 {
        return Err(());
    }
    ParsedUnit::from_str(s.as_str())
}

/// Whether two unit strings are equal after canonicalization.
fn canon_eq_exec(a: &String, b: &String) -> (r: bool)
    ensures
        r == canon_eq(a@, b@),
{
    let pa = parse_unit_checked(a);
    let pb = parse_unit_checked(b);
    match (pa, pb) {
        (Ok(ua), Ok(ub)) => {
            let r = ua.same_bag(&ub);
            proof {
                assert(parse_spec(a@) == Some(ua@));
                assert(parse_spec(b@) == Some(ub@));
                assert(canon_eq(a@, b@) == (ua@ == ub@));
            }
            r
        },
        _ => {
            let r = *a == *b;
            proof {
                if a@.len() <= 0xFFFF_FF00 && b@.len() <= 0xFFFF_FF00 {
                    assert(parse_spec(a@) is None || parse_spec(b@) is None);
                }
                assert(canon_eq(a@, b@) == (a@ == b@));
            }
            r
        },
    }
}

} // verus!

verus! {

/// The product bag of a unit list: `None` when any entry is unparsable.
pub open spec fn merge_units(us: Seq<Seq<char>>) -> Option<Map<Seq<char>, int>>
    decreases us.len(),
{
    if us.len() == 0 {
        Some(Map::empty())
    } else {
        match merge_units(us.drop_last()) {
            None => None,
            Some(m) => match parse_spec(us.last()) {
                None => None,
                Some(mu) => Some(bag_merge(m, mu, 1)),
            },
        }
    }
}

/// The exponent bag a metadata entry contributes to a quotient: no unit
/// reads as dimensionless, a unit string must parse.
pub open spec fn meta_bag(m: NodeMetadata) -> Option<Map<Seq<char>, int>> {
    match m.unit {
        None => Some(Map::empty()),
        Some(u) => parse_spec(u.0@),
    }
}

/// Every unit string is within the parser's length bound and parses.
pub open spec fn units_parse_ok(us: Seq<Seq<char>>) -> bool {
    forall|j: int| 0 <= j < us.len()
        ==> (#[trigger] us[j]).len() <= 0xFFFF_FF00 && parse_spec(us[j]) is Some
}

/// Folding the units left to right keeps every running exponent within
/// the signed 64-bit range.
pub open spec fn merge_steps_bounded(us: Seq<Seq<char>>) -> bool
    decreases us.len(),
{
    if us.len() == 0 {
        true
    } else {
        merge_steps_bounded(us.drop_last()) && match (
            merge_units(us.drop_last()),
            parse_spec(us.last()),
        ) {
            (Some(m), Some(mu)) => forall|k: Seq<char>|
                i64::MIN < #[trigger] bval(m, k) + #[trigger] bval(mu, k) <= i64::MAX,
            _ => true,
        }
    }
}

/// A bounded fold is bounded at each of its steps.
proof fn lemma_merge_bounded_at(us: Seq<Seq<char>>, j: int)
    requires
        merge_steps_bounded(us),
        0 <= j < us.len(),
    ensures
        match (merge_units(us.take(j)), parse_spec(us[j])) {
            (Some(m), Some(mu)) => forall|k: Seq<char>|
                i64::MIN < #[trigger] bval(m, k) + #[trigger] bval(mu, k) <= i64::MAX,
            _ => true,
        },
    decreases us.len(),
{
    if j == us.len() - 1 {
        assert(us.take(j) =~= us.drop_last());
        assert(us[j] == us.last());
    } else {
        assert(forall|i: int| 0 <= i < us.len() - 1
            ==> #[trigger] us.drop_last()[i] == us[i]);
        assert(us.drop_last().take(j) =~= us.take(j));
        lemma_merge_bounded_at(us.drop_last(), j);
    }
}

/// The metadata's unit contributes a bag: absent, or short enough and
/// parseable.
pub open spec fn meta_bag_ok(m: NodeMetadata) -> bool {
    match m.unit {
        None => true,
        Some(u) => u.0@.len() <= 0xFFFF_FF00 && parse_spec(u.0@) is Some,
    }
}

/// The complete unit rule, relating a formula's operation and its
/// parents' metadata to the inference verdict.
pub open spec fn units_inference_spec(
    op: Operation,
    parents: Seq<NodeMetadata>,
    r: Result<Option<Unit>, ValidationError>,
) -> bool {
    match op {
            Operation::Add | Operation::Subtract => {
                &&& (r matches Err(e) ==> e.error_type == ValidationErrorType::UnitMismatch)
                &&& (units_of(parents).len() == 0 ==> r == Ok::<Option<Unit>, ValidationError>(
                    None))
                &&& (units_of(parents).len() > 0 ==> {
                    if forall|j: int| 0 <= j < units_of(parents).len()
                        ==> canon_eq(units_of(parents)[0], #[trigger] units_of(parents)[j]) {
                        r matches Ok(o) && o matches Some(u) && u.0@ == units_of(parents)[0]
                    } else {
                        r is Err
                    }
                })
            },
            Operation::Multiply => {
                &&& r is Ok
                &&& (units_of(parents).len() == 0 ==> r == Ok::<Option<Unit>, ValidationError>(
                    None))
                &&& (r matches Ok(o) && o matches Some(u) ==> {
                    &&& merge_units(units_of(parents)) matches Some(m)
                    &&& exists|pu: ParsedUnit| #[trigger] pu.wf() && pu@ == m
                        && u.0@ == canon_spec(terms_view(pu.terms@))
                })
                &&& (units_of(parents).len() > 0 && units_parse_ok(units_of(parents))
                        && merge_steps_bounded(units_of(parents))
                    ==> (r matches Ok(o) && o is Some))
            },
            Operation::Divide => {
                &&& r is Ok
                &&& (parents.len() != 2 ==> r == Ok::<Option<Unit>, ValidationError>(None))
                &&& (r matches Ok(o) && o matches Some(u) ==> {
                    &&& parents.len() == 2
                    &&& meta_bag(parents[0]) matches Some(mn)
                    &&& meta_bag(parents[1]) matches Some(md)
                    &&& exists|pu: ParsedUnit| #[trigger] pu.wf()
                        && pu@ == bag_merge(mn, md, -1)
                        && u.0@ == canon_spec(terms_view(pu.terms@))
                })
                &&& (parents.len() == 2 && meta_bag_ok(parents[0]) && meta_bag_ok(parents[1])
                        && (forall|k: Seq<char>| i64::MIN
                            < #[trigger] bval(meta_bag(parents[0]).unwrap(), k)
                                - #[trigger] bval(meta_bag(parents[1]).unwrap(), k)
                            <= i64::MAX)
                    ==> (r matches Ok(o) && o is Some))
            },
            Operation::PreviousValue { .. } => match parents[0].unit {
                Some(u0) => r matches Ok(o) && o matches Some(u) && u.0@ == u0.0@,
                None => r == Ok::<Option<Unit>, ValidationError>(None),
            },
        }
}

/// Infers the unit of a formula or rejects it. Adding or subtracting
/// demands that every declared unit is the same after canonicalization,
/// and keeps that unit. Multiplying multiplies the parsed units and
/// divides likewise; an unparsable or overflowing unit degrades to no
/// inference. A temporal shift inherits its main parent's unit.
pub fn infer_and_validate_units(op: &Operation, parents: &[NodeMetadata])
    -> (r: Result<Option<Unit>, ValidationError>)
    requires
        op matches Operation::PreviousValue { .. } ==> parents@.len() >= 1,
    ensures
        units_inference_spec(*op, parents@, r),
        r is Err <==> unit_rule_errs(*op, parents@),
{
    match op {
        Operation::Add | Operation::Subtract => {
            let units = collect_units(parents);
            let n = units.len();
            if n == 0 {
                return Ok(None);
            }
            let mut j: usize = 1;
            while j < n
                invariant
                    op matches Operation::Add || op matches Operation::Subtract,
                    1 <= j <= n,
                    n == units@.len(),
                    n == units_of(parents@).len(),
                    n >= 1,
                    forall|q: int| 0 <= q < units@.len()
                        ==> (#[trigger] units@[q])@ == units_of(parents@)[q],
                    forall|q: int| 1 <= q < j
                        ==> canon_eq(units_of(parents@)[0],
                            #[trigger] units_of(parents@)[q]),
                decreases n - j,
            {
                let same = canon_eq_exec(&units[0], &units[j]);
                if !same {
                    proof {
                        assert(!canon_eq(units_of(parents@)[0], units_of(parents@)[j as int]));
                    }
                    return Err(ValidationError {
                        node_id: NodeId(0),
                        node_name: String::new(),
                        error_type: ValidationErrorType::UnitMismatch,
                        message: "Unit Mismatch: Addition/subtraction requires all units to be identical.".to_owned(),
                    });
                }
                j = j + 1;
            }
            proof {
                let us = units_of(parents@);
                assert forall|q: int| 0 <= q < us.len()
                    implies canon_eq(us[0], #[trigger] us[q]) by {
                    if q == 0 {
                        assert(canon_eq(us[0], us[0]));
                    }
                }
            }
            Ok(Some(Unit(units[0].clone())))
        },
        Operation::Multiply => {
            let units = collect_units(parents);
            let n = units.len();
            if n == 0 {
                return Ok(None);
            }
            let mut acc = ParsedUnit::new();
            proof {
                assert(units_of(parents@).take(0) =~= Seq::<Seq<char>>::empty());
            }
            let mut j: usize = 0;
            while j < n
                invariant
                    op matches Operation::Multiply,
                    n > 0,
                    0 <= j <= n,
                    n == units@.len(),
                    n == units_of(parents@).len(),
                    forall|q: int| 0 <= q < units@.len()
                        ==> (#[trigger] units@[q])@ == units_of(parents@)[q],
                    acc.wf(),
                    merge_units(units_of(parents@).take(j as int)) == Some(acc@),
                decreases n - j,
            {
                let pu = match parse_unit_checked(&units[j]) {
                    Ok(u) => u,
                    Err(_) => {
                        proof {
                            assert(!(units_of(parents@)[j as int].len() <= 0xFFFF_FF00
                                && parse_spec(units_of(parents@)[j as int]) is Some));
                            assert(!units_parse_ok(units_of(parents@)));
                        }
                        return Ok(None);
                    },
                };
                let merged = acc.try_merge(&pu, false);
                if !merged {
                    proof {
                        // A rejected merge step contradicts a bounded fold.
                        if merge_steps_bounded(units_of(parents@)) {
                            lemma_merge_bounded_at(units_of(parents@), j as int);
                            let k = choose|k: Seq<char>| !(i64::MIN
                                < #[trigger] bval(acc@, k)
                                    + crate::units::sign_of(false) * #[trigger] bval(pu@, k)
                                <= i64::MAX);
                            assert(crate::units::sign_of(false) * bval(pu@, k)
                                == 1 * bval(pu@, k));
                            assert(merge_units(units_of(parents@).take(j as int)).unwrap()
                                == acc@);
                            assert(parse_spec(units_of(parents@)[j as int]).unwrap() == pu@);
                            assert(i64::MIN < bval(merge_units(
                                units_of(parents@).take(j as int)).unwrap(), k)
                                + bval(parse_spec(units_of(parents@)[j as int]).unwrap(), k)
                                <= i64::MAX);
                            assert(false);
                        }
                    }
                    return Ok(None);
                }
                proof {
                    let p1 = units_of(parents@).take(j + 1);
                    assert(p1.drop_last() =~= units_of(parents@).take(j as int));
                    assert(p1.last() == units_of(parents@)[j as int]);
                }
                j = j + 1;
            }
            proof {
                assert(units_of(parents@).take(n as int) =~= units_of(parents@));
            }
            let text = acc.to_string();
            Ok(Some(Unit(text)))
        },
        Operation::Divide => {
            if parents.len() != 2 {
                return Ok(None);
            }
            let mut num = match &parents[0].unit {
                None => ParsedUnit::new(),
                Some(u) => match parse_unit_checked(&u.0) {
                    Ok(p) => p,
                    Err(_) => {
                        return Ok(None);
                    },
                },
            };
            let den = match &parents[1].unit {
                None => ParsedUnit::new(),
                Some(u) => match parse_unit_checked(&u.0) {
                    Ok(p) => p,
                    Err(_) => {
                        return Ok(None);
                    },
                },
            };
            let merged = num.try_merge(&den, true);
            if !merged {
                proof {
                    // A rejected difference contradicts in-range exponents.
                    let ghost mn = meta_bag(parents@[0]).unwrap();
                    let ghost md = meta_bag(parents@[1]).unwrap();
                    if meta_bag_ok(parents@[0]) && meta_bag_ok(parents@[1]) {
                        let k = choose|k: Seq<char>| !(i64::MIN
                            < #[trigger] bval(num@, k)
                                + crate::units::sign_of(true) * #[trigger] bval(den@, k)
                            <= i64::MAX);
                        assert(crate::units::sign_of(true) * bval(den@, k)
                            == -1 * bval(den@, k));
                        assert(num@ == mn && den@ == md);
                        assert(!(i64::MIN < bval(mn, k) - bval(md, k) <= i64::MAX));
                    }
                }
                return Ok(None);
            }
            let text = num.to_string();
            Ok(Some(Unit(text)))
        },
        Operation::PreviousValue { .. } => {
            match &parents[0].unit {
                Some(u) => Ok(Some(Unit(u.0.clone()))),
                None => Ok(None),
            }
        },
    }
}

} // verus!

verus! {

/// How many parents of node `n` declare a Stock temporal type.
pub open spec fn declared_stock_parents(g: &ComputationGraph, ps: Seq<NodeId>) -> int
    decreases ps.len(),
{
    if ps.len() == 0 {
        0
    } else {
        declared_stock_parents(g, ps.drop_last())
            + if g.store.meta@[ps.last().0 as int].temporal_type == Some(TemporalType::Stock) {
                1int
            } else {
                0int
            }
    }
}

/// The local temporal rule is broken at `n`: an addition or subtraction
/// of more than one declared Stock.
pub open spec fn temporal_rule_broken(g: &ComputationGraph, n: int) -> bool {
    match g.store.kinds@[n] {
        NodeKind::Formula(op) => (op == Operation::Add || op == Operation::Subtract)
            && declared_stock_parents(g, g.store.parents_seq(n)) > 1,
        _ => false,
    }
}

/// The local unit rule is broken at `n`: an addition or subtraction
/// whose parents declare two different units.
pub open spec fn unit_rule_broken(g: &ComputationGraph, n: int) -> bool {
    match g.store.kinds@[n] {
        NodeKind::Formula(op) => (op == Operation::Add || op == Operation::Subtract)
            && exists|j1: int, j2: int| {
                &&& 0 <= j1 < g.store.parents_seq(n).len()
                &&& 0 <= j2 < g.store.parents_seq(n).len()
                &&& g.store.meta@[(#[trigger] g.store.parents_seq(n)[j1]).0 as int].unit
                    is Some
                &&& g.store.meta@[(#[trigger] g.store.parents_seq(n)[j2]).0 as int].unit
                    is Some
                &&& g.store.meta@[g.store.parents_seq(n)[j1].0 as int].unit.unwrap().0@
                    != g.store.meta@[g.store.parents_seq(n)[j2].0 as int].unit.unwrap().0@
            },
        _ => false,
    }
}

/// The rule validator: applies the local temporal and unit rules to every
/// node, with no inference — only declared metadata is consulted.
pub struct Validator<'a> {
    pub graph: &'a ComputationGraph,
}

impl<'a> Validator<'a> {
    /// A validator over the given graph.
    pub fn new(graph: &'a ComputationGraph) -> (r: Self)
        ensures
            r.graph == graph,
    {
        Validator { graph }
    }

    /// Checks every node against the local rules, collecting all findings.
    /// Succeeds exactly when no node breaks either rule; otherwise every
    /// entry names a node that breaks the rule of its kind, and every
    /// broken rule has its entry.
    #[verifier::rlimit(100)]
    pub fn validate(&self) -> (r: Result<(), Vec<ValidationError>>)
        requires
            self.graph.wf(),
        ensures
            r is Ok <==> forall|n: int| 0 <= n < self.graph.store.kinds@.len()
                ==> !temporal_rule_broken(self.graph, n) && !unit_rule_broken(self.graph, n),
            r matches Err(v) ==> {
                &&& v@.len() > 0
                &&& forall|e: int| 0 <= e < v@.len() ==> {
                    let n = (#[trigger] v@[e]).node_id.0 as int;
                    &&& 0 <= n < self.graph.store.kinds@.len()
                    &&& (v@[e].error_type == ValidationErrorType::TemporalMismatch
                        ==> temporal_rule_broken(self.graph, n))
                    &&& (v@[e].error_type == ValidationErrorType::UnitMismatch
                        ==> unit_rule_broken(self.graph, n))
                    &&& (v@[e].error_type == ValidationErrorType::TemporalMismatch
                        || v@[e].error_type == ValidationErrorType::UnitMismatch)
                }
                &&& forall|n: int| 0 <= n < self.graph.store.kinds@.len()
                        && #[trigger] temporal_rule_broken(self.graph, n)
                    ==> exists|e: int| 0 <= e < v@.len()
                        && ((#[trigger] v@[e]).node_id.0 as int) == n
                        && v@[e].error_type == ValidationErrorType::TemporalMismatch
                &&& forall|n: int| 0 <= n < self.graph.store.kinds@.len()
                        && #[trigger] unit_rule_broken(self.graph, n)
                    ==> exists|e: int| 0 <= e < v@.len()
                        && ((#[trigger] v@[e]).node_id.0 as int) == n
                        && v@[e].error_type == ValidationErrorType::UnitMismatch
            },
    {
        let g = self.graph;
        let count = g.node_count();
        let mut errors: Vec<ValidationError> = Vec::new();
        let mut n: usize = 0;
        while n < count
            invariant
                0 <= n <= count,
                count == g.store.kinds@.len(),
                g == self.graph,
                g.wf(),
                errors@.len() == 0 <==> forall|m: int| 0 <= m < n
                    ==> !temporal_rule_broken(g, m) && !unit_rule_broken(g, m),
                forall|e: int| 0 <= e < errors@.len() ==> {
                    let m = (#[trigger] errors@[e]).node_id.0 as int;
                    &&& 0 <= m < n
                    &&& (errors@[e].error_type == ValidationErrorType::TemporalMismatch
                        ==> temporal_rule_broken(g, m))
                    &&& (errors@[e].error_type == ValidationErrorType::UnitMismatch
                        ==> unit_rule_broken(g, m))
                    &&& (errors@[e].error_type == ValidationErrorType::TemporalMismatch
                        || errors@[e].error_type == ValidationErrorType::UnitMismatch)
                },
                forall|m: int| 0 <= m < n && #[trigger] temporal_rule_broken(g, m)
                    ==> exists|e: int| 0 <= e < errors@.len()
                        && ((#[trigger] errors@[e]).node_id.0 as int) == m
                        && errors@[e].error_type == ValidationErrorType::TemporalMismatch,
                forall|m: int| 0 <= m < n && #[trigger] unit_rule_broken(g, m)
                    ==> exists|e: int| 0 <= e < errors@.len()
                        && ((#[trigger] errors@[e]).node_id.0 as int) == m
                        && errors@[e].error_type == ValidationErrorType::UnitMismatch,
            decreases count - n,
        {
            let node = NodeId(n as u32);
            match g.get_node_kind(node) {
                NodeKind::Formula(op) => {
                    let is_addsub = match op {
                        Operation::Add => true,
                        Operation::Subtract => true,
                        _ => false,
                    };
                    if is_addsub {
                        let parents = g.get_parents(node);
                        let ghost ps = g.store.parents_seq(n as int);
                        let np = parents.len();
                        // Count declared stocks and find two distinct units.
                        let mut stocks: usize = 0;
                        let mut first_unit: Option<&String> = None;
                        let mut units_differ = false;
                        let ghost mut fu_j: int = 0;
                        let ghost mut w1: int = 0;
                        let ghost mut w2: int = 0;
                        let mut j: usize = 0;
                        while j < np
                            invariant
                                0 <= j <= np,
                                np == ps.len(),
                                parents@ == ps,
                                ps == g.store.parents_seq(n as int),
                                g.wf(),
                                (n as int) < g.store.kinds@.len(),
                                forall|q: int| 0 <= q < ps.len()
                                    ==> ((#[trigger] ps[q]).0 as int) < g.store.kinds@.len(),
                                stocks == declared_stock_parents(g, ps.take(j as int)),
                                stocks <= j,
                                match first_unit {
                                    Some(u) => 0 <= fu_j < j
                                        && g.store.meta@[ps[fu_j].0 as int].unit is Some
                                        && u@ == g.store.meta@[ps[fu_j].0 as int]
                                            .unit.unwrap().0@,
                                    None => forall|q: int| 0 <= q < j
                                        ==> g.store.meta@[(#[trigger] ps[q]).0 as int].unit
                                            is None,
                                },
                                units_differ ==> 0 <= w1 < j && 0 <= w2 < j
                                    && g.store.meta@[ps[w1].0 as int].unit is Some
                                    && g.store.meta@[ps[w2].0 as int].unit is Some
                                    && g.store.meta@[ps[w1].0 as int].unit.unwrap().0@
                                        != g.store.meta@[ps[w2].0 as int].unit.unwrap().0@,
                                !units_differ ==> forall|q1: int, q2: int|
                                    0 <= q1 < j && 0 <= q2 < j
                                    ==> !(g.store.meta@[(#[trigger] ps[q1]).0 as int].unit
                                            is Some
                                        && g.store.meta@[(#[trigger] ps[q2]).0 as int].unit
                                            is Some
                                        && g.store.meta@[ps[q1].0 as int].unit.unwrap().0@
                                            != g.store.meta@[ps[q2].0 as int].unit
                                                .unwrap().0@),
                            decreases np - j,
                        {
                            let p = parents[j];
                            let pm = g.get_node_meta(p);
                            proof {
                                let p1 = ps.take(j + 1);
                                assert(p1.drop_last() =~= ps.take(j as int));
                                assert(p1.last() == ps[j as int]);
                            }
                            let is_stock = match &pm.temporal_type {
                                Some(TemporalType::Stock) => true,
                                _ => false,
                            };
                            if is_stock {
                                stocks = stocks + 1;
                            }
                            match &pm.unit {
                                Some(u) => {
                                    match first_unit {
                                        None => {
                                            first_unit = Some(&u.0);
                                            proof {
                                                fu_j = j as int;
                                            }
                                        },
                                        Some(fu) => {
                                            if !units_differ {
                                                if !(*fu == u.0) {
                                                    units_differ = true;
                                                    proof {
                                                        w1 = fu_j;
                                                        w2 = j as int;
                                                    }
                                                }
                                            }
                                        },
                                    }
                                },
                                None => {},
                            }
                            proof {
                                if !units_differ {
                                    assert forall|q1: int, q2: int|
                                        0 <= q1 < j + 1 && 0 <= q2 < j + 1
                                        implies !(g.store.meta@[
                                                (#[trigger] ps[q1]).0 as int].unit is Some
                                            && g.store.meta@[
                                                (#[trigger] ps[q2]).0 as int].unit is Some
                                            && g.store.meta@[ps[q1].0 as int].unit
                                                .unwrap().0@
                                                != g.store.meta@[ps[q2].0 as int].unit
                                                    .unwrap().0@) by {
                                        if g.store.meta@[ps[q1].0 as int].unit is Some
                                            && g.store.meta@[ps[q2].0 as int].unit is Some {
                                            assert(g.store.meta@[ps[q1].0 as int].unit
                                                .unwrap().0@
                                                == g.store.meta@[ps[fu_j].0 as int]
                                                    .unit.unwrap().0@);
                                            assert(g.store.meta@[ps[q2].0 as int].unit
                                                .unwrap().0@
                                                == g.store.meta@[ps[fu_j].0 as int]
                                                    .unit.unwrap().0@);
                                        }
                                    }
                                }
                            }
                            j = j + 1;
                        }
                        proof {
                            assert(ps.take(np as int) =~= ps);
                        }
                        let node_name = g.get_node_meta(node).name.clone();
                        let ghost errs_before = errors@;
                        let ghost mut idx_t: int = -1;
                        if stocks > 1 {
                            proof {
                                idx_t = errors@.len() as int;
                            }
                            errors.push(ValidationError {
                                node_id: node,
                                node_name: node_name.clone(),
                                error_type: ValidationErrorType::TemporalMismatch,
                                message: "Temporal Error: Attempted to add or subtract multiple 'Stock' variables.".to_owned(),
                            });
                        }
                        let ghost mut idx_u: int = -1;
                        if units_differ {
                            proof {
                                idx_u = errors@.len() as int;
                            }
                            errors.push(ValidationError {
                                node_id: node,
                                node_name,
                                error_type: ValidationErrorType::UnitMismatch,
                                message: "Unit Mismatch: Attempted to add or subtract variables with incompatible units.".to_owned(),
                            });
                        }
                        proof {
                            if stocks > 1 {
                                assert(temporal_rule_broken(g, n as int));
                            }
                            if units_differ {
                                assert(unit_rule_broken(g, n as int));
                            }
                            // The per-rule witnesses carry over to the
                            // extended list and the extended node range.
                            assert forall|m: int| 0 <= m < n + 1
                                && #[trigger] temporal_rule_broken(g, m)
                                implies exists|e: int| 0 <= e < errors@.len()
                                    && ((#[trigger] errors@[e]).node_id.0 as int) == m
                                    && errors@[e].error_type
                                        == ValidationErrorType::TemporalMismatch by {
                                if m < n {
                                    let e = choose|e: int| 0 <= e < errs_before.len()
                                        && ((#[trigger] errs_before[e]).node_id.0 as int) == m
                                        && errs_before[e].error_type
                                            == ValidationErrorType::TemporalMismatch;
                                    assert(errors@[e] == errs_before[e]);
                                } else {
                                    assert(errors@[idx_t].node_id == node);
                                }
                            }
                            assert forall|m: int| 0 <= m < n + 1
                                && #[trigger] unit_rule_broken(g, m)
                                implies exists|e: int| 0 <= e < errors@.len()
                                    && ((#[trigger] errors@[e]).node_id.0 as int) == m
                                    && errors@[e].error_type
                                        == ValidationErrorType::UnitMismatch by {
                                if m < n {
                                    let e = choose|e: int| 0 <= e < errs_before.len()
                                        && ((#[trigger] errs_before[e]).node_id.0 as int) == m
                                        && errs_before[e].error_type
                                            == ValidationErrorType::UnitMismatch;
                                    assert(errors@[e] == errs_before[e]);
                                } else {
                                    assert(errors@[idx_u].node_id == node);
                                }
                            }
                            if stocks <= 1 && !units_differ {
                                assert(!temporal_rule_broken(g, n as int));
                                if unit_rule_broken(g, n as int) {
                                    let (j1, j2) = choose|j1: int, j2: int| {
                                        &&& 0 <= j1 < g.store.parents_seq(n as int).len()
                                        &&& 0 <= j2 < g.store.parents_seq(n as int).len()
                                        &&& g.store.meta@[(#[trigger] g.store.parents_seq(
                                            n as int)[j1]).0 as int].unit is Some
                                        &&& g.store.meta@[(#[trigger] g.store.parents_seq(
                                            n as int)[j2]).0 as int].unit is Some
                                        &&& g.store.meta@[g.store.parents_seq(n as int)[j1]
                                            .0 as int].unit.unwrap().0@
                                            != g.store.meta@[g.store.parents_seq(n as int)[j2]
                                                .0 as int].unit.unwrap().0@
                                    };
                                    assert(false);
                                }
                            }
                        }
                    } else {
                        proof {
                            assert(!temporal_rule_broken(g, n as int));
                            assert(!unit_rule_broken(g, n as int));
                        }
                    }
                },
                _ => {
                    proof {
                        assert(!temporal_rule_broken(g, n as int));
                        assert(!unit_rule_broken(g, n as int));
                    }
                },
            }
            n = n + 1;
        }
        if errors.len() == 0 {
            Ok(())
        } else {
            Err(errors)
        }
    }
}

} // verus!

verus! {

/// A field-for-field copy of node metadata.
fn clone_meta(m: &NodeMetadata) -> (r: NodeMetadata)
    ensures
        r == *m,
{
    NodeMetadata {
        name: m.name.clone(),
        temporal_type: match &m.temporal_type {
            Some(TemporalType::Stock) => Some(TemporalType::Stock),
            Some(TemporalType::Flow) => Some(TemporalType::Flow),
            None => None,
        },
        unit: match &m.unit {
            Some(u) => Some(Unit(u.0.clone())),
            None => None,
        },
    }
}

/// The inferred temporal type a formula's parents force on it: the
/// rules of `temporal_inference_spec`, with `None` for a rejection.
pub open spec fn temporal_verdict(op: Operation, parents: Seq<NodeMetadata>)
    -> Option<TemporalType>
{
    match op {
        Operation::Add | Operation::Subtract => {
            let stocks = count_temporal(parents, TemporalType::Stock);
            let flows = count_temporal(parents, TemporalType::Flow);
            if stocks > 1 { None } else if stocks == 1 { Some(TemporalType::Stock) }
            else if flows > 0 { Some(TemporalType::Flow) } else { None }
        },
        Operation::Multiply | Operation::Divide => {
            let stocks = count_temporal(parents, TemporalType::Stock);
            let flows = count_temporal(parents, TemporalType::Flow);
            if stocks > 0 { None } else if flows > 0 { Some(TemporalType::Flow) } else { None }
        },
        Operation::PreviousValue { .. } => parents[0].temporal_type,
    }
}

/// The metadata the inference table assigns to a formula's parents.
pub open spec fn inferred_parent_metas(
    g: &ComputationGraph,
    inf: Seq<Option<NodeMetadata>>,
    n: int,
) -> Seq<NodeMetadata> {
    Seq::new(
        g.store.parents_seq(n).len(),
        |j: int| inf[g.store.parents_seq(n)[j].0 as int].unwrap(),
    )
}

/// A lag without a main parent: the one formula shape the inference
/// cannot process, reported as a structural finding.
pub open spec fn lag_without_parent(g: &ComputationGraph, n: int) -> bool {
    match g.store.kinds@[n] {
        NodeKind::Formula(op) => (op matches Operation::PreviousValue { .. })
            && g.store.parents_seq(n).len() == 0,
        _ => false,
    }
}

/// One row of the inference table is consistent with the rules: a
/// constant or variable carries its own metadata; a formula carries its
/// registry name, the temporal verdict over its parents' inferred
/// metadata, and a unit obeying the unit rule (with `None` for any
/// rejection).
pub open spec fn node_inference_ok(
    g: &ComputationGraph,
    inf: Seq<Option<NodeMetadata>>,
    n: int,
) -> bool {
    match g.store.kinds@[n] {
        NodeKind::Formula(op) => {
            &&& forall|j: int| 0 <= j < g.store.parents_seq(n).len()
                ==> inf[(#[trigger] g.store.parents_seq(n)[j]).0 as int] is Some
            &&& if lag_without_parent(g, n) {
                inf[n] == Some(NodeMetadata {
                    name: g.store.meta@[n].name,
                    temporal_type: None::<TemporalType>,
                    unit: None::<Unit>,
                })
            } else {
                inf[n] matches Some(me)
                    && me.name == g.store.meta@[n].name
                    && me.temporal_type
                        == temporal_verdict(op, inferred_parent_metas(g, inf, n))
                    && exists|ru: Result<Option<Unit>, ValidationError>|
                        #[trigger] units_inference_spec(
                            op, inferred_parent_metas(g, inf, n), ru)
                        && me.unit == (match ru { Ok(u) => u, Err(_) => None::<Unit> })
            }
        },
        _ => inf[n] == Some(g.store.meta@[n]),
    }
}

/// The findings the analyzer owes for node `n` against the inference
/// table: a parentless lag is structural; a formula is flagged
/// temporally when the rule rejects it or a declared temporal type
/// disagrees with the verdict, and dimensionally when the unit rule
/// rejects it or a declared unit disagrees with the inferred one.
pub open spec fn checker_finding(
    g: &ComputationGraph,
    inf: Seq<Option<NodeMetadata>>,
    n: int,
    kind: ValidationErrorType,
) -> bool {
    match g.store.kinds@[n] {
        NodeKind::Formula(op) => {
            if lag_without_parent(g, n) {
                kind == ValidationErrorType::Structure
            } else {
                let pm = inferred_parent_metas(g, inf, n);
                ||| (kind == ValidationErrorType::TemporalMismatch
                    && (temporal_rule_errs(op, pm)
                        || (g.store.meta@[n].temporal_type is Some
                            && g.store.meta@[n].temporal_type
                                != inf[n].unwrap().temporal_type)))
                ||| (kind == ValidationErrorType::UnitMismatch
                    && (unit_rule_errs(op, pm)
                        || (g.store.meta@[n].unit matches Some(du)
                            && (match inf[n].unwrap().unit {
                                None => true,
                                Some(iu) => du.0@ != iu.0@,
                            }))))
            }
        },
        _ => false,
    }
}

/// Any finding at all for node `n`.
pub open spec fn any_finding(g: &ComputationGraph, inf: Seq<Option<NodeMetadata>>, n: int)
    -> bool
{
    ||| checker_finding(g, inf, n, ValidationErrorType::TemporalMismatch)
    ||| checker_finding(g, inf, n, ValidationErrorType::UnitMismatch)
    ||| checker_finding(g, inf, n, ValidationErrorType::Structure)
}

/// One processing step keeps every earlier row, entry and finding in
/// place, and extends the error list by exactly the new node's findings.
#[verifier::rlimit(100)]
proof fn lemma_step_preserves(
    g: &ComputationGraph,
    order: Seq<NodeId>,
    t: int,
    inf0: Seq<Option<NodeMetadata>>,
    inf1: Seq<Option<NodeMetadata>>,
    errs0: Seq<ValidationError>,
    errs1: Seq<ValidationError>,
)
    requires
        g.wf(),
        crate::topology::is_topo_order(&g.store, order),
        0 <= t < order.len(),
        inf0.len() == g.store.kinds@.len(),
        inf1.len() == g.store.kinds@.len(),
        forall|i: int| 0 <= i < inf0.len() && i != order[t].0 as int
            ==> #[trigger] inf1[i] == inf0[i],
        inf1[order[t].0 as int] is Some,
        node_inference_ok(g, inf1, order[t].0 as int),
        forall|k: int| 0 <= k < t ==> inf0[(#[trigger] order[k]).0 as int] is Some,
        forall|k: int| 0 <= k < t
            ==> node_inference_ok(g, inf0, (#[trigger] order[k]).0 as int),
        forall|e: int| 0 <= e < errs0.len() ==> {
            let n = (#[trigger] errs0[e]).node_id.0 as int;
            &&& 0 <= n < g.store.kinds@.len()
            &&& exists|k: int| 0 <= k < t && ((#[trigger] order[k]).0 as int) == n
            &&& checker_finding(g, inf0, n, errs0[e].error_type)
        },
        forall|k: int, kind: ValidationErrorType|
            0 <= k < t && #[trigger] checker_finding(g, inf0,
                (#[trigger] order[k]).0 as int, kind)
            ==> exists|e: int| 0 <= e < errs0.len()
                && ((#[trigger] errs0[e]).node_id.0 as int) == order[k].0 as int
                && errs0[e].error_type == kind,
        errs1.len() >= errs0.len(),
        forall|e: int| 0 <= e < errs0.len() ==> #[trigger] errs1[e] == errs0[e],
        forall|e: int| errs0.len() <= e < errs1.len()
            ==> (#[trigger] errs1[e]).node_id == order[t]
                && checker_finding(g, inf1, order[t].0 as int, errs1[e].error_type),
        forall|kind: ValidationErrorType|
            #[trigger] checker_finding(g, inf1, order[t].0 as int, kind)
            ==> exists|e: int| errs0.len() <= e < errs1.len()
                && (#[trigger] errs1[e]).error_type == kind,
    ensures
        forall|k: int| 0 <= k < t + 1 ==> inf1[(#[trigger] order[k]).0 as int] is Some,
        forall|k: int| 0 <= k < t + 1
            ==> node_inference_ok(g, inf1, (#[trigger] order[k]).0 as int),
        forall|e: int| 0 <= e < errs1.len() ==> {
            let n = (#[trigger] errs1[e]).node_id.0 as int;
            &&& 0 <= n < g.store.kinds@.len()
            &&& exists|k: int| 0 <= k < t + 1 && ((#[trigger] order[k]).0 as int) == n
            &&& checker_finding(g, inf1, n, errs1[e].error_type)
        },
        forall|k: int, kind: ValidationErrorType|
            0 <= k < t + 1 && #[trigger] checker_finding(g, inf1,
                (#[trigger] order[k]).0 as int, kind)
            ==> exists|e: int| 0 <= e < errs1.len()
                && ((#[trigger] errs1[e]).node_id.0 as int) == order[k].0 as int
                && errs1[e].error_type == kind,
{
    assert forall|k: int| 0 <= k < t + 1
        implies inf1[(#[trigger] order[k]).0 as int] is Some by {
        if k < t {
            assert(order[k].0 != order[t].0);
        }
    }
    assert forall|k: int| 0 <= k < t + 1
        implies node_inference_ok(g, inf1, (#[trigger] order[k]).0 as int) by {
        if k < t {
            lemma_row_stable(g, inf0, inf1, order, t, k);
        }
    }
    assert forall|e: int| 0 <= e < errs1.len() implies {
        let n = (#[trigger] errs1[e]).node_id.0 as int;
        &&& 0 <= n < g.store.kinds@.len()
        &&& exists|k: int| 0 <= k < t + 1 && ((#[trigger] order[k]).0 as int) == n
        &&& checker_finding(g, inf1, n, errs1[e].error_type)
    } by {
        if e < errs0.len() {
            assert(errs1[e] == errs0[e]);
            let n2 = errs0[e].node_id.0 as int;
            let k = choose|k: int| 0 <= k < t && ((#[trigger] order[k]).0 as int) == n2;
            lemma_row_stable(g, inf0, inf1, order, t, k);
        } else {
            assert(order[t].0 as int == errs1[e].node_id.0 as int);
        }
    }
    assert forall|k: int, kind: ValidationErrorType|
        0 <= k < t + 1 && #[trigger] checker_finding(g, inf1,
            (#[trigger] order[k]).0 as int, kind)
        implies exists|e: int| 0 <= e < errs1.len()
            && ((#[trigger] errs1[e]).node_id.0 as int) == order[k].0 as int
            && errs1[e].error_type == kind by {
        if k < t {
            lemma_row_stable(g, inf0, inf1, order, t, k);
            assert(checker_finding(g, inf0, order[k].0 as int, kind));
            let e = choose|e: int| 0 <= e < errs0.len()
                && ((#[trigger] errs0[e]).node_id.0 as int) == order[k].0 as int
                && errs0[e].error_type == kind;
            assert(errs1[e] == errs0[e]);
        } else {
            let e = choose|e: int| errs0.len() <= e < errs1.len()
                && (#[trigger] errs1[e]).error_type == kind;
            assert((errs1[e].node_id.0 as int) == order[k].0 as int);
        }
    }
}

/// With the whole order processed and no entry collected, no node has
/// any finding.
proof fn lemma_no_entries_no_findings(
    g: &ComputationGraph,
    order: Seq<NodeId>,
    inf: Seq<Option<NodeMetadata>>,
    errs: Seq<ValidationError>,
)
    requires
        g.wf(),
        crate::topology::is_topo_order(&g.store, order),
        errs.len() == 0,
        forall|k: int, kind: ValidationErrorType|
            0 <= k < order.len() && #[trigger] checker_finding(g, inf,
                (#[trigger] order[k]).0 as int, kind)
            ==> exists|e: int| 0 <= e < errs.len()
                && ((#[trigger] errs[e]).node_id.0 as int) == order[k].0 as int
                && errs[e].error_type == kind,
    ensures
        forall|n: int| 0 <= n < g.store.kinds@.len() ==> !any_finding(g, inf, n),
{
    assert forall|n: int| 0 <= n < g.store.kinds@.len()
        implies !any_finding(g, inf, n) by {
        let k = crate::topology::seq_pos(order, n as u32);
        assert(0 <= k < order.len() && order[k].0 as int == n);
        if checker_finding(g, inf, order[k].0 as int,
            ValidationErrorType::TemporalMismatch) {
            assert(false);
        }
        if checker_finding(g, inf, order[k].0 as int, ValidationErrorType::UnitMismatch) {
            assert(false);
        }
        if checker_finding(g, inf, order[k].0 as int, ValidationErrorType::Structure) {
            assert(false);
        }
    }
}

/// A nonempty collected list certifies its findings: every entry names a
/// real finding, every finding has an entry, and at least one node has a
/// finding at all.
#[verifier::rlimit(100)]
proof fn lemma_err_list_complete(
    g: &ComputationGraph,
    order: Seq<NodeId>,
    inf: Seq<Option<NodeMetadata>>,
    errs: Seq<ValidationError>,
    out: Seq<ValidationError>,
)
    requires
        g.wf(),
        crate::topology::is_topo_order(&g.store, order),
        errs.len() > 0,
        out.len() == errs.len(),
        forall|q: int| 0 <= q < out.len() ==> #[trigger] out[q] == errs[q],
        forall|e: int| 0 <= e < errs.len() ==> {
            let n = (#[trigger] errs[e]).node_id.0 as int;
            &&& 0 <= n < g.store.kinds@.len()
            &&& checker_finding(g, inf, n, errs[e].error_type)
        },
        forall|k: int, kind: ValidationErrorType|
            0 <= k < order.len() && #[trigger] checker_finding(g, inf,
                (#[trigger] order[k]).0 as int, kind)
            ==> exists|e: int| 0 <= e < errs.len()
                && ((#[trigger] errs[e]).node_id.0 as int) == order[k].0 as int
                && errs[e].error_type == kind,
    ensures
        forall|e: int| 0 <= e < out.len() ==> {
            let n = (#[trigger] out[e]).node_id.0 as int;
            0 <= n < g.store.kinds@.len() && checker_finding(g, inf, n, out[e].error_type)
        },
        forall|n: int, kind: ValidationErrorType|
            0 <= n < g.store.kinds@.len() && #[trigger] checker_finding(g, inf, n, kind)
            ==> exists|e: int| 0 <= e < out.len()
                && ((#[trigger] out[e]).node_id.0 as int) == n
                && out[e].error_type == kind,
        !(forall|n: int| 0 <= n < g.store.kinds@.len() ==> !any_finding(g, inf, n)),
{
    assert forall|e: int| 0 <= e < out.len() implies {
        let n = (#[trigger] out[e]).node_id.0 as int;
        0 <= n < g.store.kinds@.len() && checker_finding(g, inf, n, out[e].error_type)
    } by {
        assert(out[e] == errs[e]);
    }
    assert forall|n: int, kind: ValidationErrorType|
        0 <= n < g.store.kinds@.len() && #[trigger] checker_finding(g, inf, n, kind)
        implies exists|e: int| 0 <= e < out.len()
            && ((#[trigger] out[e]).node_id.0 as int) == n
            && out[e].error_type == kind by {
        let k = crate::topology::seq_pos(order, n as u32);
        assert(0 <= k < order.len() && order[k].0 as int == n);
        let e = choose|e: int| 0 <= e < errs.len()
            && ((#[trigger] errs[e]).node_id.0 as int) == n
            && errs[e].error_type == kind;
        assert(out[e] == errs[e]);
    }
    let n0 = errs[0].node_id.0 as int;
    assert(checker_finding(g, inf, n0, errs[0].error_type));
    assert(any_finding(g, inf, n0));
}

/// The two-phase inference checker: walks the graph in topological order,
/// infers each formula's temporal type and unit from its parents'
/// inferred metadata, and then verifies any declared metadata against
/// the inference. Findings are collected rather than short-circuited.
pub struct TypeChecker<'a> {
    pub graph: &'a ComputationGraph,
    pub inferred_meta: Vec<Option<NodeMetadata>>,
    pub errors: Vec<ValidationError>,
}

impl<'a> TypeChecker<'a> {
    /// A checker over the given graph.
    pub fn new(graph: &'a ComputationGraph) -> (r: Self)
        ensures
            r.graph == graph,
            r.errors@.len() == 0,
    {
        TypeChecker { graph, inferred_meta: Vec::new(), errors: Vec::new() }
    }

    /// Runs inference and verification over every node: succeeds exactly
    /// when no node yields a finding against the completed inference
    /// table, and otherwise returns one entry per finding, carrying the
    /// failing node's id and the finding's kind.
    #[verifier::rlimit(100)]
    pub fn check_and_infer(&mut self) -> (r: Result<(), Vec<ValidationError>>)
        requires
            old(self).graph.wf(),
        ensures
            final(self).graph == old(self).graph,
            final(self).inferred_meta@.len() == old(self).graph.store.kinds@.len(),
            forall|n: int| 0 <= n < old(self).graph.store.kinds@.len()
                ==> node_inference_ok(old(self).graph, final(self).inferred_meta@, n),
            r is Ok <==> forall|n: int| 0 <= n < old(self).graph.store.kinds@.len()
                ==> !any_finding(old(self).graph, final(self).inferred_meta@, n),
            r matches Err(v) ==> {
                &&& v@.len() > 0
                &&& forall|e: int| 0 <= e < v@.len() ==> {
                    let n = (#[trigger] v@[e]).node_id.0 as int;
                    0 <= n < old(self).graph.store.kinds@.len()
                        && checker_finding(old(self).graph, final(self).inferred_meta@, n,
                            v@[e].error_type)
                }
                &&& forall|n: int, kind: ValidationErrorType|
                    0 <= n < old(self).graph.store.kinds@.len()
                        && #[trigger] checker_finding(old(self).graph,
                            final(self).inferred_meta@, n, kind)
                    ==> exists|e: int| 0 <= e < v@.len()
                        && ((#[trigger] v@[e]).node_id.0 as int) == n
                        && v@[e].error_type == kind
            },
    {
        let g = self.graph;
        let order = match g.topological_order() {
            Ok(o) => o,
            Err(_) => {
                proof {
                    // Registries built through the mutation API always sort.
                    assert(crate::topology::parents_precede(&g.store));
                    assert(false);
                }
                return Err(Vec::new());
            },
        };
        let count = g.node_count();
        self.errors = Vec::new();
        let mut inferred: Vec<Option<NodeMetadata>> = Vec::new();
        let mut i: usize = 0;
        while i < count
            invariant
                0 <= i <= count,
                inferred@.len() == i,
                forall|q: int| 0 <= q < i ==> #[trigger] inferred@[q] is None,
            decreases count - i,
        {
            inferred.push(None);
            i = i + 1;
        }
        self.inferred_meta = inferred;
        let n_order = order.len();
        let mut t: usize = 0;
        while t < n_order
            invariant
                0 <= t <= n_order,
                n_order == order@.len(),
                g == self.graph,
                g.wf(),
                count == g.store.kinds@.len(),
                crate::topology::is_topo_order(&g.store, order@),
                self.inferred_meta@.len() == count,
                forall|k: int| 0 <= k < t
                    ==> self.inferred_meta@[(#[trigger] order@[k]).0 as int] is Some,
                forall|k: int| 0 <= k < t
                    ==> node_inference_ok(g, self.inferred_meta@,
                        (#[trigger] order@[k]).0 as int),
                forall|e: int| 0 <= e < self.errors@.len() ==> {
                    let n = (#[trigger] self.errors@[e]).node_id.0 as int;
                    &&& 0 <= n < count
                    &&& exists|k: int| 0 <= k < t && ((#[trigger] order@[k]).0 as int) == n
                    &&& checker_finding(g, self.inferred_meta@, n,
                        self.errors@[e].error_type)
                },
                forall|k: int, kind: ValidationErrorType|
                    0 <= k < t && #[trigger] checker_finding(g, self.inferred_meta@,
                        (#[trigger] order@[k]).0 as int, kind)
                    ==> exists|e: int| 0 <= e < self.errors@.len()
                        && ((#[trigger] self.errors@[e]).node_id.0 as int)
                            == order@[k].0 as int
                        && self.errors@[e].error_type == kind,
            decreases n_order - t,
        {
            let node = order[t];
            let ghost inf0 = self.inferred_meta@;
            let ghost errs0 = self.errors@;
            proof {
                // Every parent of this node sits earlier in the order, so
                // its table row is already filled.
                assert forall|j: int|
                    0 <= j < g.store.parents_seq(node.0 as int).len()
                    implies self.inferred_meta@[
                        (#[trigger] g.store.parents_seq(node.0 as int)[j]).0 as int]
                        is Some by {
                    let p = g.store.parents_seq(node.0 as int)[j].0;
                    let tp = crate::topology::seq_pos(order@, p);
                    assert(0 <= tp < t && order@[tp].0 == p);
                }
            }
            self.check_node(node);
            proof {
                lemma_step_preserves(g, order@, t as int, inf0, self.inferred_meta@,
                    errs0, self.errors@);
            }
            t = t + 1;
        }
        proof {
            // Every node of the graph was processed.
            assert forall|n: int| 0 <= n < count
                implies node_inference_ok(g, self.inferred_meta@, n) by {
                let k = crate::topology::seq_pos(order@, n as u32);
                assert(0 <= k < order@.len() && order@[k].0 as int == n);
            }
        }
        if self.errors.len() == 0 {
            proof {
                lemma_no_entries_no_findings(g, order@, self.inferred_meta@, self.errors@);
            }
            Ok(())
        } else {
            let mut out: Vec<ValidationError> = Vec::new();
            let ne = self.errors.len();
            let mut k: usize = 0;
            while k < ne
                invariant
                    0 <= k <= ne,
                    ne == self.errors@.len(),
                    out@.len() == k,
                    forall|q: int| 0 <= q < k ==> #[trigger] out@[q] == self.errors@[q],
                decreases ne - k,
            {
                out.push(self.errors[k].clone());
                k = k + 1;
            }
            proof {
                lemma_err_list_complete(g, order@, self.inferred_meta@, self.errors@, out@);
            }
            Err(out)
        }
    }
}

/// A processed row, its verdicts and its findings are untouched by
/// processing a later node of the order: the later node is distinct from
/// the row and from all of its parents.
proof fn lemma_row_stable(
    g: &ComputationGraph,
    inf0: Seq<Option<NodeMetadata>>,
    inf1: Seq<Option<NodeMetadata>>,
    order: Seq<NodeId>,
    t: int,
    k: int,
)
    requires
        g.wf(),
        crate::topology::is_topo_order(&g.store, order),
        0 <= k < t < order.len(),
        inf0.len() == g.store.kinds@.len(),
        inf1.len() == g.store.kinds@.len(),
        forall|i: int| 0 <= i < inf0.len() && i != order[t].0 as int
            ==> #[trigger] inf1[i] == inf0[i],
        node_inference_ok(g, inf0, order[k].0 as int),
    ensures
        node_inference_ok(g, inf1, order[k].0 as int),
        forall|kind: ValidationErrorType|
            #[trigger] checker_finding(g, inf1, order[k].0 as int, kind)
                == checker_finding(g, inf0, order[k].0 as int, kind),
{
    let m = order[k].0 as int;
    assert(order[k].0 != order[t].0);
    assert(inf1[m] == inf0[m]);
    match g.store.kinds@[m] {
        NodeKind::Formula(op) => {
            // Parents of the row sit even earlier in the order.
            assert forall|j: int| 0 <= j < g.store.parents_seq(m).len()
                implies inf1[(#[trigger] g.store.parents_seq(m)[j]).0 as int]
                    == inf0[g.store.parents_seq(m)[j].0 as int] by {
                let p = g.store.parents_seq(m)[j].0;
                let tp = crate::topology::seq_pos(order, p);
                assert(0 <= tp < k && order[tp].0 == p);
                assert(order[tp].0 != order[t].0);
            }
            assert(inferred_parent_metas(g, inf1, m) =~= inferred_parent_metas(g, inf0, m));
        },
        _ => {},
    }
}

} // verus!

verus! {

impl<'a> TypeChecker<'a> {
    /// Infers one node's metadata from its parents' table rows, records
    /// the row, verifies declared metadata against it, and appends one
    /// finding per violated rule.
    #[verifier::rlimit(100)]
    fn check_node(&mut self, node: NodeId)
        requires
            old(self).graph.wf(),
            (node.0 as int) < old(self).graph.store.kinds@.len(),
            old(self).inferred_meta@.len() == old(self).graph.store.kinds@.len(),
            forall|j: int|
                0 <= j < old(self).graph.store.parents_seq(node.0 as int).len()
                ==> old(self).inferred_meta@[
                    (#[trigger] old(self).graph.store.parents_seq(node.0 as int)[j]).0 as int]
                    is Some,
        ensures
            final(self).graph == old(self).graph,
            final(self).inferred_meta@.len() == old(self).inferred_meta@.len(),
            forall|i: int| 0 <= i < old(self).inferred_meta@.len() && i != node.0 as int
                ==> #[trigger] final(self).inferred_meta@[i] == old(self).inferred_meta@[i],
            final(self).inferred_meta@[node.0 as int] is Some,
            node_inference_ok(old(self).graph, final(self).inferred_meta@, node.0 as int),
            final(self).errors@.len() >= old(self).errors@.len(),
            forall|e: int| 0 <= e < old(self).errors@.len()
                ==> #[trigger] final(self).errors@[e] == old(self).errors@[e],
            forall|e: int| old(self).errors@.len() <= e < final(self).errors@.len()
                ==> (#[trigger] final(self).errors@[e]).node_id == node
                    && checker_finding(old(self).graph, final(self).inferred_meta@,
                        node.0 as int, final(self).errors@[e].error_type),
            forall|kind: ValidationErrorType|
                #[trigger] checker_finding(old(self).graph, final(self).inferred_meta@,
                    node.0 as int, kind)
                ==> exists|e: int| old(self).errors@.len() <= e < final(self).errors@.len()
                    && (#[trigger] final(self).errors@[e]).error_type == kind,
    {
        let g = self.graph;
        let ghost n = node.0 as int;
        let kind = g.get_node_kind(node);
        let node_name = g.get_node_meta(node).name.clone();
        match kind {
            NodeKind::Formula(op) => {
                let parents = g.get_parents(node);
                let np = parents.len();
                let mut parent_metas: Vec<NodeMetadata> = Vec::new();
                let mut j: usize = 0;
                while j < np
                    invariant
                        0 <= j <= np,
                        np == parents@.len(),
                        parents@ == g.store.parents_seq(node.0 as int),
                        g == self.graph,
                        g.wf(),
                        (node.0 as int) < g.store.kinds@.len(),
                        *self == *old(self),
                        self.inferred_meta@.len() == g.store.kinds@.len(),
                        forall|q: int| 0 <= q < parents@.len()
                            ==> self.inferred_meta@[
                                (#[trigger] parents@[q]).0 as int] is Some,
                        parent_metas@.len() == j,
                        forall|q: int| 0 <= q < j
                            ==> #[trigger] parent_metas@[q]
                                == self.inferred_meta@[parents@[q].0 as int].unwrap(),
                    decreases np - j,
                {
                    proof {
                        assert(((parents@[j as int]).0 as int) < g.store.kinds@.len());
                    }
                    let p = parents[j];
                    let pm = match &self.inferred_meta[p.index()] {
                        Some(m) => clone_meta(m),
                        None => {
                            proof {
                                assert(false);
                            }
                            NodeMetadata {
                                name: String::new(),
                                temporal_type: None,
                                unit: None,
                            }
                        },
                    };
                    parent_metas.push(pm);
                    j = j + 1;
                }
                let ghost pm_spec = inferred_parent_metas(g, self.inferred_meta@, n);
                proof {
                    assert(parent_metas@ =~= pm_spec);
                }
                let prev_without_parent = match op {
                    Operation::PreviousValue { .. } => np == 0,
                    _ => false,
                };
                if prev_without_parent {
                    let ghost errs0 = self.errors@;
                    self.errors.push(ValidationError {
                        node_id: node,
                        node_name: node_name.clone(),
                        error_type: ValidationErrorType::Structure,
                        message: "Structural Error: a temporal shift needs a main parent.".to_owned(),
                    });
                    self.inferred_meta.set(node.index(), Some(NodeMetadata {
                        name: node_name,
                        temporal_type: None,
                        unit: None,
                    }));
                    proof {
                        assert(lag_without_parent(g, n));
                        assert(self.inferred_meta@[n] == Some(NodeMetadata {
                            name: g.store.meta@[n].name,
                            temporal_type: None::<TemporalType>,
                            unit: None::<Unit>,
                        }));
                        assert(node_inference_ok(g, self.inferred_meta@, n));
                        assert(self.errors@[self.errors@.len() - 1].error_type
                            == ValidationErrorType::Structure);
                    }
                } else {
                    proof {
                        if op matches Operation::PreviousValue { .. } {
                            assert(np >= 1);
                        }
                    }
                    let rt = infer_and_validate_temporal(&op, parent_metas.as_slice());
                    let (temporal, rt_entry): (Option<TemporalType>, Option<ValidationError>) =
                        match rt {
                            Ok(tt) => (tt, None),
                            Err(e) => (None, Some(e.at_node(node, node_name.clone()))),
                        };
                    let ghost rt_errs = rt_entry is Some;
                    let ru = infer_and_validate_units(&op, parent_metas.as_slice());
                    let ghost ru_g = ru;
                    let (unit, ru_entry): (Option<Unit>, Option<ValidationError>) = match ru {
                        Ok(u) => (u, None),
                        Err(e) => (None, Some(e.at_node(node, node_name.clone()))),
                    };
                    proof {
                        assert(temporal == temporal_verdict(op, pm_spec));
                    }
                    // Verification: declared metadata against the inference.
                    let meta_ref = g.get_node_meta(node);
                    let temporal_conflict = match (&meta_ref.temporal_type, &temporal) {
                        (Some(TemporalType::Stock), Some(TemporalType::Stock)) => false,
                        (Some(TemporalType::Flow), Some(TemporalType::Flow)) => false,
                        (Some(_), _) => true,
                        (None, _) => false,
                    };
                    let unit_conflict = match (&meta_ref.unit, &unit) {
                        (Some(du), Some(iu)) => !(du.0 == iu.0),
                        (Some(_), None) => true,
                        (None, _) => false,
                    };
                    self.inferred_meta.set(node.index(), Some(NodeMetadata {
                        name: node_name.clone(),
                        temporal_type: temporal,
                        unit,
                    }));
                    proof {
                        assert(self.inferred_meta@[n] matches Some(me)
                            && me.name == g.store.meta@[n].name
                            && me.temporal_type == temporal_verdict(op, pm_spec));
                        assert(inferred_parent_metas(g, self.inferred_meta@, n) =~= pm_spec)
                            by {
                            assert forall|q: int| 0 <= q < g.store.parents_seq(n).len()
                                implies self.inferred_meta@[
                                    (#[trigger] g.store.parents_seq(n)[q]).0 as int]
                                    == old(self).inferred_meta@[
                                        g.store.parents_seq(n)[q].0 as int] by {
                                assert((g.store.parents_seq(n)[q].0 as int) < n);
                            }
                        }
                        assert(units_inference_spec(op, pm_spec, ru_g));
                        assert(node_inference_ok(g, self.inferred_meta@, n));
                        assert(rt_errs <==> temporal_rule_errs(op, pm_spec));
                        assert(ru_entry is Some <==> unit_rule_errs(op, pm_spec));
                        assert(temporal_conflict == (g.store.meta@[n].temporal_type is Some
                            && g.store.meta@[n].temporal_type
                                != self.inferred_meta@[n].unwrap().temporal_type));
                        assert(unit_conflict == (g.store.meta@[n].unit matches Some(du)
                            && (match self.inferred_meta@[n].unwrap().unit {
                                None => true,
                                Some(iu) => du.0@ != iu.0@,
                            })));
                    }
                    // Record one finding per violated rule, with witnesses.
                    let ghost base = self.errors@.len();
                    let ghost mut idx_rt: int = -1;
                    let ghost mut idx_ru: int = -1;
                    let ghost mut idx_tc: int = -1;
                    let ghost mut idx_uc: int = -1;
                    match rt_entry {
                        Some(e) => {
                            proof {
                                idx_rt = self.errors@.len() as int;
                            }
                            self.errors.push(e);
                        },
                        None => {},
                    }
                    match ru_entry {
                        Some(e) => {
                            proof {
                                idx_ru = self.errors@.len() as int;
                            }
                            self.errors.push(e);
                        },
                        None => {},
                    }
                    if temporal_conflict {
                        proof {
                            idx_tc = self.errors@.len() as int;
                        }
                        self.errors.push(ValidationError {
                            node_id: node,
                            node_name: node_name.clone(),
                            error_type: ValidationErrorType::TemporalMismatch,
                            message: "Declared temporal type does not match the inferred type.".to_owned(),
                        });
                    }
                    if unit_conflict {
                        proof {
                            idx_uc = self.errors@.len() as int;
                        }
                        self.errors.push(ValidationError {
                            node_id: node,
                            node_name: node_name.clone(),
                            error_type: ValidationErrorType::UnitMismatch,
                            message: "Declared unit does not match the inferred unit.".to_owned(),
                        });
                    }
                    proof {
                        // Each appended entry is one of the four findings;
                        // each finding kind has its appended witness.
                        assert forall|e: int| base <= e < self.errors@.len()
                            implies (#[trigger] self.errors@[e]).node_id == node
                                && checker_finding(g, self.inferred_meta@, n,
                                    self.errors@[e].error_type) by {
                            assert(e == idx_rt || e == idx_ru || e == idx_tc || e == idx_uc);
                        }
                        if checker_finding(g, self.inferred_meta@, n,
                            ValidationErrorType::TemporalMismatch) {
                            if temporal_rule_errs(op, pm_spec) {
                                assert(self.errors@[idx_rt].error_type
                                    == ValidationErrorType::TemporalMismatch);
                            } else {
                                assert(self.errors@[idx_tc].error_type
                                    == ValidationErrorType::TemporalMismatch);
                            }
                        }
                        if checker_finding(g, self.inferred_meta@, n,
                            ValidationErrorType::UnitMismatch) {
                            if unit_rule_errs(op, pm_spec) {
                                assert(self.errors@[idx_ru].error_type
                                    == ValidationErrorType::UnitMismatch);
                            } else {
                                assert(self.errors@[idx_uc].error_type
                                    == ValidationErrorType::UnitMismatch);
                            }
                        }
                        assert(!checker_finding(g, self.inferred_meta@, n,
                            ValidationErrorType::Structure));
                    }
                }
            },
            _ => {
                let meta_copy = clone_meta(g.get_node_meta(node));
                self.inferred_meta.set(node.index(), Some(meta_copy));
                proof {
                    assert(self.inferred_meta@[n] == Some(g.store.meta@[n]));
                    assert(node_inference_ok(g, self.inferred_meta@, n));
                }
            },
        }
    }
}

} // verus!
