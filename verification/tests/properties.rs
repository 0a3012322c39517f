use std::collections::HashSet;

use citreelo::ctl::{BinaryCTLOperator, CTLFormula, CTLFormulaLeaf, UnaryCTLOperator};
use citreelo::kripke::{KripkeState, KripkeStructure};
use citreelo::solve::{get_sat_set, is_ctl_formula_sat};

const P: u64 = 0;
const Q: u64 = 1;

fn ap(a: u64) -> CTLFormula<u64> {
    CTLFormula::Leaf(CTLFormulaLeaf::AtomicProp(a))
}

fn tt() -> CTLFormula<u64> {
    CTLFormula::Leaf(CTLFormulaLeaf::True)
}

fn ff() -> CTLFormula<u64> {
    CTLFormula::Leaf(CTLFormulaLeaf::False)
}

fn not(f: CTLFormula<u64>) -> CTLFormula<u64> {
    CTLFormula::Unary(UnaryCTLOperator::Not, Box::new(f))
}

fn unary(op: UnaryCTLOperator, f: CTLFormula<u64>) -> CTLFormula<u64> {
    CTLFormula::Unary(op, Box::new(f))
}

fn binary(op: BinaryCTLOperator, f: CTLFormula<u64>, g: CTLFormula<u64>) -> CTLFormula<u64> {
    CTLFormula::Binary(op, Box::new(f), Box::new(g))
}

fn get_example_structure() -> KripkeStructure<Vec<u64>> {
    let states = vec![
        KripkeState::new(vec![P], vec![1, 2]),
        KripkeState::new(vec![Q], vec![1]),
        KripkeState::new(vec![P, Q], vec![0]),
    ];
    KripkeStructure::new(states)
}

fn set_of(ids: &[usize]) -> HashSet<usize> {
    ids.iter().cloned().collect()
}

fn clone_formula(f: &CTLFormula<u64>) -> CTLFormula<u64> {
    match f {
        CTLFormula::Leaf(CTLFormulaLeaf::True) => tt(),
        CTLFormula::Leaf(CTLFormulaLeaf::False) => ff(),
        CTLFormula::Leaf(CTLFormulaLeaf::AtomicProp(a)) => ap(*a),
        CTLFormula::Unary(op, g) => CTLFormula::Unary(*op, Box::new(clone_formula(g))),
        CTLFormula::Binary(op, g, h) => {
            CTLFormula::Binary(*op, Box::new(clone_formula(g)), Box::new(clone_formula(h)))
        },
    }
}

#[test]
fn test_duality_on_example() {
    let kripke = get_example_structure();
    let full = set_of(&[0, 1, 2]);
    for psi in [ap(P), ap(Q), binary(BinaryCTLOperator::And, ap(P), ap(Q))] {
        for (strong, weak) in [
            (UnaryCTLOperator::AX, UnaryCTLOperator::EX),
            (UnaryCTLOperator::AG, UnaryCTLOperator::EF),
            (UnaryCTLOperator::AF, UnaryCTLOperator::EG),
        ] {
            let lhs = get_sat_set(&kripke, &unary(strong, clone_formula(&psi)));
            let rhs = get_sat_set(&kripke, &not(unary(weak, not(clone_formula(&psi)))));
            assert_eq!(lhs, rhs);
            assert!(lhs.iter().all(|i| full.contains(i)));
        }
    }
}

#[test]
fn test_absorption_at_constants() {
    let kripke = get_example_structure();
    let full = set_of(&[0, 1, 2]);
    let empty = set_of(&[]);
    assert_eq!(get_sat_set(&kripke, &unary(UnaryCTLOperator::EF, tt())), full);
    assert_eq!(get_sat_set(&kripke, &unary(UnaryCTLOperator::AF, tt())), full);
    assert_eq!(get_sat_set(&kripke, &unary(UnaryCTLOperator::EG, ff())), empty);
    assert_eq!(get_sat_set(&kripke, &unary(UnaryCTLOperator::AG, ff())), empty);
}

#[test]
fn test_monotonicity_on_example() {
    let kripke = get_example_structure();
    // p & q implies p on every state, so each temporal closure is contained
    // in its counterpart.
    let smaller = binary(BinaryCTLOperator::And, ap(P), ap(Q));
    let larger = ap(P);
    for op in [
        UnaryCTLOperator::EF,
        UnaryCTLOperator::AF,
        UnaryCTLOperator::EG,
        UnaryCTLOperator::AG,
    ] {
        let lo = get_sat_set(&kripke, &unary(op, clone_formula(&smaller)));
        let hi = get_sat_set(&kripke, &unary(op, clone_formula(&larger)));
        assert!(lo.is_subset(&hi), "{:?}", op);
    }
}

#[test]
fn test_fixed_point_characterisation_on_example() {
    let kripke = get_example_structure();
    // EF q is a fixed point of Z = sat(q) union pre_weak(Z): here it is the
    // full state set, and no smaller fixed point exists.
    let ef_q = get_sat_set(&kripke, &unary(UnaryCTLOperator::EF, ap(Q)));
    assert_eq!(ef_q, set_of(&[0, 1, 2]));
    // EG p is the greatest fixed point of Z = sat(p) intersect pre_weak(Z):
    // s0 and s2 loop through each other inside p.
    let eg_p = get_sat_set(&kripke, &unary(UnaryCTLOperator::EG, ap(P)));
    assert_eq!(eg_p, set_of(&[0, 2]));
}

#[test]
fn test_determinism() {
    let kripke = get_example_structure();
    let phi = binary(
        BinaryCTLOperator::EU,
        ap(P),
        unary(UnaryCTLOperator::AX, ap(Q)),
    );
    let first = get_sat_set(&kripke, &phi);
    let second = get_sat_set(&kripke, &phi);
    assert_eq!(first, second);
}

#[test]
fn test_initial_state_variant_matches_sat_set() {
    let kripke = get_example_structure();
    let phi = unary(UnaryCTLOperator::EF, binary(BinaryCTLOperator::And, ap(P), ap(Q)));
    let sat = get_sat_set(&kripke, &phi);
    for initial in [set_of(&[0]), set_of(&[1]), set_of(&[0, 1, 2]), set_of(&[])] {
        let expected = initial.iter().all(|i| sat.contains(i));
        assert_eq!(is_ctl_formula_sat(&kripke, &initial, &phi), expected);
    }
}

#[test]
fn test_propositional_connectives() {
    let kripke = get_example_structure();
    assert_eq!(
        get_sat_set(&kripke, &binary(BinaryCTLOperator::Imply, ap(P), ap(Q))),
        set_of(&[1, 2])
    );
    assert_eq!(
        get_sat_set(&kripke, &binary(BinaryCTLOperator::Iff, ap(P), ap(Q))),
        set_of(&[2])
    );
    assert_eq!(get_sat_set(&kripke, &tt()), set_of(&[0, 1, 2]));
    assert_eq!(get_sat_set(&kripke, &ff()), set_of(&[]));
}

#[test]
fn test_single_state_self_loop() {
    let kripke = KripkeStructure::new(vec![KripkeState::new(vec![P], vec![0])]);
    assert_eq!(get_sat_set(&kripke, &ap(P)), set_of(&[0]));
    assert_eq!(get_sat_set(&kripke, &ap(Q)), set_of(&[]));
    assert_eq!(get_sat_set(&kripke, &unary(UnaryCTLOperator::AG, ap(P))), set_of(&[0]));
    assert_eq!(get_sat_set(&kripke, &unary(UnaryCTLOperator::EX, ap(P))), set_of(&[0]));
    assert_eq!(get_sat_set(&kripke, &unary(UnaryCTLOperator::AF, ap(Q))), set_of(&[]));
    assert!(is_ctl_formula_sat(&kripke, &set_of(&[0]), &unary(UnaryCTLOperator::EG, ap(P))));
}

#[test]
fn test_duplicate_transitions_are_idempotent() {
    let with_duplicates = KripkeStructure::new(vec![
        KripkeState::new(vec![P], vec![1, 1, 1]),
        KripkeState::new(vec![Q], vec![0, 0]),
    ]);
    let without = KripkeStructure::new(vec![
        KripkeState::new(vec![P], vec![1]),
        KripkeState::new(vec![Q], vec![0]),
    ]);
    for phi in [
        unary(UnaryCTLOperator::EX, ap(Q)),
        unary(UnaryCTLOperator::AX, ap(Q)),
        unary(UnaryCTLOperator::AG, binary(BinaryCTLOperator::Or, ap(P), ap(Q))),
        binary(BinaryCTLOperator::AU, ap(P), ap(Q)),
    ] {
        assert_eq!(get_sat_set(&with_duplicates, &phi), get_sat_set(&without, &phi));
    }
}

#[test]
fn test_until_requires_left_operand() {
    // s0 -> s1 -> s2; q only at s2, p only at s0: E[p U q] fails at s1 on
    // the way, so only s2 itself (where q holds) and nothing upstream of s1
    // would qualify via p.
    let kripke = KripkeStructure::new(vec![
        KripkeState::new(vec![P], vec![1]),
        KripkeState::new(vec![], vec![2]),
        KripkeState::new(vec![Q], vec![2]),
    ]);
    let eu = get_sat_set(&kripke, &binary(BinaryCTLOperator::EU, ap(P), ap(Q)));
    assert_eq!(eu, set_of(&[2]));
}
