use std::collections::HashSet;

use citreelo::ctl::{BinaryCTLOperator, CTLFormula, CTLFormulaLeaf, UnaryCTLOperator};
use citreelo::kripke::{KripkeState, KripkeStructure};
use citreelo::solve::{get_sat_set, is_ctl_formula_sat};

const P: u64 = 0;
const Q: u64 = 1;

fn ap(a: u64) -> CTLFormula<u64> {
    CTLFormula::Leaf(CTLFormulaLeaf::AtomicProp(a))
}

fn not(f: CTLFormula<u64>) -> CTLFormula<u64> {
    CTLFormula::Unary(UnaryCTLOperator::Not, Box::new(f))
}

fn unary(op: UnaryCTLOperator, f: CTLFormula<u64>) -> CTLFormula<u64> {
    CTLFormula::Unary(op, Box::new(f))
}

fn binary(op: BinaryCTLOperator, f: CTLFormula<u64>, g: CTLFormula<u64>) -> CTLFormula<u64> {
    CTLFormula::Binary(op, Box::new(f), Box::new(g))
}

/// The example structure: `s0` labelled `{P}` with transitions to `s1` and
/// `s2`; `s1` labelled `{Q}` with a self loop; `s2` labelled `{P, Q}` with a
/// transition back to `s0`.
pub fn get_example_1() -> KripkeStructure<Vec<u64>> {
    let states = vec![
        KripkeState::new(vec![P], vec![1, 2]),
        KripkeState::new(vec![Q], vec![1]),
        KripkeState::new(vec![P, Q], vec![0]),
    ];
    KripkeStructure::new(states)
}

fn set_of(ids: &[usize]) -> HashSet<usize> {
    ids.iter().cloned().collect()
}

#[test]
pub fn test_ex1_sat_set1() {
    let kripke = get_example_1();

    let sat_sets: Vec<(&str, CTLFormula<u64>, HashSet<usize>)> = vec![
        ("p", ap(P), set_of(&[0, 2])),
        ("!(p)", not(ap(P)), set_of(&[1])),
        ("q", ap(Q), set_of(&[1, 2])),
        ("!(q)", not(ap(Q)), set_of(&[0])),
        ("(p)&(q)", binary(BinaryCTLOperator::And, ap(P), ap(Q)), set_of(&[2])),
        ("(p)|(q)", binary(BinaryCTLOperator::Or, ap(P), ap(Q)), set_of(&[0, 1, 2])),
        (
            "(!(p))&(!(q))",
            binary(BinaryCTLOperator::And, not(ap(P)), not(ap(Q))),
            set_of(&[]),
        ),
        (
            "(!(p))|(!(q))",
            binary(BinaryCTLOperator::Or, not(ap(P)), not(ap(Q))),
            set_of(&[0, 1]),
        ),
        ("E(X(p))", unary(UnaryCTLOperator::EX, ap(P)), set_of(&[0, 2])),
        ("E(X(q))", unary(UnaryCTLOperator::EX, ap(Q)), set_of(&[0, 1])),
        (
            "E(X((p)&(q)))",
            unary(UnaryCTLOperator::EX, binary(BinaryCTLOperator::And, ap(P), ap(Q))),
            set_of(&[0]),
        ),
        (
            "E(X((p)&(!(q))))",
            unary(UnaryCTLOperator::EX, binary(BinaryCTLOperator::And, ap(P), not(ap(Q)))),
            set_of(&[2]),
        ),
        (
            "E(X((!(p))&(!(q))))",
            unary(UnaryCTLOperator::EX, binary(BinaryCTLOperator::And, not(ap(P)), not(ap(Q)))),
            set_of(&[]),
        ),
        ("A(X(p))", unary(UnaryCTLOperator::AX, ap(P)), set_of(&[2])),
        ("A(X(q))", unary(UnaryCTLOperator::AX, ap(Q)), set_of(&[0, 1])),
        (
            "A(X((q)&(!(p))))",
            unary(UnaryCTLOperator::AX, binary(BinaryCTLOperator::And, ap(Q), not(ap(P)))),
            set_of(&[1]),
        ),
        (
            "A(X((p)&(!(q))))",
            unary(UnaryCTLOperator::AX, binary(BinaryCTLOperator::And, ap(P), not(ap(Q)))),
            set_of(&[2]),
        ),
        (
            "A(X((p)&(q)))",
            unary(UnaryCTLOperator::AX, binary(BinaryCTLOperator::And, ap(P), ap(Q))),
            set_of(&[]),
        ),
    ];

    for (phi_as_str, phi, expect_sat_set) in sat_sets {
        let got_sat_set = get_sat_set(&kripke, &phi);
        assert_eq!(got_sat_set, expect_sat_set, "{}", phi_as_str);
    }
}

#[test]
pub fn test_ex1_sat_set2() {
    let kripke = get_example_1();

    let sat_sets: Vec<(&str, CTLFormula<u64>, HashSet<usize>)> = vec![
        ("E((p)U(q))", binary(BinaryCTLOperator::EU, ap(P), ap(Q)), set_of(&[0, 1, 2])),
        ("A((p)U(q))", binary(BinaryCTLOperator::AU, ap(P), ap(Q)), set_of(&[0, 1, 2])),
    ];

    for (phi_as_str, phi, expect_sat_set) in sat_sets {
        let got_sat_set = get_sat_set(&kripke, &phi);
        assert_eq!(got_sat_set, expect_sat_set, "{}", phi_as_str);
    }
}

#[test]
pub fn test_ex1_with_init_states1() {
    let kripke = get_example_1();

    let phis: Vec<(&str, CTLFormula<u64>, bool)> = vec![
        // Not all paths from s0 always satisfy p (e.g. s0 -> s1).
        ("A(G(p))", unary(UnaryCTLOperator::AG, ap(P)), false),
        // From s0 all paths eventually reach a state where q holds.
        ("A(F(q))", unary(UnaryCTLOperator::AF, ap(Q)), true),
        // There exists a path from s0 to s2 where p&q holds.
        (
            "E(F((p)&(q)))",
            unary(UnaryCTLOperator::EF, binary(BinaryCTLOperator::And, ap(P), ap(Q))),
            true,
        ),
        // q holds in both s1 and s2, the successors of s0.
        ("A(X(q))", unary(UnaryCTLOperator::AX, ap(Q)), true),
        // There exists a successor of s0 (namely s2) where p holds.
        ("E(X(p))", unary(UnaryCTLOperator::EX, ap(P)), true),
        // In all states either p or q holds.
        (
            "A(G((p)|(q)))",
            unary(UnaryCTLOperator::AG, binary(BinaryCTLOperator::Or, ap(P), ap(Q))),
            true,
        ),
        ("A((q)U(p))", binary(BinaryCTLOperator::AU, ap(Q), ap(P)), true),
        ("A((p)U(q))", binary(BinaryCTLOperator::AU, ap(P), ap(Q)), true),
    ];

    let initial_states = set_of(&[0]);
    for (phi_as_str, phi, is_sat) in phis {
        let result = is_ctl_formula_sat(&kripke, &initial_states, &phi);
        assert_eq!(result, is_sat, "{}", phi_as_str);
    }
}
