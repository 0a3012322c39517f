use vstd::prelude::*;

use crate::kripke::ValueEq;

verus! {

#[derive(Debug, PartialEq, Eq, Clone, Copy, Hash, Structural)]
pub enum UnaryCTLOperator {
    Not,
    AX,
    EX,
    AF,
    EF,
    AG,
    EG,
}

#[derive(Debug, PartialEq, Eq, Clone, Copy, Hash, Structural)]
pub enum BinaryCTLOperator {
    And,
    Or,
    Imply,
    Iff,
    AU,
    EU,
}

#[derive(Debug, PartialEq, Eq)]
pub enum CTLFormulaLeaf<AP> {
    True,
    False,
    AtomicProp(AP),
}

#[derive(Debug, PartialEq, Eq)]
pub enum CTLFormula<AP> {
    Leaf(CTLFormulaLeaf<AP>),
    Unary(UnaryCTLOperator, Box<CTLFormula<AP>>),
    Binary(BinaryCTLOperator, Box<CTLFormula<AP>>, Box<CTLFormula<AP>>),
}

/// The set of leaf subformulas (constants and atomic propositions) of a formula.
pub open spec fn formula_leaves<AP>(f: CTLFormula<AP>) -> Set<CTLFormula<AP>>
    decreases f,
{
    match f {
        CTLFormula::Leaf(_) => Set::empty().insert(f),
        CTLFormula::Unary(_, f1) => formula_leaves(*f1),
        CTLFormula::Binary(_, f1, f2) => formula_leaves(*f1).union(formula_leaves(*f2)),
    }
}

/// Every member of the leaf set is a leaf node.
pub proof fn lemma_formula_leaves_are_leaves<AP>(f: CTLFormula<AP>)
    ensures
        forall|l: CTLFormula<AP>|
            #[trigger] formula_leaves(f).contains(l) ==> l matches CTLFormula::Leaf(_),
    decreases f,
{
    match f {
        CTLFormula::Leaf(_) => {
            assert forall|l: CTLFormula<AP>|
                #[trigger] formula_leaves(f).contains(l) implies l matches CTLFormula::Leaf(
                _,
            ) by {
                assert(l == f);
            }
        },
        CTLFormula::Unary(_, f1) => {
            lemma_formula_leaves_are_leaves(*f1);
            assert forall|l: CTLFormula<AP>|
                #[trigger] formula_leaves(f).contains(l) implies l matches CTLFormula::Leaf(
                _,
            ) by {
                assert(formula_leaves(*f1).contains(l));
            }
        },
        CTLFormula::Binary(_, f1, f2) => {
            lemma_formula_leaves_are_leaves(*f1);
            lemma_formula_leaves_are_leaves(*f2);
            assert forall|l: CTLFormula<AP>|
                #[trigger] formula_leaves(f).contains(l) implies l matches CTLFormula::Leaf(
                _,
            ) by {
                if formula_leaves(*f1).contains(l) {
                } else {
                    assert(formula_leaves(*f2).contains(l));
                }
            }
        },
    }
}

/// Decides deep structural equality of two formulas.
pub fn formula_eq<AP: ValueEq>(a: &CTLFormula<AP>, b: &CTLFormula<AP>) -> (r: bool)
    ensures
        r == (*a == *b),
    decreases *a,
{
    match (a, b) {
        (CTLFormula::Leaf(l1), CTLFormula::Leaf(l2)) => match (l1, l2) {
            (CTLFormulaLeaf::True, CTLFormulaLeaf::True) => true,
            (CTLFormulaLeaf::False, CTLFormulaLeaf::False) => true,
            (CTLFormulaLeaf::AtomicProp(x), CTLFormulaLeaf::AtomicProp(y)) => x.value_eq(y),
            _ => false,
        },
        (CTLFormula::Unary(o1, f1), CTLFormula::Unary(o2, f2)) => {
            if *o1 == *o2 {
                formula_eq(f1, f2)
            } else {
                false
            }
        },
        (CTLFormula::Binary(o1, f1, g1), CTLFormula::Binary(o2, f2, g2)) => {
            if *o1 == *o2 {
                if formula_eq(f1, f2) {
                    formula_eq(g1, g2)
                } else {
                    false
                }
            } else {
                false
            }
        },
        _ => false,
    }
}

impl<AP: ValueEq> CTLFormula<AP> {
    /// Collects the distinct leaf subformulas: the atomic-proposition leaves
    /// (each distinct atom exactly once) and, if they occur anywhere in the
    /// formula, one `True` leaf and one `False` leaf.
    pub fn collect_leaves(&self) -> (r: (
        Vec<&CTLFormula<AP>>,
        Option<&CTLFormula<AP>>,
        Option<&CTLFormula<AP>>,
    ))
        ensures
            forall|e: int|
                0 <= e < r.0@.len() ==> formula_leaves(*self).contains(*(#[trigger] r.0@[e]))
                    && (*r.0@[e]) matches CTLFormula::Leaf(CTLFormulaLeaf::AtomicProp(_)),
            forall|l: CTLFormula<AP>|
                #[trigger] formula_leaves(*self).contains(l) && (l matches CTLFormula::Leaf(
                    CTLFormulaLeaf::AtomicProp(_),
                )) ==> exists|e: int| 0 <= e < r.0@.len() && *(#[trigger] r.0@[e]) == l,
            forall|e1: int, e2: int|
                0 <= e1 < r.0@.len() && 0 <= e2 < r.0@.len() && e1 != e2 ==> *(#[trigger] r.0@[e1])
                    != *(#[trigger] r.0@[e2]),
            r.1 is Some <==> formula_leaves(*self).contains(
                CTLFormula::Leaf(CTLFormulaLeaf::True),
            ),
            r.1 matches Some(x) ==> *x == CTLFormula::Leaf(CTLFormulaLeaf::<AP>::True),
            r.2 is Some <==> formula_leaves(*self).contains(
                CTLFormula::Leaf(CTLFormulaLeaf::False),
            ),
            r.2 matches Some(x) ==> *x == CTLFormula::Leaf(CTLFormulaLeaf::<AP>::False),
    {
        let mut atoms: Vec<&CTLFormula<AP>> = Vec::new();
        let mut true_formula: Option<&CTLFormula<AP>> = None;
        let mut false_formula: Option<&CTLFormula<AP>> = None;
        self.collect_leaves_rec(&mut atoms, &mut true_formula, &mut false_formula);
        (atoms, true_formula, false_formula)
    }

    fn collect_leaves_rec<'a>(
        &'a self,
        atoms: &mut Vec<&'a CTLFormula<AP>>,
        true_formula: &mut Option<&'a CTLFormula<AP>>,
        false_formula: &mut Option<&'a CTLFormula<AP>>,
    )
        requires
            forall|e: int|
                0 <= e < old(atoms)@.len() ==> (*(#[trigger] old(atoms)@[e])) matches
                    CTLFormula::Leaf(CTLFormulaLeaf::AtomicProp(_)),
            forall|e1: int, e2: int|
                0 <= e1 < old(atoms)@.len() && 0 <= e2 < old(atoms)@.len() && e1 != e2 ==> *(
                #[trigger] old(atoms)@[e1]) != *(#[trigger] old(atoms)@[e2]),
            *old(true_formula) matches Some(x) ==> *x == CTLFormula::Leaf(
                CTLFormulaLeaf::<AP>::True,
            ),
            *old(false_formula) matches Some(x) ==> *x == CTLFormula::Leaf(
                CTLFormulaLeaf::<AP>::False,
            ),
        ensures
            forall|e: int|
                0 <= e < final(atoms)@.len() ==> (formula_leaves(*self).contains(
                    *(#[trigger] final(atoms)@[e]),
                ) || exists|q: int|
                    0 <= q < old(atoms)@.len() && #[trigger] old(atoms)@[q] == final(atoms)@[e])
                    && ((*final(atoms)@[e]) matches CTLFormula::Leaf(
                    CTLFormulaLeaf::AtomicProp(_),
                )),
            forall|l: CTLFormula<AP>|
                #[trigger] formula_leaves(*self).contains(l) && (l matches CTLFormula::Leaf(
                    CTLFormulaLeaf::AtomicProp(_),
                )) ==> exists|e: int| 0 <= e < final(atoms)@.len() && *(#[trigger] final(atoms)@[e])
                    == l,
            old(atoms)@.len() <= final(atoms)@.len(),
            forall|q: int|
                0 <= q < old(atoms)@.len() ==> (#[trigger] final(atoms)@[q]) == old(atoms)@[q],
            forall|e1: int, e2: int|
                0 <= e1 < final(atoms)@.len() && 0 <= e2 < final(atoms)@.len() && e1 != e2 ==> *(
                #[trigger] final(atoms)@[e1]) != *(#[trigger] final(atoms)@[e2]),
            *final(true_formula) is Some <==> (*old(true_formula) is Some || formula_leaves(
                *self,
            ).contains(CTLFormula::Leaf(CTLFormulaLeaf::True))),
            *final(true_formula) matches Some(x) ==> *x == CTLFormula::Leaf(
                CTLFormulaLeaf::<AP>::True,
            ),
            *final(false_formula) is Some <==> (*old(false_formula) is Some || formula_leaves(
                *self,
            ).contains(CTLFormula::Leaf(CTLFormulaLeaf::False))),
            *final(false_formula) matches Some(x) ==> *x == CTLFormula::Leaf(
                CTLFormulaLeaf::<AP>::False,
            ),
        decreases *self,
    {
        match self {
            CTLFormula::Leaf(leaf) => {
                match leaf {
                    CTLFormulaLeaf::True => {
                        if true_formula.is_none() {
                            *true_formula = Some(self);
                        }
                    },
                    CTLFormulaLeaf::False => {
                        if false_formula.is_none() {
                            *false_formula = Some(self);
                        }
                    },
                    CTLFormulaLeaf::AtomicProp(_) => {
                        let mut e: usize = 0;
                        let mut found: bool = false;
                        while e < atoms.len() && !found
                            invariant
                                atoms@ == old(atoms)@,
                                0 <= e <= atoms@.len(),
                                found ==> exists|q: int|
                                    0 <= q < atoms@.len() && *(#[trigger] atoms@[q]) == *self,
                                !found ==> forall|q: int|
                                    0 <= q < e ==> *(#[trigger] atoms@[q]) != *self,
                            decreases atoms@.len() - e + (if found {
                                0int
                            } else {
                                1int
                            }),
                        {
                            if formula_eq(atoms[e], self) {
                                found = true;
                            } else {
                                e += 1;
                            }
                        }
                        if !found {
                            atoms.push(self);
                            proof {
                                assert(forall|q: int|
                                    0 <= q < old(atoms)@.len() ==> #[trigger] old(atoms)@[q]
                                        == atoms@[q]);
                                assert(atoms@[atoms@.len() - 1] == self);
                                assert(formula_leaves(*self).contains(*self));
                            }
                        } else {
                            proof {
                                let q = choose|q: int|
                                    0 <= q < atoms@.len() && *(#[trigger] atoms@[q]) == *self;
                                assert(0 <= q < atoms@.len() && *atoms@[q] == *self);
                            }
                        }
                    },
                }
                proof {
                    assert(forall|q: int|
                        0 <= q < old(atoms)@.len() ==> old(atoms)@[q] == #[trigger] atoms@[q]);
                }
            },
            CTLFormula::Unary(_, phi1) => {
                phi1.collect_leaves_rec(atoms, true_formula, false_formula);
            },
            CTLFormula::Binary(_, phi1, phi2) => {
                phi1.collect_leaves_rec(atoms, true_formula, false_formula);
                let ghost mid = atoms@;
                phi2.collect_leaves_rec(atoms, true_formula, false_formula);
                proof {
                    assert forall|l: CTLFormula<AP>|
                        #[trigger] formula_leaves(*self).contains(l) && (l matches
                        CTLFormula::Leaf(CTLFormulaLeaf::AtomicProp(_))) implies exists|e: int|
                        0 <= e < atoms@.len() && *(#[trigger] atoms@[e]) == l by {
                        if formula_leaves(**phi1).contains(l) {
                            let e1 = choose|e1: int|
                                0 <= e1 < mid.len() && *(#[trigger] mid[e1]) == l;
                            assert(*atoms@[e1] == l);
                        } else {
                            assert(formula_leaves(**phi2).contains(l));
                        }
                    }
                }
            },
        }
    }
}

} // verus!
