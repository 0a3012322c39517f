use vstd::prelude::*;

use crate::ctl::{BinaryCTLOperator, CTLFormula, UnaryCTLOperator};
use crate::kripke::{AtomicProposition, KripkeStructure};
use crate::semantics::{
    full_set, global_dense, global_gfp, global_step, lemma_global_gfp_greatest_fixed_point,
    lemma_global_gfp_in_full, lemma_pre_image_monotone, lemma_sat_spec_in_range,
    lemma_until_lfp_in_full, lemma_until_lfp_least_fixed_point, pre_image_set, sat_spec,
    trans_in_range, until_closed, until_lfp, until_step, PreImageKind,
};

verus! {

/// The negation of a formula.
pub open spec fn f_not<AP>(f: CTLFormula<AP>) -> CTLFormula<AP> {
    CTLFormula::Unary(UnaryCTLOperator::Not, Box::new(f))
}

/// A unary temporal operator applied to a formula.
pub open spec fn f_unary<AP>(op: UnaryCTLOperator, f: CTLFormula<AP>) -> CTLFormula<AP> {
    CTLFormula::Unary(op, Box::new(f))
}

/// The pre-image kind dual to the given one.
pub open spec fn dual_kind(kind: PreImageKind) -> PreImageKind {
    match kind {
        PreImageKind::Weak => PreImageKind::Strong,
        PreImageKind::Strong => PreImageKind::Weak,
    }
}

/// The two pre-images are dual: the strong pre-image of a set is the
/// complement of the weak pre-image of its complement, and conversely.
pub proof fn lemma_pre_image_duality(kind: PreImageKind, n: nat, t: Set<(int, int)>, s: Set<int>)
    requires
        trans_in_range(n, t),
    ensures
        pre_image_set(kind, n, t, s) == full_set(n).difference(
            pre_image_set(dual_kind(kind), n, t, full_set(n).difference(s)),
        ),
{
    let co = full_set(n).difference(s);
    assert forall|i: int| pre_image_set(kind, n, t, s).contains(i) <==> full_set(n).difference(
        pre_image_set(dual_kind(kind), n, t, co),
    ).contains(i) by {
        if 0 <= i < n {
            match kind {
                PreImageKind::Weak => {
                    if pre_image_set(kind, n, t, s).contains(i) {
                        let j = choose|j: int| #[trigger] t.contains((i, j)) && s.contains(j);
                        assert(!co.contains(j));
                        assert(!pre_image_set(PreImageKind::Strong, n, t, co).contains(i));
                    }
                    if !pre_image_set(PreImageKind::Strong, n, t, co).contains(i) {
                        let j = choose|j: int| #[trigger] t.contains((i, j)) && !co.contains(j);
                        assert(t.contains((i, j)));
                        assert(s.contains(j));
                    }
                },
                PreImageKind::Strong => {
                    if pre_image_set(kind, n, t, s).contains(i) {
                        assert forall|j: int| !(#[trigger] t.contains((i, j)) && co.contains(
                            j,
                        )) by {
                            if t.contains((i, j)) {
                                assert(s.contains(j));
                            }
                        }
                        assert(!pre_image_set(PreImageKind::Weak, n, t, co).contains(i));
                    }
                    if !pre_image_set(PreImageKind::Weak, n, t, co).contains(i) {
                        assert forall|j: int| #[trigger] t.contains((i, j)) implies s.contains(
                            j,
                        ) by {
                            assert(!co.contains(j));
                            assert(0 <= j < n);
                        }
                    }
                },
            }
        }
    }
    assert(pre_image_set(kind, n, t, s) =~= full_set(n).difference(
        pre_image_set(dual_kind(kind), n, t, co),
    ));
}

/// The least fixed point of `Z ↦ s ∪ Pre(Z)` is the complement of the
/// greatest fixed point of `Z ↦ (¬s) ∩ Pre'(Z)`, where `Pre'` is the dual
/// pre-image: the fixed-point core of the dualities between the *finally*
/// and *globally* operators.
pub proof fn lemma_until_global_duality(kind: PreImageKind, n: nat, t: Set<(int, int)>, s: Set<int>)
    requires
        trans_in_range(n, t),
        s.subset_of(full_set(n)),
    ensures
        until_lfp(kind, n, t, full_set(n), s) == full_set(n).difference(
            global_gfp(dual_kind(kind), n, t, full_set(n).difference(s)),
        ),
{
    let full = full_set(n);
    let co = full.difference(s);
    let dual = dual_kind(kind);
    let l = until_lfp(kind, n, t, full, s);
    let g = global_gfp(dual, n, t, co);
    lemma_until_lfp_in_full(kind, n, t, full, s);
    assert forall|x: int| l.contains(x) implies full.difference(g).contains(x) by {
        assert(full.contains(x));
        if g.contains(x) {
            let w = choose|w: Set<int>| #[trigger] global_dense(dual, n, t, co, w) && w.contains(
                x,
            );
            let cow = full.difference(w);
            assert(until_closed(kind, n, t, full, s, cow)) by {
                assert forall|y: int| until_step(kind, n, t, full, s, cow).contains(
                    y,
                ) implies cow.contains(y) by {
                    if w.contains(y) {
                        assert(global_step(dual, n, t, co, w).contains(y));
                        assert(co.contains(y));
                        assert(pre_image_set(dual, n, t, w).contains(y));
                        assert(!s.contains(y));
                        assert(pre_image_set(kind, n, t, cow).contains(y));
                        match kind {
                            PreImageKind::Weak => {
                                let j = choose|j: int|
                                    #[trigger] t.contains((y, j)) && cow.contains(j);
                                assert(w.contains(j));
                                assert(false);
                            },
                            PreImageKind::Strong => {
                                let j = choose|j: int|
                                    #[trigger] t.contains((y, j)) && w.contains(j);
                                assert(cow.contains(j));
                                assert(false);
                            },
                        }
                    }
                }
            }
            assert(cow.contains(x));
            assert(false);
        }
    }
    assert forall|x: int| full.difference(g).contains(x) implies l.contains(x) by {
        assert forall|w2: Set<int>| #[trigger] until_closed(kind, n, t, full, s, w2) implies
            w2.contains(x) by {
            if !w2.contains(x) {
                let w = full.difference(w2);
                assert(global_dense(dual, n, t, co, w)) by {
                    assert forall|y: int| w.contains(y) implies global_step(
                        dual,
                        n,
                        t,
                        co,
                        w,
                    ).contains(y) by {
                        assert(!until_step(kind, n, t, full, s, w2).contains(y));
                        assert(!s.contains(y));
                        assert(co.contains(y));
                        assert(!pre_image_set(kind, n, t, w2).contains(y));
                        assert(pre_image_set(dual, n, t, w).contains(y)) by {
                            match kind {
                                PreImageKind::Weak => {
                                    assert forall|j: int| #[trigger] t.contains(
                                        (y, j),
                                    ) implies w.contains(j) by {
                                        assert(!w2.contains(j));
                                        assert(0 <= j < n);
                                    }
                                },
                                PreImageKind::Strong => {
                                    let j = choose|j: int|
                                        !(#[trigger] t.contains((y, j)) ==> w2.contains(j));
                                    assert(t.contains((y, j)) && !w2.contains(j));
                                    assert(0 <= j < n);
                                    assert(w.contains(j));
                                },
                            }
                        }
                    }
                }
                assert(w.contains(x));
                assert(g.contains(x));
                assert(false);
            }
        }
    }
    assert(l =~= full.difference(g));
}

/// Duality of the strong and weak modalities: a state satisfies `AX ψ` iff it
/// does not satisfy `EX ¬ψ`, satisfies `AG ψ` iff it does not satisfy
/// `EF ¬ψ`, and satisfies `AF ψ` iff it does not satisfy `EG ¬ψ`.
pub proof fn lemma_duality<DOAP, AP: AtomicProposition<DOAP>>(
    k: &KripkeStructure<DOAP>,
    psi: CTLFormula<AP>,
)
    ensures
        sat_spec(k, &f_unary(UnaryCTLOperator::AX, psi)) == sat_spec(
            k,
            &f_not(f_unary(UnaryCTLOperator::EX, f_not(psi))),
        ),
        sat_spec(k, &f_unary(UnaryCTLOperator::AG, psi)) == sat_spec(
            k,
            &f_not(f_unary(UnaryCTLOperator::EF, f_not(psi))),
        ),
        sat_spec(k, &f_unary(UnaryCTLOperator::AF, psi)) == sat_spec(
            k,
            &f_not(f_unary(UnaryCTLOperator::EG, f_not(psi))),
        ),
{
    let n = k.n();
    let t = k.trans_set();
    let full = full_set(n);
    let s = sat_spec(k, &psi);
    lemma_sat_spec_in_range(k, &psi);
    assert(trans_in_range(n, t));
    assert(sat_spec(k, &f_not(psi)) == full.difference(s));
    let cos0 = full.difference(s);
    // AX against EX.
    lemma_pre_image_duality(PreImageKind::Strong, n, t, s);
    assert(sat_spec(k, &f_unary(UnaryCTLOperator::AX, psi)) == pre_image_set(
        PreImageKind::Strong,
        n,
        t,
        s,
    ));
    assert(sat_spec(k, &f_unary(UnaryCTLOperator::EX, f_not(psi))) == pre_image_set(
        PreImageKind::Weak,
        n,
        t,
        cos0,
    ));
    assert(sat_spec(k, &f_not(f_unary(UnaryCTLOperator::EX, f_not(psi)))) == full.difference(
        pre_image_set(PreImageKind::Weak, n, t, cos0),
    ));
    // AF against EG.
    lemma_until_global_duality(PreImageKind::Strong, n, t, s);
    assert(dual_kind(PreImageKind::Strong) == PreImageKind::Weak);
    assert(sat_spec(k, &f_unary(UnaryCTLOperator::AF, psi)) == until_lfp(
        PreImageKind::Strong,
        n,
        t,
        full,
        s,
    ));
    assert(sat_spec(k, &f_unary(UnaryCTLOperator::EG, f_not(psi))) == global_gfp(
        PreImageKind::Weak,
        n,
        t,
        cos0,
    ));
    assert(sat_spec(k, &f_not(f_unary(UnaryCTLOperator::EG, f_not(psi)))) == full.difference(
        global_gfp(PreImageKind::Weak, n, t, cos0),
    ));
    assert(sat_spec(k, &f_unary(UnaryCTLOperator::AG, psi)) == global_gfp(
        PreImageKind::Strong,
        n,
        t,
        s,
    ));
    assert(sat_spec(k, &f_unary(UnaryCTLOperator::EF, f_not(psi))) == until_lfp(
        PreImageKind::Weak,
        n,
        t,
        full,
        cos0,
    ));
    assert(sat_spec(k, &f_not(f_unary(UnaryCTLOperator::EF, f_not(psi)))) == full.difference(
        until_lfp(PreImageKind::Weak, n, t, full, cos0),
    ));
    // AG against EF: complement the duality for the weak until.
    let cos = full.difference(s);
    lemma_until_global_duality(PreImageKind::Weak, n, t, cos);
    assert(full.difference(cos) =~= s);
    assert(until_lfp(PreImageKind::Weak, n, t, full, cos) == full.difference(
        global_gfp(PreImageKind::Strong, n, t, s),
    ));
    lemma_global_gfp_in_full(PreImageKind::Strong, n, t, s);
    assert(full.difference(full.difference(global_gfp(PreImageKind::Strong, n, t, s)))
        =~= global_gfp(PreImageKind::Strong, n, t, s));
}

/// Absorption at the constants: `EF True` and `AF True` hold everywhere,
/// `EG False` and `AG False` hold nowhere.
pub proof fn lemma_absorption<DOAP, AP: AtomicProposition<DOAP>>(
    k: &KripkeStructure<DOAP>,
    top: CTLFormula<AP>,
    bottom: CTLFormula<AP>,
)
    requires
        top == CTLFormula::Leaf(crate::ctl::CTLFormulaLeaf::<AP>::True),
        bottom == CTLFormula::Leaf(crate::ctl::CTLFormulaLeaf::<AP>::False),
    ensures
        sat_spec(k, &f_unary(UnaryCTLOperator::EF, top)) == full_set(k.n()),
        sat_spec(k, &f_unary(UnaryCTLOperator::AF, top)) == full_set(k.n()),
        sat_spec(k, &f_unary(UnaryCTLOperator::EG, bottom)) == Set::<int>::empty(),
        sat_spec(k, &f_unary(UnaryCTLOperator::AG, bottom)) == Set::<int>::empty(),
{
    let n = k.n();
    let t = k.trans_set();
    let full = full_set(n);
    assert(sat_spec(k, &top) == full);
    assert(sat_spec(k, &bottom) == Set::<int>::empty());
    assert forall|kind: PreImageKind| #[trigger] until_lfp(kind, n, t, full, full)
        == full by {
        lemma_until_lfp_in_full(kind, n, t, full, full);
        assert forall|i: int| full.contains(i) implies until_lfp(kind, n, t, full, full).contains(
            i,
        ) by {
            assert forall|w: Set<int>| #[trigger] until_closed(
                kind,
                n,
                t,
                full,
                full,
                w,
            ) implies w.contains(i) by {
                assert(until_step(kind, n, t, full, full, w).contains(i));
            }
        }
        assert(until_lfp(kind, n, t, full, full) =~= full);
    }
    assert forall|kind: PreImageKind| #[trigger] global_gfp(kind, n, t, Set::<int>::empty())
        == Set::<int>::empty() by {
        assert forall|i: int| !global_gfp(kind, n, t, Set::<int>::empty()).contains(i) by {
            if global_gfp(kind, n, t, Set::<int>::empty()).contains(i) {
                let w = choose|w: Set<int>|
                    #[trigger] global_dense(kind, n, t, Set::<int>::empty(), w) && w.contains(i);
                assert(global_step(kind, n, t, Set::<int>::empty(), w).contains(i));
                assert(Set::<int>::empty().contains(i));
            }
        }
        assert(global_gfp(kind, n, t, Set::<int>::empty()) =~= Set::<int>::empty());
    }
}

/// The until least fixed point is monotone in its seed.
pub proof fn lemma_until_lfp_monotone(
    kind: PreImageKind,
    n: nat,
    t: Set<(int, int)>,
    before: Set<int>,
    s1: Set<int>,
    s2: Set<int>,
)
    requires
        s1.subset_of(s2),
    ensures
        until_lfp(kind, n, t, before, s1).subset_of(until_lfp(kind, n, t, before, s2)),
{
    assert forall|i: int| until_lfp(kind, n, t, before, s1).contains(i) implies until_lfp(
        kind,
        n,
        t,
        before,
        s2,
    ).contains(i) by {
        assert forall|w: Set<int>| #[trigger] until_closed(kind, n, t, before, s2, w) implies
            w.contains(i) by {
            assert(until_closed(kind, n, t, before, s1, w)) by {
                assert forall|y: int| until_step(kind, n, t, before, s1, w).contains(
                    y,
                ) implies w.contains(y) by {
                    assert(until_step(kind, n, t, before, s2, w).contains(y));
                }
            }
        }
    }
}

/// The global greatest fixed point is monotone in its invariant set.
pub proof fn lemma_global_gfp_monotone(
    kind: PreImageKind,
    n: nat,
    t: Set<(int, int)>,
    s1: Set<int>,
    s2: Set<int>,
)
    requires
        s1.subset_of(s2),
    ensures
        global_gfp(kind, n, t, s1).subset_of(global_gfp(kind, n, t, s2)),
{
    assert forall|i: int| global_gfp(kind, n, t, s1).contains(i) implies global_gfp(
        kind,
        n,
        t,
        s2,
    ).contains(i) by {
        let w = choose|w: Set<int>| #[trigger] global_dense(kind, n, t, s1, w) && w.contains(i);
        assert(global_dense(kind, n, t, s2, w)) by {
            assert forall|y: int| w.contains(y) implies global_step(kind, n, t, s2, w).contains(
                y,
            ) by {
                assert(global_step(kind, n, t, s1, w).contains(y));
            }
        }
    }
}

/// Monotonicity: if every state satisfying `ψ` satisfies `χ`, then every
/// state satisfying `EF ψ` (`AF ψ`, `EG ψ`, `AG ψ`) satisfies `EF χ` (`AF χ`,
/// `EG χ`, `AG χ`).
pub proof fn lemma_monotonicity<DOAP, AP: AtomicProposition<DOAP>>(
    k: &KripkeStructure<DOAP>,
    psi: CTLFormula<AP>,
    chi: CTLFormula<AP>,
)
    requires
        sat_spec(k, &psi).subset_of(sat_spec(k, &chi)),
    ensures
        sat_spec(k, &f_unary(UnaryCTLOperator::EF, psi)).subset_of(
            sat_spec(k, &f_unary(UnaryCTLOperator::EF, chi)),
        ),
        sat_spec(k, &f_unary(UnaryCTLOperator::AF, psi)).subset_of(
            sat_spec(k, &f_unary(UnaryCTLOperator::AF, chi)),
        ),
        sat_spec(k, &f_unary(UnaryCTLOperator::EG, psi)).subset_of(
            sat_spec(k, &f_unary(UnaryCTLOperator::EG, chi)),
        ),
        sat_spec(k, &f_unary(UnaryCTLOperator::AG, psi)).subset_of(
            sat_spec(k, &f_unary(UnaryCTLOperator::AG, chi)),
        ),
{
    let n = k.n();
    let t = k.trans_set();
    let s1 = sat_spec(k, &psi);
    let s2 = sat_spec(k, &chi);
    lemma_until_lfp_monotone(PreImageKind::Weak, n, t, full_set(n), s1, s2);
    lemma_until_lfp_monotone(PreImageKind::Strong, n, t, full_set(n), s1, s2);
    lemma_global_gfp_monotone(PreImageKind::Weak, n, t, s1, s2);
    lemma_global_gfp_monotone(PreImageKind::Strong, n, t, s1, s2);
}

/// Fixed-point characterisation: `⟦EF ψ⟧` is the least set equal to
/// `⟦ψ⟧ ∪ Pre_weak(Z)`, and `⟦EG ψ⟧` is the greatest set equal to
/// `⟦ψ⟧ ∩ Pre_weak(Z)`.
pub proof fn lemma_fixed_point_characterisation<DOAP, AP: AtomicProposition<DOAP>>(
    k: &KripkeStructure<DOAP>,
    psi: CTLFormula<AP>,
)
    ensures
        sat_spec(k, &f_unary(UnaryCTLOperator::EF, psi)) == sat_spec(k, &psi).union(
            pre_image_set(
                PreImageKind::Weak,
                k.n(),
                k.trans_set(),
                sat_spec(k, &f_unary(UnaryCTLOperator::EF, psi)),
            ),
        ),
        forall|z: Set<int>|
            z == sat_spec(k, &psi).union(
                #[trigger] pre_image_set(PreImageKind::Weak, k.n(), k.trans_set(), z),
            ) ==> sat_spec(k, &f_unary(UnaryCTLOperator::EF, psi)).subset_of(z),
        sat_spec(k, &f_unary(UnaryCTLOperator::EG, psi)) == sat_spec(k, &psi).intersect(
            pre_image_set(
                PreImageKind::Weak,
                k.n(),
                k.trans_set(),
                sat_spec(k, &f_unary(UnaryCTLOperator::EG, psi)),
            ),
        ),
        forall|z: Set<int>|
            z == sat_spec(k, &psi).intersect(
                #[trigger] pre_image_set(PreImageKind::Weak, k.n(), k.trans_set(), z),
            ) ==> z.subset_of(sat_spec(k, &f_unary(UnaryCTLOperator::EG, psi))),
{
    let n = k.n();
    let t = k.trans_set();
    let full = full_set(n);
    let s = sat_spec(k, &psi);
    let kind = PreImageKind::Weak;
    let l = until_lfp(kind, n, t, full, s);
    let g = global_gfp(kind, n, t, s);
    lemma_until_lfp_least_fixed_point(kind, n, t, full, s);
    lemma_global_gfp_greatest_fixed_point(kind, n, t, s);
    // With the full set as the left operand, the until step is just
    // `s ∪ Pre(Z)`.
    assert forall|z: Set<int>| #[trigger] until_step(kind, n, t, full, s, z) == s.union(
        pre_image_set(kind, n, t, z),
    ) by {
        assert(full.intersect(pre_image_set(kind, n, t, z)) =~= pre_image_set(kind, n, t, z));
        assert(until_step(kind, n, t, full, s, z) =~= s.union(pre_image_set(kind, n, t, z)));
    }
    assert(sat_spec(k, &f_unary(UnaryCTLOperator::EF, psi)) == l);
    assert(sat_spec(k, &f_unary(UnaryCTLOperator::EG, psi)) == g);
    assert(l == s.union(pre_image_set(kind, n, t, l)));
    assert forall|z: Set<int>|
        z == s.union(#[trigger] pre_image_set(kind, n, t, z)) implies l.subset_of(z) by {
        assert(until_step(kind, n, t, full, s, z) == z);
    }
    assert(g == global_step(kind, n, t, s, g));
    assert forall|z: Set<int>|
        z == s.intersect(#[trigger] pre_image_set(kind, n, t, z)) implies z.subset_of(g) by {
        assert(global_step(kind, n, t, s, z) == z);
    }
}

/// Determinism: any two satisfaction-set results that agree with the same
/// mathematical satisfaction set — as the contract of the evaluator demands
/// of every result — are equal.
pub proof fn lemma_determinism(first: Set<usize>, second: Set<usize>, s: Set<int>)
    requires
        forall|i: usize| #[trigger] first.contains(i) <==> s.contains(i as int),
        forall|i: usize| #[trigger] second.contains(i) <==> s.contains(i as int),
    ensures
        first == second,
{
    assert(first =~= second);
}

/// The initial-state variant agrees with the satisfaction set: a decision
/// meeting the decision procedure's contract is true iff the initial states
/// are contained in any result meeting the evaluator's contract.
pub proof fn lemma_initial_state_variant(
    sat_result: Set<usize>,
    initial: Set<usize>,
    s: Set<int>,
    decision: bool,
)
    requires
        forall|i: usize| #[trigger] sat_result.contains(i) <==> s.contains(i as int),
        decision <==> (forall|i: usize| #[trigger] initial.contains(i) ==> s.contains(i as int)),
    ensures
        decision <==> (forall|i: usize|
            #[trigger] initial.contains(i) ==> sat_result.contains(i)),
{
}

} // verus!
