use vstd::prelude::*;

use crate::ctl::{BinaryCTLOperator, CTLFormula, CTLFormulaLeaf, UnaryCTLOperator};
use crate::kripke::{AtomicProposition, KripkeStructure};

verus! {

/// In a transition system defined by a set of states and a transition relation
/// we distinguish two notions of pre-image of a set of states `X`:
/// - the *weak* pre-image is the set of states with *some* successor in `X`;
/// - the *strong* pre-image is the set of states whose successors *all* lie in `X`.
#[derive(Clone, Copy, Debug, PartialEq, Eq, Structural)]
pub enum PreImageKind {
    Weak,
    Strong,
}

/// The set of all state indices of an `n`-state structure.
pub open spec fn full_set(n: nat) -> Set<int> {
    Set::new(|i: int| 0 <= i < n)
}

/// Whether every transition of `t` connects two states of an `n`-state structure.
pub open spec fn trans_in_range(n: nat, t: Set<(int, int)>) -> bool {
    forall|p: (int, int)| #[trigger] t.contains(p) ==> 0 <= p.0 < n && 0 <= p.1 < n
}

/// The pre-image of the state set `x` under the transition relation `t`.
pub open spec fn pre_image_set(kind: PreImageKind, n: nat, t: Set<(int, int)>, x: Set<int>) -> Set<
    int,
> {
    match kind {
        PreImageKind::Weak => Set::new(
            |i: int| 0 <= i < n && exists|j: int| #[trigger] t.contains((i, j)) && x.contains(j),
        ),
        PreImageKind::Strong => Set::new(
            |i: int|
                0 <= i < n && forall|j: int| #[trigger] t.contains((i, j)) ==> x.contains(j),
        ),
    }
}

/// One step of the until iteration: `after ∪ (before ∩ Pre(z))`.
pub open spec fn until_step(
    kind: PreImageKind,
    n: nat,
    t: Set<(int, int)>,
    before: Set<int>,
    after: Set<int>,
    z: Set<int>,
) -> Set<int> {
    after.union(before.intersect(pre_image_set(kind, n, t, z)))
}

/// Whether `w` is closed under the until step (a pre-fixed point).
pub open spec fn until_closed(
    kind: PreImageKind,
    n: nat,
    t: Set<(int, int)>,
    before: Set<int>,
    after: Set<int>,
    w: Set<int>,
) -> bool {
    until_step(kind, n, t, before, after, w).subset_of(w)
}

/// The least fixed point of the until step: the intersection of all sets
/// closed under it.
pub open spec fn until_lfp(
    kind: PreImageKind,
    n: nat,
    t: Set<(int, int)>,
    before: Set<int>,
    after: Set<int>,
) -> Set<int> {
    Set::new(
        |i: int|
            forall|w: Set<int>| #[trigger] until_closed(kind, n, t, before, after, w)
                ==> w.contains(i),
    )
}

/// One step of the global iteration: `inv ∩ Pre(z)`.
pub open spec fn global_step(
    kind: PreImageKind,
    n: nat,
    t: Set<(int, int)>,
    inv: Set<int>,
    z: Set<int>,
) -> Set<int> {
    inv.intersect(pre_image_set(kind, n, t, z))
}

/// Whether `w` is dense for the global step (a post-fixed point).
pub open spec fn global_dense(
    kind: PreImageKind,
    n: nat,
    t: Set<(int, int)>,
    inv: Set<int>,
    w: Set<int>,
) -> bool {
    w.subset_of(global_step(kind, n, t, inv, w))
}

/// The greatest fixed point of the global step: the union of all sets dense
/// for it.
pub open spec fn global_gfp(kind: PreImageKind, n: nat, t: Set<(int, int)>, inv: Set<int>) -> Set<
    int,
> {
    Set::new(
        |i: int|
            exists|w: Set<int>| #[trigger] global_dense(kind, n, t, inv, w) && w.contains(i),
    )
}

/// The satisfaction set of a CTL formula over a Kripke structure: the set of
/// state indices at which the formula holds. Temporal operators are given by
/// their standard fixed-point characterisations.
pub open spec fn sat_spec<DOAP, AP: AtomicProposition<DOAP>>(
    k: &KripkeStructure<DOAP>,
    f: &CTLFormula<AP>,
) -> Set<int>
    decreases *f,
{
    let n = k.n();
    let t = k.trans_set();
    match f {
        CTLFormula::Leaf(leaf) => match leaf {
            CTLFormulaLeaf::True => full_set(n),
            CTLFormulaLeaf::False => Set::empty(),
            CTLFormulaLeaf::AtomicProp(ap) => Set::new(
                |i: int|
                    0 <= i < n && ap.satisfied_on_spec(&k.states@[i].value_in_domain),
            ),
        },
        CTLFormula::Unary(op, f1) => {
            let s1 = sat_spec(k, f1);
            match op {
                UnaryCTLOperator::Not => full_set(n).difference(s1),
                UnaryCTLOperator::AX => pre_image_set(PreImageKind::Strong, n, t, s1),
                UnaryCTLOperator::EX => pre_image_set(PreImageKind::Weak, n, t, s1),
                UnaryCTLOperator::AF => until_lfp(PreImageKind::Strong, n, t, full_set(n), s1),
                UnaryCTLOperator::EF => until_lfp(PreImageKind::Weak, n, t, full_set(n), s1),
                UnaryCTLOperator::AG => global_gfp(PreImageKind::Strong, n, t, s1),
                UnaryCTLOperator::EG => global_gfp(PreImageKind::Weak, n, t, s1),
            }
        },
        CTLFormula::Binary(op, f1, f2) => {
            let s1 = sat_spec(k, f1);
            let s2 = sat_spec(k, f2);
            match op {
                BinaryCTLOperator::And => s1.intersect(s2),
                BinaryCTLOperator::Or => s1.union(s2),
                BinaryCTLOperator::Imply => Set::new(
                    |i: int| 0 <= i < n && (s1.contains(i) ==> s2.contains(i)),
                ),
                BinaryCTLOperator::Iff => Set::new(
                    |i: int| 0 <= i < n && (s1.contains(i) <==> s2.contains(i)),
                ),
                BinaryCTLOperator::AU => until_lfp(PreImageKind::Strong, n, t, s1, s2),
                BinaryCTLOperator::EU => until_lfp(PreImageKind::Weak, n, t, s1, s2),
            }
        },
    }
}

/// Every satisfaction set consists of state indices of the structure.
pub proof fn lemma_sat_spec_in_range<DOAP, AP: AtomicProposition<DOAP>>(
    k: &KripkeStructure<DOAP>,
    f: &CTLFormula<AP>,
)
    ensures
        sat_spec(k, f).subset_of(full_set(k.n())),
    decreases *f,
{
    let n = k.n();
    let t = k.trans_set();
    match f {
        CTLFormula::Leaf(_) => {},
        CTLFormula::Unary(op, f1) => {
            lemma_sat_spec_in_range(k, f1);
            let s1 = sat_spec(k, f1);
            match op {
                UnaryCTLOperator::EF | UnaryCTLOperator::AF => {
                    let kind = if op == UnaryCTLOperator::EF {
                        PreImageKind::Weak
                    } else {
                        PreImageKind::Strong
                    };
                    lemma_until_lfp_in_full(kind, n, t, full_set(n), s1);
                },
                UnaryCTLOperator::EG | UnaryCTLOperator::AG => {
                    let kind = if op == UnaryCTLOperator::EG {
                        PreImageKind::Weak
                    } else {
                        PreImageKind::Strong
                    };
                    lemma_global_gfp_in_full(kind, n, t, s1);
                },
                _ => {},
            }
        },
        CTLFormula::Binary(op, f1, f2) => {
            lemma_sat_spec_in_range(k, f1);
            lemma_sat_spec_in_range(k, f2);
            let s1 = sat_spec(k, f1);
            let s2 = sat_spec(k, f2);
            match op {
                BinaryCTLOperator::EU | BinaryCTLOperator::AU => {
                    let kind = if op == BinaryCTLOperator::EU {
                        PreImageKind::Weak
                    } else {
                        PreImageKind::Strong
                    };
                    lemma_until_lfp_in_full(kind, n, t, s1, s2);
                },
                _ => {},
            }
        },
    }
}

/// The until least fixed point stays within the state indices, provided its
/// two operands do.
pub proof fn lemma_until_lfp_in_full(
    kind: PreImageKind,
    n: nat,
    t: Set<(int, int)>,
    before: Set<int>,
    after: Set<int>,
)
    requires
        after.subset_of(full_set(n)),
    ensures
        until_lfp(kind, n, t, before, after).subset_of(full_set(n)),
{
    assert(until_closed(kind, n, t, before, after, full_set(n)));
    assert forall|i: int| until_lfp(kind, n, t, before, after).contains(i) implies full_set(
        n,
    ).contains(i) by {
        assert(until_closed(kind, n, t, before, after, full_set(n)) ==> full_set(n).contains(i));
    }
}

/// The global greatest fixed point stays within the state indices.
pub proof fn lemma_global_gfp_in_full(kind: PreImageKind, n: nat, t: Set<(int, int)>, inv: Set<int>)
    ensures
        global_gfp(kind, n, t, inv).subset_of(full_set(n)),
{
    assert forall|i: int| global_gfp(kind, n, t, inv).contains(i) implies full_set(n).contains(
        i,
    ) by {
        let w = choose|w: Set<int>| #[trigger] global_dense(kind, n, t, inv, w) && w.contains(i);
        assert(global_step(kind, n, t, inv, w).contains(i));
        assert(pre_image_set(kind, n, t, w).contains(i));
    }
}

/// The pre-image operator is monotone.
pub proof fn lemma_pre_image_monotone(
    kind: PreImageKind,
    n: nat,
    t: Set<(int, int)>,
    x: Set<int>,
    y: Set<int>,
)
    requires
        x.subset_of(y),
    ensures
        pre_image_set(kind, n, t, x).subset_of(pre_image_set(kind, n, t, y)),
{
    match kind {
        PreImageKind::Weak => {
            assert forall|i: int| pre_image_set(kind, n, t, x).contains(i) implies pre_image_set(
                kind,
                n,
                t,
                y,
            ).contains(i) by {
                let j = choose|j: int| #[trigger] t.contains((i, j)) && x.contains(j);
                assert(t.contains((i, j)) && y.contains(j));
            }
        },
        PreImageKind::Strong => {
            assert forall|i: int| pre_image_set(kind, n, t, x).contains(i) implies pre_image_set(
                kind,
                n,
                t,
                y,
            ).contains(i) by {
                assert forall|j: int| #[trigger] t.contains((i, j)) implies y.contains(j) by {
                    assert(x.contains(j));
                }
            }
        },
    }
}

/// The until iteration's least fixed point is itself a fixed point, and it is
/// contained in every fixed point: the Knaster-Tarski characterisation.
pub proof fn lemma_until_lfp_least_fixed_point(
    kind: PreImageKind,
    n: nat,
    t: Set<(int, int)>,
    before: Set<int>,
    after: Set<int>,
)
    ensures
        until_step(kind, n, t, before, after, until_lfp(kind, n, t, before, after)) == until_lfp(
            kind,
            n,
            t,
            before,
            after,
        ),
        forall|z: Set<int>|
            until_step(kind, n, t, before, after, z) == z ==> #[trigger] until_lfp(
                kind,
                n,
                t,
                before,
                after,
            ).subset_of(z),
{
    let l = until_lfp(kind, n, t, before, after);
    // The step applied to the intersection of all closed sets stays below
    // every closed set, hence below the intersection.
    assert forall|w: Set<int>| #[trigger] until_closed(kind, n, t, before, after, w) implies
        until_step(kind, n, t, before, after, l).subset_of(w) by {
        assert(l.subset_of(w));
        lemma_pre_image_monotone(kind, n, t, l, w);
        assert(until_step(kind, n, t, before, after, l).subset_of(
            until_step(kind, n, t, before, after, w),
        ));
    }
    assert forall|i: int| until_step(kind, n, t, before, after, l).contains(i) implies l.contains(
        i,
    ) by {
        assert forall|w: Set<int>| #[trigger] until_closed(kind, n, t, before, after, w) implies
            w.contains(i) by {
            assert(until_step(kind, n, t, before, after, l).subset_of(w));
        }
    }
    // So the step of l is itself closed, hence l lies below it.
    assert(until_step(kind, n, t, before, after, l).subset_of(l));
    lemma_pre_image_monotone(kind, n, t, until_step(kind, n, t, before, after, l), l);
    assert(until_closed(kind, n, t, before, after, until_step(kind, n, t, before, after, l)));
    assert forall|i: int| l.contains(i) implies until_step(kind, n, t, before, after, l).contains(
        i,
    ) by {
        assert(until_step(kind, n, t, before, after, l).contains(i) || true);
    }
    assert(until_step(kind, n, t, before, after, l) =~= l);
    assert forall|z: Set<int>| until_step(kind, n, t, before, after, z) == z implies l.subset_of(
        z,
    ) by {
        assert(until_closed(kind, n, t, before, after, z));
        assert forall|i: int| l.contains(i) implies z.contains(i) by {
            assert(until_closed(kind, n, t, before, after, z) ==> z.contains(i));
        }
    }
}

/// The global iteration's greatest fixed point is itself a fixed point, and it
/// contains every fixed point: the Knaster-Tarski characterisation.
pub proof fn lemma_global_gfp_greatest_fixed_point(
    kind: PreImageKind,
    n: nat,
    t: Set<(int, int)>,
    inv: Set<int>,
)
    ensures
        global_step(kind, n, t, inv, global_gfp(kind, n, t, inv)) == global_gfp(kind, n, t, inv),
        forall|z: Set<int>|
            global_step(kind, n, t, inv, z) == z ==> z.subset_of(
                #[trigger] global_gfp(kind, n, t, inv),
            ),
{
    let g = global_gfp(kind, n, t, inv);
    // Every dense set lies below the step of the union of all dense sets.
    assert forall|w: Set<int>| #[trigger] global_dense(kind, n, t, inv, w) implies w.subset_of(
        global_step(kind, n, t, inv, g),
    ) by {
        assert forall|i: int| w.contains(i) implies g.contains(i) by {
            assert(global_dense(kind, n, t, inv, w) && w.contains(i));
        }
        lemma_pre_image_monotone(kind, n, t, w, g);
        assert(global_step(kind, n, t, inv, w).subset_of(global_step(kind, n, t, inv, g)));
    }
    assert forall|i: int| g.contains(i) implies global_step(kind, n, t, inv, g).contains(i) by {
        let w = choose|w: Set<int>| #[trigger] global_dense(kind, n, t, inv, w) && w.contains(i);
        assert(w.subset_of(global_step(kind, n, t, inv, g)));
    }
    // So the step of g is itself dense, hence g contains it.
    assert(g.subset_of(global_step(kind, n, t, inv, g)));
    lemma_pre_image_monotone(kind, n, t, g, global_step(kind, n, t, inv, g));
    assert(global_dense(kind, n, t, inv, global_step(kind, n, t, inv, g)));
    assert forall|i: int| global_step(kind, n, t, inv, g).contains(i) implies g.contains(i) by {
        assert(global_dense(kind, n, t, inv, global_step(kind, n, t, inv, g)) && global_step(
            kind,
            n,
            t,
            inv,
            g,
        ).contains(i));
    }
    assert(global_step(kind, n, t, inv, g) =~= g);
    assert forall|z: Set<int>| global_step(kind, n, t, inv, z) == z implies z.subset_of(g) by {
        assert(global_dense(kind, n, t, inv, z));
        assert forall|i: int| z.contains(i) implies g.contains(i) by {
            assert(global_dense(kind, n, t, inv, z) && z.contains(i));
        }
    }
}

} // verus!
