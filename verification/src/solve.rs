use vstd::prelude::*;

use std::collections::HashSet;

use biodivine_lib_bdd::Bdd;

use crate::bdd::{
    bdd_and, bdd_clone, bdd_eq, bdd_imp, bdd_is_false, bdd_is_true, bdd_mk_false, bdd_mk_true,
    bdd_mk_var, bdd_or, bdd_state_set, bdd_models, bdd_num_vars, bdd_canonical, first_agree, first_is_state,
    lemma_and_state_set, lemma_iff_state_set, lemma_imp_state_set, lemma_loose_state_set,
    lemma_not_state_set, lemma_or_state_set, loose_models, preimage_models, state_assignment,
    state_set_bdd, states_set_models, assignments, bdd_iff, bdd_not, var_set_num_vars,
    KripkeStructureBddRepresentation,
};
use crate::ctl::{
    formula_eq, formula_leaves, BinaryCTLOperator, CTLFormula, CTLFormulaLeaf, UnaryCTLOperator,
};
use crate::kripke::{AtomicProposition, KripkeStructure, ValueEq};
use crate::semantics::{
    full_set, global_dense, global_gfp, global_step, lemma_pre_image_monotone,
    lemma_sat_spec_in_range, pre_image_set, sat_spec, until_closed, until_lfp, until_step,
    PreImageKind,
};

verus! {

broadcast use vstd::std_specs::hash::group_hash_axioms;

/// Every memo entry is a state-set BDD representing the satisfaction set of
/// the subformula it is keyed by.
pub open spec fn memo_ok<DOAP, AP: AtomicProposition<DOAP>>(
    k: &KripkeStructure<DOAP>,
    memo: Seq<(&CTLFormula<AP>, Bdd)>,
) -> bool {
    forall|e: int|
        0 <= e < memo.len() ==> state_set_bdd((#[trigger] memo[e]).1, k.n()) && bdd_state_set(
            memo[e].1,
            k.n(),
        ) == sat_spec(k, memo[e].0)
}

/// Whether the memo holds an entry for the given formula.
pub open spec fn memo_covers<AP>(memo: Seq<(&CTLFormula<AP>, Bdd)>, f: CTLFormula<AP>) -> bool {
    exists|e: int| 0 <= e < memo.len() && *(#[trigger] memo[e]).0 == f
}

/// A memo that covers every leaf of a formula still does after entries are
/// appended.
proof fn lemma_memo_covers_preserved<AP>(
    old_memo: Seq<(&CTLFormula<AP>, Bdd)>,
    new_memo: Seq<(&CTLFormula<AP>, Bdd)>,
    f: CTLFormula<AP>,
)
    requires
        old_memo.len() <= new_memo.len(),
        forall|q: int| 0 <= q < old_memo.len() ==> #[trigger] new_memo[q] == old_memo[q],
        memo_covers(old_memo, f),
    ensures
        memo_covers(new_memo, f),
{
    let e = choose|e: int| 0 <= e < old_memo.len() && *(#[trigger] old_memo[e]).0 == f;
    assert(new_memo[e] == old_memo[e]);
    assert(*(new_memo[e]).0 == f);
}

/// Looks a formula up in the memo by structural equality.
fn memo_lookup<'a, 'm, AP: ValueEq>(
    memo: &'m Vec<(&'a CTLFormula<AP>, Bdd)>,
    phi: &CTLFormula<AP>,
) -> (r: Option<&'m Bdd>)
    ensures
        match r {
            Some(b) => exists|e: int|
                0 <= e < memo@.len() && *(#[trigger] memo@[e]).0 == *phi && memo@[e].1 == *b,
            None => forall|e: int| 0 <= e < memo@.len() ==> *(#[trigger] memo@[e]).0 != *phi,
        },
{
    let mut e: usize = 0;
    while e < memo.len()
        invariant
            0 <= e <= memo@.len(),
            forall|q: int| 0 <= q < e ==> *(#[trigger] memo@[q]).0 != *phi,
        decreases memo@.len() - e,
    {
        if formula_eq(memo[e].0, phi) {
            return Some(&memo[e].1);
        }
        e += 1;
    }
    None
}

/// The satisfaction set of one atomic proposition: the states whose domain
/// value satisfies it.
pub open spec fn atom_sat_set<DOAP, AP: AtomicProposition<DOAP>>(
    k: &KripkeStructure<DOAP>,
    ap: &AP,
) -> Set<int> {
    Set::new(|i: int| 0 <= i < k.n() && ap.satisfied_on_spec(&k.states@[i].value_in_domain))
}

/// Builds the loose BDD of one atomic proposition: for each state whose
/// domain value satisfies it, the single positive literal of that state's
/// current-state variable is disjoined in.
fn build_atom_bdd<DOAP, AP: AtomicProposition<DOAP>>(
    kripke: &KripkeStructure<DOAP>,
    mc: &KripkeStructureBddRepresentation,
    ap: &AP,
) -> (r: Bdd)
    requires
        kripke.wf(),
        mc.inv(),
        mc.n() == kripke.n(),
    ensures
        state_set_bdd(r, kripke.n()),
        bdd_state_set(r, kripke.n()) == atom_sat_set(kripke, ap),
{
    let ghost n = kripke.n();
    proof {
        mc.lemma_inv_var_set();
    }
    let mut bdd = bdd_mk_false(&mc.var_set);
    proof {
        assert(bdd_models(bdd) =~= loose_models(
            n,
            atom_sat_set(kripke, ap).intersect(Set::new(|i: int| i < 0)),
        ));
    }
    let mut st_id: usize = 0;
    while st_id < kripke.states.len()
        invariant
            kripke.wf(),
            mc.inv(),
            n == kripke.n(),
            mc.n() == n,
            var_set_num_vars(mc.var_set) == 2 * n,
            0 <= st_id <= kripke.states@.len(),
            bdd_canonical(bdd),
            bdd_num_vars(bdd) == 2 * n,
            bdd_models(bdd) == loose_models(
                n,
                atom_sat_set(kripke, ap).intersect(Set::new(|i: int| i < st_id as int)),
            ),
        decreases kripke.states@.len() - st_id,
    {
        let ghost prev = atom_sat_set(kripke, ap).intersect(Set::new(|i: int| i < st_id as int));
        let ghost now = atom_sat_set(kripke, ap).intersect(
            Set::new(|i: int| i < st_id as int + 1),
        );
        if ap.is_satisfied_on_state_domain(&kripke.states[st_id].value_in_domain) {
            let var_bdd = bdd_mk_var(&mc.var_set, st_id);
            let next_bdd = bdd_or(&bdd, &var_bdd);
            proof {
                assert(now.contains(st_id as int));
                assert forall|a: Seq<bool>| bdd_models(next_bdd).contains(a) <==> loose_models(
                    n,
                    now,
                ).contains(a) by {
                    if bdd_models(next_bdd).contains(a) {
                        if bdd_models(bdd).contains(a) {
                            let i = choose|i: int|
                                #[trigger] prev.contains(i) && 0 <= i < n && a[i];
                            assert(now.contains(i));
                        } else {
                            assert(a[st_id as int]);
                        }
                    }
                    if loose_models(n, now).contains(a) {
                        let i = choose|i: int| #[trigger] now.contains(i) && 0 <= i < n && a[i];
                        if i < st_id as int {
                            assert(prev.contains(i));
                            assert(loose_models(n, prev).contains(a));
                        } else {
                            assert(i == st_id as int);
                        }
                    }
                }
                assert(bdd_models(next_bdd) =~= loose_models(n, now));
            }
            bdd = next_bdd;
        } else {
            proof {
                assert(prev =~= now);
            }
        }
        st_id += 1;
    }
    proof {
        let s = atom_sat_set(kripke, ap);
        assert(s.intersect(Set::new(|i: int| i < kripke.states@.len() as int)) =~= s);
        lemma_loose_state_set(bdd, n, s);
    }
    bdd
}

/// Pre-seeds the memoisation table at the leaves: a loose BDD for every
/// distinct atomic proposition, the true constant for the `True` leaf and the
/// false constant for the `False` leaf, if they occur. Also returns the
/// shared true constant used as the top element of the until iteration.
fn initialize_memoizer_at_leaves<'a, DOAP, AP: AtomicProposition<DOAP> + ValueEq>(
    kripke: &KripkeStructure<DOAP>,
    mc: &KripkeStructureBddRepresentation,
    atoms: Vec<&'a CTLFormula<AP>>,
    true_formula: Option<&'a CTLFormula<AP>>,
    false_formula: Option<&'a CTLFormula<AP>>,
) -> (r: (Vec<(&'a CTLFormula<AP>, Bdd)>, Bdd))
    requires
        kripke.wf(),
        mc.inv(),
        mc.n() == kripke.n(),
        forall|e: int|
            0 <= e < atoms@.len() ==> (*(#[trigger] atoms@[e])) matches CTLFormula::Leaf(
                CTLFormulaLeaf::AtomicProp(_),
            ),
        true_formula matches Some(x) ==> *x == CTLFormula::Leaf(CTLFormulaLeaf::<AP>::True),
        false_formula matches Some(x) ==> *x == CTLFormula::Leaf(CTLFormulaLeaf::<AP>::False),
    ensures
        memo_ok(kripke, r.0@),
        forall|e: int| 0 <= e < atoms@.len() ==> memo_covers(r.0@, *(#[trigger] atoms@[e])),
        true_formula matches Some(x) ==> memo_covers(r.0@, *x),
        false_formula matches Some(x) ==> memo_covers(r.0@, *x),
        state_set_bdd(r.1, kripke.n()),
        bdd_models(r.1) == assignments(2 * kripke.n()),
        bdd_state_set(r.1, kripke.n()) == full_set(kripke.n()),
{
    let ghost n = kripke.n();
    proof {
        mc.lemma_inv_var_set();
    }
    let mut sub_formulae_memoizer: Vec<(&'a CTLFormula<AP>, Bdd)> = Vec::new();
    let mut a_idx: usize = 0;
    while a_idx < atoms.len()
        invariant
            kripke.wf(),
            mc.inv(),
            mc.n() == n,
            n == kripke.n(),
            0 <= a_idx <= atoms@.len(),
            sub_formulae_memoizer@.len() == a_idx,
            memo_ok(kripke, sub_formulae_memoizer@),
            forall|e: int|
                0 <= e < atoms@.len() ==> (*(#[trigger] atoms@[e])) matches CTLFormula::Leaf(
                    CTLFormulaLeaf::AtomicProp(_),
                ),
            forall|q: int|
                0 <= q < a_idx ==> (#[trigger] sub_formulae_memoizer@[q]).0 == atoms@[q],
        decreases atoms@.len() - a_idx,
    {
        let atom_f = atoms[a_idx];
        match atom_f {
            CTLFormula::Leaf(CTLFormulaLeaf::AtomicProp(ap)) => {
                let atom_bdd = build_atom_bdd(kripke, mc, ap);
                proof {
                    assert(sat_spec(kripke, atom_f) == atom_sat_set(kripke, ap));
                }
                sub_formulae_memoizer.push((atom_f, atom_bdd));
            },
            _ => {
                proof {
                    assert(false);
                }
            },
        }
        a_idx += 1;
    }
    let ghost mut true_idx: int = 0;
    let ghost mut false_idx: int = 0;
    let true_bdd = bdd_mk_true(&mc.var_set);
    proof {
        assert forall|a: Seq<bool>, m: Seq<bool>|
            #[trigger] bdd_models(true_bdd).contains(a) && m.len() == 2 * n && first_agree(
                a,
                m,
                n,
            ) implies #[trigger] bdd_models(true_bdd).contains(m) by {
            assert(assignments(2 * n).contains(m));
        }
        assert(bdd_state_set(true_bdd, n) =~= full_set(n));
    }
    if let Some(x) = true_formula {
        let t = bdd_clone(&true_bdd);
        proof {
            assert(sat_spec(kripke, x) == full_set(n));
            assert(bdd_state_set(t, n) == bdd_state_set(true_bdd, n));
        }
        proof {
            true_idx = sub_formulae_memoizer@.len() as int;
        }
        sub_formulae_memoizer.push((x, t));
    }
    if let Some(x) = false_formula {
        let f = bdd_mk_false(&mc.var_set);
        proof {
            assert(sat_spec(kripke, x) == Set::<int>::empty());
            assert(bdd_state_set(f, n) =~= Set::<int>::empty());
        }
        proof {
            false_idx = sub_formulae_memoizer@.len() as int;
        }
        sub_formulae_memoizer.push((x, f));
    }
    proof {
        assert forall|e: int| 0 <= e < atoms@.len() implies memo_covers(
            sub_formulae_memoizer@,
            *(#[trigger] atoms@[e]),
        ) by {
            assert((sub_formulae_memoizer@[e]).0 == atoms@[e]);
        }
        if true_formula is Some {
            let x = true_formula->Some_0;
            assert(0 <= true_idx < sub_formulae_memoizer@.len());
            assert((sub_formulae_memoizer@[true_idx]).0 == x);
        }
        if false_formula is Some {
            let x = false_formula->Some_0;
            assert(0 <= false_idx < sub_formulae_memoizer@.len());
            assert((sub_formulae_memoizer@[false_idx]).0 == x);
        }
    }
    (sub_formulae_memoizer, true_bdd)
}

/// The satisfying assignments of the next until iterate computed from the
/// current one.
pub open spec fn until_next_models(
    kind: PreImageKind,
    n: nat,
    t: Set<(int, int)>,
    before: Bdd,
    cur: Bdd,
) -> Set<Seq<bool>> {
    bdd_models(cur).union(
        bdd_models(before).intersect(preimage_models(kind, n, t, bdd_state_set(cur, n))),
    )
}

/// The satisfying assignments of the next global iterate computed from the
/// current one.
pub open spec fn global_next_models(kind: PreImageKind, n: nat, t: Set<(int, int)>, cur: Bdd) -> Set<
    Seq<bool>,
> {
    bdd_models(cur).intersect(preimage_models(kind, n, t, bdd_state_set(cur, n)))
}

/// The full state set is finite, with one element per state.
proof fn lemma_full_set_finite(n: nat)
    ensures
        full_set(n).finite(),
        full_set(n).len() == n,
{
    vstd::set_lib::lemma_int_range(0, n as int);
    assert(full_set(n) =~= vstd::set_lib::set_int_range(0, n as int));
}

/// Computes the least fixed point of the until iteration
/// `Z ↦ Z ∨ (before ∧ Pre(Z))`, seeded with `after`, by iterating until the
/// BDD stops changing.
fn until_fixpoint(
    mc: &KripkeStructureBddRepresentation,
    kind: PreImageKind,
    before: &Bdd,
    after: Bdd,
) -> (r: Bdd)
    requires
        mc.inv(),
        state_set_bdd(*before, mc.n()),
        state_set_bdd(after, mc.n()),
    ensures
        state_set_bdd(r, mc.n()),
        bdd_state_set(r, mc.n()) == until_lfp(
            kind,
            mc.n(),
            mc.trans(),
            bdd_state_set(*before, mc.n()),
            bdd_state_set(after, mc.n()),
        ),
{
    let ghost n = mc.n();
    let ghost t = mc.trans();
    let ghost bset = bdd_state_set(*before, n);
    let ghost aset = bdd_state_set(after, n);
    let mut current = after;
    proof {
        lemma_full_set_finite(n);
        assert forall|i: int| bdd_state_set(current, n).contains(i) implies until_lfp(
            kind,
            n,
            t,
            bset,
            aset,
        ).contains(i) by {
            assert forall|w: Set<int>| #[trigger] until_closed(
                kind,
                n,
                t,
                bset,
                aset,
                w,
            ) implies w.contains(i) by {
                assert(until_step(kind, n, t, bset, aset, w).contains(i));
            }
        }
    }
    loop
        invariant
            mc.inv(),
            n == mc.n(),
            t == mc.trans(),
            state_set_bdd(*before, n),
            bset == bdd_state_set(*before, n),
            aset == bdd_state_set(after, n),
            state_set_bdd(current, n),
            aset.subset_of(bdd_state_set(current, n)),
            bdd_state_set(current, n).subset_of(until_lfp(kind, n, t, bset, aset)),
        decreases 2 * (n as int - bdd_state_set(current, n).len() as int) + (if bdd_models(
            current,
        ) == until_next_models(kind, n, t, *before, current) {
            0int
        } else {
            1int
        }),
    {
        let ghost s_cur = bdd_state_set(current, n);
        proof {
            lemma_full_set_finite(n);
            assert(s_cur.subset_of(full_set(n)));
            vstd::set_lib::lemma_len_subset(s_cur, full_set(n));
        }
        let pre = mc.get_pre_image_by_transition_relation(kind, &current);
        let guarded = bdd_and(before, &pre);
        let step = bdd_or(&current, &guarded);
        proof {
            lemma_and_state_set(*before, pre, guarded, n);
            lemma_or_state_set(current, guarded, step, n);
            assert(bdd_models(step) == until_next_models(kind, n, t, *before, current));
        }
        let ghost s_step = bdd_state_set(step, n);
        if bdd_eq(&step, &current) {
            proof {
                assert(s_step == s_cur);
                assert(until_closed(kind, n, t, bset, aset, s_cur)) by {
                    assert forall|i: int| until_step(kind, n, t, bset, aset, s_cur).contains(
                        i,
                    ) implies s_cur.contains(i) by {
                        if !aset.contains(i) {
                            assert(bdd_state_set(step, n).contains(i));
                        }
                    }
                }
                assert forall|i: int| until_lfp(kind, n, t, bset, aset).contains(
                    i,
                ) implies s_cur.contains(i) by {
                    assert(until_closed(kind, n, t, bset, aset, s_cur) ==> s_cur.contains(i));
                }
                assert(bdd_state_set(current, n) =~= until_lfp(kind, n, t, bset, aset));
            }
            return current;
        }
        proof {
            assert(bdd_models(step) != bdd_models(current));
            // The iterate only grows, and it stays below the least fixed
            // point because the step is monotone.
            assert forall|i: int| s_step.contains(i) implies until_lfp(
                kind,
                n,
                t,
                bset,
                aset,
            ).contains(i) by {
                if s_cur.contains(i) {
                } else {
                    assert forall|w: Set<int>| #[trigger] until_closed(
                        kind,
                        n,
                        t,
                        bset,
                        aset,
                        w,
                    ) implies w.contains(i) by {
                        assert forall|j: int| s_cur.contains(j) implies w.contains(j) by {
                            assert(until_lfp(kind, n, t, bset, aset).contains(j));
                            assert(until_closed(kind, n, t, bset, aset, w) ==> w.contains(j));
                        }
                        lemma_pre_image_monotone(kind, n, t, s_cur, w);
                        assert(until_step(kind, n, t, bset, aset, w).contains(i));
                    }
                }
            }
            // Termination: either the represented state set grows strictly,
            // or it is stable and the next iterate's BDD no longer changes.
            vstd::set_lib::lemma_len_subset(s_step, full_set(n));
            vstd::set_lib::lemma_len_subset(s_cur, s_step);
            if s_step =~= s_cur {
                assert(preimage_models(kind, n, t, s_step) == preimage_models(kind, n, t, s_cur));
                assert(until_next_models(kind, n, t, *before, step) =~= bdd_models(step));
            } else {
                if s_cur.len() == s_step.len() {
                    vstd::set_lib::lemma_subset_equality(s_cur, s_step);
                    assert(false);
                }
            }
        }
        current = step;
    }
}

/// Computes the greatest fixed point of the global iteration
/// `Z ↦ Z ∧ Pre(Z)`, seeded with the given set, by iterating until the BDD
/// stops changing.
fn global_fixpoint(mc: &KripkeStructureBddRepresentation, kind: PreImageKind, bdd: Bdd) -> (r: Bdd)
    requires
        mc.inv(),
        state_set_bdd(bdd, mc.n()),
    ensures
        state_set_bdd(r, mc.n()),
        bdd_state_set(r, mc.n()) == global_gfp(
            kind,
            mc.n(),
            mc.trans(),
            bdd_state_set(bdd, mc.n()),
        ),
{
    let ghost n = mc.n();
    let ghost t = mc.trans();
    let ghost pset = bdd_state_set(bdd, n);
    let mut current = bdd;
    proof {
        lemma_full_set_finite(n);
        assert forall|i: int| global_gfp(kind, n, t, pset).contains(i) implies bdd_state_set(
            current,
            n,
        ).contains(i) by {
            let w = choose|w: Set<int>|
                #[trigger] global_dense(kind, n, t, pset, w) && w.contains(i);
            assert(global_step(kind, n, t, pset, w).contains(i));
        }
    }
    loop
        invariant
            mc.inv(),
            n == mc.n(),
            t == mc.trans(),
            pset == bdd_state_set(bdd, n),
            state_set_bdd(current, n),
            bdd_state_set(current, n).subset_of(pset),
            global_gfp(kind, n, t, pset).subset_of(bdd_state_set(current, n)),
        decreases 2 * bdd_state_set(current, n).len() + (if bdd_models(current)
            == global_next_models(kind, n, t, current) {
            0int
        } else {
            1int
        }),
    {
        let ghost s_cur = bdd_state_set(current, n);
        proof {
            lemma_full_set_finite(n);
            assert(s_cur.subset_of(full_set(n)));
            vstd::set_lib::lemma_len_subset(s_cur, full_set(n));
        }
        let pre = mc.get_pre_image_by_transition_relation(kind, &current);
        let step = bdd_and(&current, &pre);
        proof {
            lemma_and_state_set(current, pre, step, n);
            assert(bdd_models(step) == global_next_models(kind, n, t, current));
        }
        let ghost s_step = bdd_state_set(step, n);
        if bdd_eq(&step, &current) {
            proof {
                assert(s_step == s_cur);
                assert(global_dense(kind, n, t, pset, s_cur)) by {
                    assert forall|i: int| s_cur.contains(i) implies global_step(
                        kind,
                        n,
                        t,
                        pset,
                        s_cur,
                    ).contains(i) by {
                        assert(bdd_state_set(step, n).contains(i));
                    }
                }
                assert forall|i: int| s_cur.contains(i) implies global_gfp(
                    kind,
                    n,
                    t,
                    pset,
                ).contains(i) by {
                    assert(global_dense(kind, n, t, pset, s_cur) && s_cur.contains(i));
                }
                assert(bdd_state_set(current, n) =~= global_gfp(kind, n, t, pset));
            }
            return current;
        }
        proof {
            assert(bdd_models(step) != bdd_models(current));
            assert forall|i: int| global_gfp(kind, n, t, pset).contains(i) implies s_step.contains(
                i,
            ) by {
                let w = choose|w: Set<int>|
                    #[trigger] global_dense(kind, n, t, pset, w) && w.contains(i);
                assert forall|j: int| w.contains(j) implies s_cur.contains(j) by {
                    assert(global_dense(kind, n, t, pset, w) && w.contains(j));
                    assert(global_gfp(kind, n, t, pset).contains(j));
                }
                lemma_pre_image_monotone(kind, n, t, w, s_cur);
                assert(global_step(kind, n, t, pset, w).contains(i));
                assert(pre_image_set(kind, n, t, s_cur).contains(i));
                assert(s_cur.contains(i));
            }
            vstd::set_lib::lemma_len_subset(s_step, s_cur);
            if s_step =~= s_cur {
                assert(preimage_models(kind, n, t, s_step) == preimage_models(kind, n, t, s_cur));
                assert(global_next_models(kind, n, t, step) =~= bdd_models(step));
            } else {
                if s_cur.len() == s_step.len() {
                    vstd::set_lib::lemma_subset_equality(s_step, s_cur);
                    assert(false);
                }
            }
        }
        current = step;
    }
}

/// Computes the BDD of the satisfaction set of a subformula, consulting and
/// growing the memoisation table. The table is pre-seeded at the leaves, so
/// reaching a leaf here without a memo entry is impossible.
fn get_ctl_subformula_sat_set_rec<'a, DOAP, AP: AtomicProposition<DOAP> + ValueEq>(
    Ghost(kripke): Ghost<KripkeStructure<DOAP>>,
    mc: &KripkeStructureBddRepresentation,
    true_bdd: &Bdd,
    sub_formulae_memoizer: &mut Vec<(&'a CTLFormula<AP>, Bdd)>,
    phi: &'a CTLFormula<AP>,
) -> (r: Bdd)
    requires
        kripke.wf(),
        mc.inv(),
        mc.n() == kripke.n(),
        mc.trans() == kripke.trans_set(),
        state_set_bdd(*true_bdd, kripke.n()),
        bdd_state_set(*true_bdd, kripke.n()) == full_set(kripke.n()),
        memo_ok(&kripke, old(sub_formulae_memoizer)@),
        forall|l: CTLFormula<AP>|
            #[trigger] formula_leaves(*phi).contains(l) ==> memo_covers(
                old(sub_formulae_memoizer)@,
                l,
            ),
    ensures
        memo_ok(&kripke, final(sub_formulae_memoizer)@),
        old(sub_formulae_memoizer)@.len() <= final(sub_formulae_memoizer)@.len(),
        forall|q: int|
            0 <= q < old(sub_formulae_memoizer)@.len()
                ==> #[trigger] final(sub_formulae_memoizer)@[q] == old(sub_formulae_memoizer)@[q],
        state_set_bdd(r, kripke.n()),
        bdd_state_set(r, kripke.n()) == sat_spec(&kripke, phi),
    decreases *phi,
{
    let ghost n = kripke.n();
    if let Some(got_bdd) = memo_lookup(sub_formulae_memoizer, phi) {
        let cached = bdd_clone(got_bdd);
        proof {
            let e = choose|e: int|
                0 <= e < sub_formulae_memoizer@.len() && *(#[trigger] sub_formulae_memoizer@[
                e]).0 == *phi && sub_formulae_memoizer@[e].1 == *got_bdd;
            assert(state_set_bdd(sub_formulae_memoizer@[e].1, n));
            assert(bdd_state_set(cached, n) =~= bdd_state_set(sub_formulae_memoizer@[e].1, n));
        }
        return cached;
    }
    let phi_bdd: Bdd = match phi {
        CTLFormula::Unary(un_op, phi1) => {
            proof {
                assert forall|l: CTLFormula<AP>|
                    #[trigger] formula_leaves(**phi1).contains(l) implies memo_covers(
                    sub_formulae_memoizer@,
                    l,
                ) by {
                    assert(formula_leaves(*phi).contains(l));
                }
            }
            let bdd1 = get_ctl_subformula_sat_set_rec(
                Ghost(kripke),
                mc,
                true_bdd,
                sub_formulae_memoizer,
                phi1,
            );
            match un_op {
                UnaryCTLOperator::Not => {
                    let negated = bdd_not(&bdd1);
                    proof {
                        lemma_not_state_set(bdd1, negated, n);
                    }
                    negated
                },
                UnaryCTLOperator::AX => mc.get_pre_image_by_transition_relation(
                    PreImageKind::Strong,
                    &bdd1,
                ),
                UnaryCTLOperator::EX => mc.get_pre_image_by_transition_relation(
                    PreImageKind::Weak,
                    &bdd1,
                ),
                UnaryCTLOperator::AF => until_fixpoint(mc, PreImageKind::Strong, true_bdd, bdd1),
                UnaryCTLOperator::EF => until_fixpoint(mc, PreImageKind::Weak, true_bdd, bdd1),
                UnaryCTLOperator::AG => global_fixpoint(mc, PreImageKind::Strong, bdd1),
                UnaryCTLOperator::EG => global_fixpoint(mc, PreImageKind::Weak, bdd1),
            }
        },
        CTLFormula::Binary(bi_op, phi1, phi2) => {
            proof {
                assert forall|l: CTLFormula<AP>|
                    #[trigger] formula_leaves(**phi1).contains(l) implies memo_covers(
                    sub_formulae_memoizer@,
                    l,
                ) by {
                    assert(formula_leaves(*phi).contains(l));
                }
            }
            let bdd1 = get_ctl_subformula_sat_set_rec(
                Ghost(kripke),
                mc,
                true_bdd,
                sub_formulae_memoizer,
                phi1,
            );
            proof {
                assert forall|l: CTLFormula<AP>|
                    #[trigger] formula_leaves(**phi2).contains(l) implies memo_covers(
                    sub_formulae_memoizer@,
                    l,
                ) by {
                    assert(formula_leaves(*phi).contains(l));
                    lemma_memo_covers_preserved(
                        old(sub_formulae_memoizer)@,
                        sub_formulae_memoizer@,
                        l,
                    );
                }
            }
            let bdd2 = get_ctl_subformula_sat_set_rec(
                Ghost(kripke),
                mc,
                true_bdd,
                sub_formulae_memoizer,
                phi2,
            );
            match bi_op {
                BinaryCTLOperator::And => {
                    let conj = bdd_and(&bdd1, &bdd2);
                    proof {
                        lemma_and_state_set(bdd1, bdd2, conj, n);
                    }
                    conj
                },
                BinaryCTLOperator::Or => {
                    let disj = bdd_or(&bdd1, &bdd2);
                    proof {
                        lemma_or_state_set(bdd1, bdd2, disj, n);
                    }
                    disj
                },
                BinaryCTLOperator::Imply => {
                    let implied = bdd_imp(&bdd1, &bdd2);
                    proof {
                        lemma_imp_state_set(bdd1, bdd2, implied, n);
                    }
                    implied
                },
                BinaryCTLOperator::Iff => {
                    let equiv = bdd_iff(&bdd1, &bdd2);
                    proof {
                        lemma_iff_state_set(bdd1, bdd2, equiv, n);
                    }
                    equiv
                },
                BinaryCTLOperator::AU => until_fixpoint(mc, PreImageKind::Strong, &bdd1, bdd2),
                BinaryCTLOperator::EU => until_fixpoint(mc, PreImageKind::Weak, &bdd1, bdd2),
            }
        },
        CTLFormula::Leaf(_) => {
            proof {
                assert(formula_leaves(*phi).contains(*phi));
                let e = choose|e: int|
                    0 <= e < old(sub_formulae_memoizer)@.len() && *(#[trigger] old(
                        sub_formulae_memoizer,
                    )@[e]).0 == *phi;
                assert(*sub_formulae_memoizer@[e].0 != *phi);
                assert(false);
            }
            vstd::pervasive::unreached()
        },
    };
    let ghost mid = sub_formulae_memoizer@;
    let entry_bdd = bdd_clone(&phi_bdd);
    proof {
        assert(bdd_state_set(entry_bdd, n) =~= bdd_state_set(phi_bdd, n));
    }
    sub_formulae_memoizer.push((phi, entry_bdd));
    proof {
        assert forall|e: int| 0 <= e < sub_formulae_memoizer@.len() implies state_set_bdd(
            (#[trigger] sub_formulae_memoizer@[e]).1,
            n,
        ) && bdd_state_set(sub_formulae_memoizer@[e].1, n) == sat_spec(
            &kripke,
            sub_formulae_memoizer@[e].0,
        ) by {
            if e < mid.len() {
                assert(sub_formulae_memoizer@[e] == mid[e]);
                assert(state_set_bdd(mid[e].1, n));
            } else {
                assert(sub_formulae_memoizer@[e] == (phi, entry_bdd));
            }
        }
    }
    phi_bdd
}

/// Returns the set of state indices at which the formula holds: encodes the
/// structure symbolically, pre-seeds the memo at the leaves, evaluates the
/// formula recursively, and decodes the resulting BDD state by state.
pub fn get_sat_set<DOAP, AP: AtomicProposition<DOAP> + ValueEq>(
    kripke: &KripkeStructure<DOAP>,
    formula: &CTLFormula<AP>,
) -> (r: HashSet<usize>)
    requires
        kripke.wf(),
    ensures
        forall|i: usize|
            #[trigger] r@.contains(i) <==> sat_spec(kripke, formula).contains(i as int),
{
    let ghost n = kripke.n();
    let mc = KripkeStructureBddRepresentation::from_kripke_structure(kripke);
    let (atoms, true_formula, false_formula) = formula.collect_leaves();
    let ghost atoms_view = atoms@;
    let (mut sub_formulae_memoizer, true_bdd) = initialize_memoizer_at_leaves(
        kripke,
        &mc,
        atoms,
        true_formula,
        false_formula,
    );
    proof {
        crate::ctl::lemma_formula_leaves_are_leaves(*formula);
        assert forall|l: CTLFormula<AP>|
            #[trigger] formula_leaves(*formula).contains(l) implies memo_covers(
            sub_formulae_memoizer@,
            l,
        ) by {
            match l {
                CTLFormula::Leaf(leaf) => match leaf {
                    CTLFormulaLeaf::True => {
                        assert(true_formula is Some);
                    },
                    CTLFormulaLeaf::False => {
                        assert(false_formula is Some);
                    },
                    CTLFormulaLeaf::AtomicProp(_) => {
                        let e = choose|e: int|
                            0 <= e < atoms_view.len() && *(#[trigger] atoms_view[e]) == l;
                        assert(memo_covers(sub_formulae_memoizer@, *atoms_view[e]));
                    },
                },
                _ => {
                    assert(false);
                },
            }
        }
    }
    let sat_set_bdd = get_ctl_subformula_sat_set_rec(
        Ghost(*kripke),
        &mc,
        &true_bdd,
        &mut sub_formulae_memoizer,
        formula,
    );
    let ghost sat = sat_spec(kripke, formula);
    let mut states: HashSet<usize> = HashSet::new();
    let num_states = kripke.states.len();
    let mut st_id: usize = 0;
    while st_id < num_states
        invariant
            kripke.wf(),
            n == kripke.n(),
            mc.inv(),
            mc.n() == n,
            num_states == kripke.states@.len(),
            0 <= st_id <= num_states,
            state_set_bdd(sat_set_bdd, n),
            bdd_state_set(sat_set_bdd, n) == sat,
            sat == sat_spec(kripke, formula),
            forall|i: usize|
                #[trigger] states@.contains(i) <==> ((i as int) < st_id as int && sat.contains(
                    i as int,
                )),
        decreases num_states - st_id,
    {
        let bdd_with_only_that_state = mc.get_state_formula(st_id);
        let conj = bdd_and(&sat_set_bdd, &bdd_with_only_that_state);
        let ghost old_states = states@;
        if !bdd_is_false(&conj) {
            states.insert(st_id);
        }
        proof {
            let sa = state_assignment(n, st_id as int);
            assert(first_is_state(sa, n, st_id as int)) by {
                assert(forall|k: int| 0 <= k < n ==> sa[k] == (k == st_id as int));
            }
            if sat.contains(st_id as int) {
                assert(bdd_models(sat_set_bdd).contains(sa));
                assert(bdd_models(conj).contains(sa));
                assert(bdd_models(conj) != Set::<Seq<bool>>::empty()) by {
                    assert(!Set::<Seq<bool>>::empty().contains(sa));
                }
            } else {
                if bdd_models(conj) != Set::<Seq<bool>>::empty() {
                    assert(exists|w: Seq<bool>| bdd_models(conj).contains(w)) by {
                        assert(!(bdd_models(conj) =~= Set::<Seq<bool>>::empty()));
                    }
                    let w = choose|w: Seq<bool>| bdd_models(conj).contains(w);
                    assert(bdd_models(bdd_with_only_that_state).contains(w));
                    assert(first_is_state(w, n, st_id as int));
                    assert(first_agree(w, sa, n)) by {
                        assert(forall|k: int| 0 <= k < n ==> w[k] == (k == st_id as int));
                    }
                    assert(bdd_models(sat_set_bdd).contains(sa));
                    assert(false);
                }
            }
        }
        st_id += 1;
    }
    proof {
        lemma_sat_spec_in_range(kripke, formula);
        assert forall|i: usize| #[trigger] states@.contains(i) <==> sat.contains(i as int) by {
            if sat.contains(i as int) {
                assert(full_set(n).contains(i as int));
            }
        }
    }
    states
}

/// Decides whether the formula holds at every state of the given initial
/// set: builds the initial-state BDD and tests whether it implies the
/// satisfaction-set BDD.
pub fn is_ctl_formula_sat<DOAP, AP: AtomicProposition<DOAP> + ValueEq>(
    kripke: &KripkeStructure<DOAP>,
    initial_states: &HashSet<usize>,
    formula: &CTLFormula<AP>,
) -> (r: bool)
    requires
        kripke.wf(),
        forall|i: usize| #[trigger] initial_states@.contains(i) ==> (i as int) < kripke.n(),
    ensures
        r <==> (forall|i: usize|
            #[trigger] initial_states@.contains(i) ==> sat_spec(kripke, formula).contains(
                i as int,
            )),
{
    let ghost n = kripke.n();
    let mc = KripkeStructureBddRepresentation::from_kripke_structure(kripke);
    let (atoms, true_formula, false_formula) = formula.collect_leaves();
    let ghost atoms_view = atoms@;
    let (mut sub_formulae_memoizer, true_bdd) = initialize_memoizer_at_leaves(
        kripke,
        &mc,
        atoms,
        true_formula,
        false_formula,
    );
    proof {
        crate::ctl::lemma_formula_leaves_are_leaves(*formula);
        assert forall|l: CTLFormula<AP>|
            #[trigger] formula_leaves(*formula).contains(l) implies memo_covers(
            sub_formulae_memoizer@,
            l,
        ) by {
            match l {
                CTLFormula::Leaf(leaf) => match leaf {
                    CTLFormulaLeaf::True => {
                        assert(true_formula is Some);
                    },
                    CTLFormulaLeaf::False => {
                        assert(false_formula is Some);
                    },
                    CTLFormulaLeaf::AtomicProp(_) => {
                        let e = choose|e: int|
                            0 <= e < atoms_view.len() && *(#[trigger] atoms_view[e]) == l;
                        assert(memo_covers(sub_formulae_memoizer@, *atoms_view[e]));
                    },
                },
                _ => {
                    assert(false);
                },
            }
        }
    }
    let sat_set_bdd = get_ctl_subformula_sat_set_rec(
        Ghost(*kripke),
        &mc,
        &true_bdd,
        &mut sub_formulae_memoizer,
        formula,
    );
    let ghost sat = sat_spec(kripke, formula);
    let ghost chosen = Set::new(|i: int| 0 <= i < n && initial_states@.contains(i as usize));
    let initial_states_bdd = mc.get_states_set_formula(initial_states);
    let implication = bdd_imp(&initial_states_bdd, &sat_set_bdd);
    let result = bdd_is_true(&implication);
    proof {
        if result {
            assert forall|i: usize| #[trigger] initial_states@.contains(i) implies sat.contains(
                i as int,
            ) by {
                let sa = state_assignment(n, i as int);
                assert(first_is_state(sa, n, i as int)) by {
                    assert(forall|k: int| 0 <= k < n ==> sa[k] == (k == i as int));
                }
                assert(chosen.contains(i as int));
                assert(states_set_models(n, chosen).contains(sa));
                assert(assignments(2 * n).contains(sa));
                assert(bdd_models(implication).contains(sa));
                assert(bdd_models(sat_set_bdd).contains(sa));
            }
        } else {
            assert(!(bdd_models(implication) =~= assignments(2 * n)));
            let a = choose|a: Seq<bool>|
                !(bdd_models(implication).contains(a) <==> assignments(2 * n).contains(a));
            assert(a.len() == 2 * n && !bdd_models(implication).contains(a));
            assert(bdd_models(initial_states_bdd).contains(a) && !bdd_models(
                sat_set_bdd,
            ).contains(a));
            let i = choose|i: int|
                #[trigger] chosen.contains(i) && 0 <= i < n && first_is_state(a, n, i);
            let sa = state_assignment(n, i);
            if bdd_models(sat_set_bdd).contains(sa) {
                assert(first_agree(sa, a, n)) by {
                    assert(forall|k: int| 0 <= k < n ==> sa[k] == (k == i) && a[k] == (k == i));
                }
                assert(bdd_models(sat_set_bdd).contains(a));
                assert(false);
            }
            assert(!sat.contains(i));
            assert(initial_states@.contains(i as usize) && !sat.contains((i as usize) as int));
        }
    }
    result
}

} // verus!
