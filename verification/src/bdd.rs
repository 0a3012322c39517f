use vstd::prelude::*;

use biodivine_lib_bdd::{Bdd, BddVariable, BddVariableSet};

use crate::kripke::KripkeStructure;
use crate::semantics::{pre_image_set, PreImageKind};

verus! {

broadcast use vstd::std_specs::hash::group_hash_axioms;

#[verifier::external_type_specification]
#[verifier::external_body]
pub struct ExBdd(Bdd);

#[verifier::external_type_specification]
#[verifier::external_body]
pub struct ExBddVariableSet(BddVariableSet);

/// The set of satisfying assignments of a BDD: the Boolean functions that the
/// outside library manipulates, seen as sets of bit vectors. Each assignment
/// gives a value to every variable of the BDD's variable set, in order.
pub uninterp spec fn bdd_models(b: Bdd) -> Set<Seq<bool>>;

/// The number of variables of the variable set that a BDD was built over.
pub uninterp spec fn bdd_num_vars(b: Bdd) -> nat;

/// Whether a BDD is reduced and ordered. The outside library documents that
/// all its constructors and operations produce such BDDs, and that for them
/// structural equality coincides with semantic equivalence.
pub uninterp spec fn bdd_canonical(b: Bdd) -> bool;

/// The number of variables of a variable set.
pub uninterp spec fn var_set_num_vars(vs: BddVariableSet) -> nat;

/// All assignments to `n` variables.
pub open spec fn assignments(n: nat) -> Set<Seq<bool>> {
    Set::new(|a: Seq<bool>| a.len() == n)
}

/// Whether two assignments agree on every variable outside `[lo, hi)`.
pub open spec fn agrees_outside(a: Seq<bool>, m: Seq<bool>, lo: int, hi: int) -> bool {
    forall|k: int| 0 <= k < a.len() && !(lo <= k < hi) ==> a[k] == m[k]
}

/// Relies on `BddVariableSet::new_anonymous`: a set of `n` anonymous Boolean
/// variables.
#[verifier::external_body]
pub(crate) fn mk_var_set(n: u16) -> (r: BddVariableSet)
    requires
        n < 65534,
    ensures
        var_set_num_vars(r) == n as nat,
{
    BddVariableSet::new_anonymous(n)
}

/// Relies on `BddVariableSet::mk_true`: the BDD of the constant-true formula,
/// satisfied by every assignment.
#[verifier::external_body]
pub(crate) fn bdd_mk_true(vs: &BddVariableSet) -> (r: Bdd)
    ensures
        bdd_canonical(r),
        bdd_num_vars(r) == var_set_num_vars(*vs),
        bdd_models(r) == assignments(var_set_num_vars(*vs)),
{
    vs.mk_true()
}

/// Relies on `BddVariableSet::mk_false`: the BDD of the constant-false
/// formula, satisfied by no assignment.
#[verifier::external_body]
pub(crate) fn bdd_mk_false(vs: &BddVariableSet) -> (r: Bdd)
    ensures
        bdd_canonical(r),
        bdd_num_vars(r) == var_set_num_vars(*vs),
        bdd_models(r) == Set::<Seq<bool>>::empty(),
{
    vs.mk_false()
}

/// Relies on `BddVariableSet::mk_var`, with the variable handle obtained
/// through `BddVariable::from_index`: the BDD of the formula consisting of
/// the single positive literal `v_i`, satisfied exactly by the assignments
/// that set variable `i`.
#[verifier::external_body]
pub(crate) fn bdd_mk_var(vs: &BddVariableSet, i: usize) -> (r: Bdd)
    requires
        i < var_set_num_vars(*vs),
    ensures
        bdd_canonical(r),
        bdd_num_vars(r) == var_set_num_vars(*vs),
        bdd_models(r) == Set::new(
            |a: Seq<bool>| a.len() == var_set_num_vars(*vs) && a[i as int],
        ),
{
    vs.mk_var(BddVariable::from_index(i))
}

/// Relies on `Bdd::not`: Boolean negation, whose satisfying assignments are
/// the complement of the operand's.
#[verifier::external_body]
pub(crate) fn bdd_not(b: &Bdd) -> (r: Bdd)
    requires
        bdd_canonical(*b),
    ensures
        bdd_canonical(r),
        bdd_num_vars(r) == bdd_num_vars(*b),
        bdd_models(r) == assignments(bdd_num_vars(*b)).difference(bdd_models(*b)),
{
    b.not()
}

/// Relies on `Bdd::and`: Boolean conjunction, whose satisfying assignments
/// are the intersection of the operands'.
#[verifier::external_body]
pub(crate) fn bdd_and(a: &Bdd, b: &Bdd) -> (r: Bdd)
    requires
        bdd_canonical(*a),
        bdd_canonical(*b),
        bdd_num_vars(*a) == bdd_num_vars(*b),
    ensures
        bdd_canonical(r),
        bdd_num_vars(r) == bdd_num_vars(*a),
        bdd_models(r) == bdd_models(*a).intersect(bdd_models(*b)),
{
    a.and(b)
}

/// Relies on `Bdd::or`: Boolean disjunction, whose satisfying assignments are
/// the union of the operands'.
#[verifier::external_body]
pub(crate) fn bdd_or(a: &Bdd, b: &Bdd) -> (r: Bdd)
    requires
        bdd_canonical(*a),
        bdd_canonical(*b),
        bdd_num_vars(*a) == bdd_num_vars(*b),
    ensures
        bdd_canonical(r),
        bdd_num_vars(r) == bdd_num_vars(*a),
        bdd_models(r) == bdd_models(*a).union(bdd_models(*b)),
{
    a.or(b)
}

/// Relies on `Bdd::imp`: Boolean implication; an assignment satisfies it iff
/// satisfying the left operand implies satisfying the right one.
#[verifier::external_body]
pub(crate) fn bdd_imp(a: &Bdd, b: &Bdd) -> (r: Bdd)
    requires
        bdd_canonical(*a),
        bdd_canonical(*b),
        bdd_num_vars(*a) == bdd_num_vars(*b),
    ensures
        bdd_canonical(r),
        bdd_num_vars(r) == bdd_num_vars(*a),
        bdd_models(r) == Set::new(
            |m: Seq<bool>|
                m.len() == bdd_num_vars(*a) && (bdd_models(*a).contains(m) ==> bdd_models(
                    *b,
                ).contains(m)),
        ),
{
    a.imp(b)
}

/// Relies on `Bdd::iff`: Boolean equivalence; an assignment satisfies it iff
/// it satisfies both operands or neither.
#[verifier::external_body]
pub(crate) fn bdd_iff(a: &Bdd, b: &Bdd) -> (r: Bdd)
    requires
        bdd_canonical(*a),
        bdd_canonical(*b),
        bdd_num_vars(*a) == bdd_num_vars(*b),
    ensures
        bdd_canonical(r),
        bdd_num_vars(r) == bdd_num_vars(*a),
        bdd_models(r) == Set::new(
            |m: Seq<bool>|
                m.len() == bdd_num_vars(*a) && (bdd_models(*a).contains(m) <==> bdd_models(
                    *b,
                ).contains(m)),
        ),
{
    a.iff(b)
}

/// Relies on `Bdd::exists`, with the variable handles obtained through
/// `BddVariableSet::variables`: existential quantification over the
/// variables `[lo, hi)` of the BDD's variable set. An assignment satisfies the result
/// iff some assignment agreeing with it outside `[lo, hi)` satisfies the
/// operand.
#[verifier::external_body]
pub(crate) fn bdd_exists_range(b: &Bdd, vs: &BddVariableSet, lo: usize, hi: usize) -> (r: Bdd)
    requires
        bdd_canonical(*b),
        bdd_num_vars(*b) == var_set_num_vars(*vs),
        lo <= hi,
        hi <= var_set_num_vars(*vs),
    ensures
        bdd_canonical(r),
        bdd_num_vars(r) == bdd_num_vars(*b),
        bdd_models(r) == Set::new(
            |a: Seq<bool>|
                a.len() == bdd_num_vars(*b) && exists|m: Seq<bool>|
                    #[trigger] bdd_models(*b).contains(m) && m.len() == bdd_num_vars(*b)
                        && agrees_outside(a, m, lo as int, hi as int),
        ),
{
    let vars = vs.variables();
    b.exists(&vars[lo..hi])
}

/// Relies on `Bdd::for_all`, with the variable handles obtained through
/// `BddVariableSet::variables`: universal quantification over the
/// variables `[lo, hi)` of the BDD's variable set. An assignment satisfies the result
/// iff every assignment agreeing with it outside `[lo, hi)` satisfies the
/// operand.
#[verifier::external_body]
pub(crate) fn bdd_forall_range(b: &Bdd, vs: &BddVariableSet, lo: usize, hi: usize) -> (r: Bdd)
    requires
        bdd_canonical(*b),
        bdd_num_vars(*b) == var_set_num_vars(*vs),
        lo <= hi,
        hi <= var_set_num_vars(*vs),
    ensures
        bdd_canonical(r),
        bdd_num_vars(r) == bdd_num_vars(*b),
        bdd_models(r) == Set::new(
            |a: Seq<bool>|
                a.len() == bdd_num_vars(*b) && forall|m: Seq<bool>|
                    m.len() == bdd_num_vars(*b) && agrees_outside(a, m, lo as int, hi as int)
                        ==> #[trigger] bdd_models(*b).contains(m),
        ),
{
    let vars = vs.variables();
    b.for_all(&vars[lo..hi])
}

/// Relies on the structural equality of `Bdd` and on the library's canonical
/// (reduced, ordered) representation: two canonical BDDs over the same
/// variable set are structurally equal iff they have the same satisfying
/// assignments.
#[verifier::external_body]
pub(crate) fn bdd_eq(a: &Bdd, b: &Bdd) -> (r: bool)
    requires
        bdd_canonical(*a),
        bdd_canonical(*b),
        bdd_num_vars(*a) == bdd_num_vars(*b),
    ensures
        r <==> bdd_models(*a) == bdd_models(*b),
{
    a == b
}

/// Relies on `Bdd::is_false` and on canonicity: a canonical BDD is the false
/// constant iff it has no satisfying assignment.
#[verifier::external_body]
pub(crate) fn bdd_is_false(b: &Bdd) -> (r: bool)
    requires
        bdd_canonical(*b),
    ensures
        r <==> bdd_models(*b) == Set::<Seq<bool>>::empty(),
{
    b.is_false()
}

/// Relies on `Bdd::is_true` and on canonicity: a canonical BDD is the true
/// constant iff every assignment satisfies it.
#[verifier::external_body]
pub(crate) fn bdd_is_true(b: &Bdd) -> (r: bool)
    requires
        bdd_canonical(*b),
    ensures
        r <==> bdd_models(*b) == assignments(bdd_num_vars(*b)),
{
    b.is_true()
}

/// Relies on the derived `Clone` of `Bdd`: the copy represents the same
/// Boolean function.
#[verifier::external_body]
pub(crate) fn bdd_clone(b: &Bdd) -> (r: Bdd)
    ensures
        bdd_canonical(r) == bdd_canonical(*b),
        bdd_num_vars(r) == bdd_num_vars(*b),
        bdd_models(r) == bdd_models(*b),
{
    b.clone()
}

/// Whether the first `n` positions of `a` are exactly the one-hot pattern of
/// state `i`.
pub open spec fn first_is_state(a: Seq<bool>, n: nat, i: int) -> bool {
    forall|k: int| 0 <= k < n ==> a[k] == (k == i)
}

/// Whether two assignments agree on the first `n` positions, the
/// current-state variables.
pub open spec fn first_agree(a: Seq<bool>, m: Seq<bool>, n: nat) -> bool {
    forall|k: int| 0 <= k < n ==> a[k] == m[k]
}

/// The assignment over `2n` variables that sets exactly the current-state
/// variable of state `i`.
pub open spec fn state_assignment(n: nat, i: int) -> Seq<bool> {
    Seq::new(2 * n, |k: int| k == i)
}

/// The assignment over `2n` variables that sets exactly the current-state
/// variable of state `i` and the next-state variable of state `j`.
pub open spec fn pair_assignment(n: nat, i: int, j: int) -> Seq<bool> {
    Seq::new(2 * n, |k: int| k == i || k == n + j)
}

/// The satisfying assignments of the transition-relation BDD: one strict
/// one-hot pair per transition.
pub open spec fn trans_models(n: nat, t: Set<(int, int)>) -> Set<Seq<bool>> {
    Set::new(
        |a: Seq<bool>|
            exists|p: (int, int)| #[trigger] t.contains(p) && a == pair_assignment(n, p.0, p.1),
    )
}

/// The satisfying assignments of the rename relation: each current-state
/// variable equal to its paired next-state variable.
pub open spec fn rename_models(n: nat) -> Set<Seq<bool>> {
    Set::new(
        |a: Seq<bool>|
            a.len() == 2 * n && forall|k: int| 0 <= k < n ==> a[k] == #[trigger] a[n + k],
    )
}

/// The satisfying assignments of the strict state formula of state `i` over
/// the current-state variables.
pub open spec fn state_models(n: nat, i: int) -> Set<Seq<bool>> {
    Set::new(|a: Seq<bool>| a.len() == 2 * n && first_is_state(a, n, i))
}

/// The satisfying assignments of the disjunction of the strict state formulas
/// of the states in `s`.
pub open spec fn states_set_models(n: nat, s: Set<int>) -> Set<Seq<bool>> {
    Set::new(
        |a: Seq<bool>|
            a.len() == 2 * n && exists|i: int|
                #[trigger] s.contains(i) && 0 <= i < n && first_is_state(a, n, i),
    )
}

/// Whether a BDD represents a set of states of an `n`-state structure: it is
/// canonical, built over the `2n` state variables, and whether an assignment
/// satisfies it depends only on the current-state variables.
pub open spec fn state_set_bdd(b: Bdd, n: nat) -> bool {
    &&& bdd_canonical(b)
    &&& bdd_num_vars(b) == 2 * n
    &&& forall|a: Seq<bool>| #[trigger] bdd_models(b).contains(a) ==> a.len() == 2 * n
    &&& forall|a: Seq<bool>, m: Seq<bool>|
        #[trigger] bdd_models(b).contains(a) && m.len() == 2 * n && first_agree(a, m, n)
            ==> #[trigger] bdd_models(b).contains(m)
}

/// The set of states that a state-set BDD represents.
pub open spec fn bdd_state_set(b: Bdd, n: nat) -> Set<int> {
    Set::new(|i: int| 0 <= i < n && bdd_models(b).contains(state_assignment(n, i)))
}

/// The exact satisfying assignments of the BDD that the pre-image engine
/// produces for a state set `s`.
pub open spec fn preimage_models(
    kind: PreImageKind,
    n: nat,
    t: Set<(int, int)>,
    s: Set<int>,
) -> Set<Seq<bool>> {
    match kind {
        PreImageKind::Weak => Set::new(
            |a: Seq<bool>|
                a.len() == 2 * n && exists|i: int|
                    0 <= i < n && #[trigger] first_is_state(a, n, i) && pre_image_set(
                        PreImageKind::Weak,
                        n,
                        t,
                        s,
                    ).contains(i),
        ),
        PreImageKind::Strong => Set::new(
            |a: Seq<bool>|
                a.len() == 2 * n && forall|i: int|
                    0 <= i < n && #[trigger] first_is_state(a, n, i) ==> pre_image_set(
                        PreImageKind::Strong,
                        n,
                        t,
                        s,
                    ).contains(i),
        ),
    }
}

/// The satisfying assignments of the partially built strict one-hot formula:
/// the first `m` states pinned on the chosen side.
pub open spec fn strict_prefix_models(n: nat, is_next: bool, sel: int, m: int) -> Set<Seq<bool>> {
    Set::new(
        |a: Seq<bool>|
            a.len() == 2 * n && forall|st: int|
                0 <= st < m ==> a[#[trigger] side_index(n, is_next, st)] == (st == sel),
    )
}

/// The position of state `st`'s variable on the chosen side: current-state
/// variables come first, next-state variables follow.
pub open spec fn side_index(n: nat, is_next: bool, st: int) -> int {
    if is_next {
        n + st
    } else {
        st
    }
}

/// The transitions recorded after the first `ti` out-edges of state `oi` and
/// every out-edge of the states before it have been processed.
pub open spec fn pairs_seen<DOAP>(k: &KripkeStructure<DOAP>, oi: int, ti: int) -> Set<(int, int)> {
    Set::new(
        |p: (int, int)|
            k.has_transition(p.0, p.1) && (p.0 < oi || (p.0 == oi && exists|e: int|
                0 <= e < ti && (
                #[trigger] k.states@[p.0].outgoing_transitions_targets@[e]) as int == p.1)),
    )
}

/// The satisfying assignments of the partially built rename relation: the
/// first `m` current-state variables tied to their next-state partners.
pub open spec fn rename_prefix_models(n: nat, m: int) -> Set<Seq<bool>> {
    Set::new(
        |a: Seq<bool>|
            a.len() == 2 * n && forall|k: int| 0 <= k < m ==> a[k] == #[trigger] a[n + k],
    )
}

/// The assignment whose current-state half copies `a`'s next-state half, and
/// whose next-state half is kept: the renaming that the relational product
/// performs.
pub open spec fn duplicate_next(a: Seq<bool>, n: nat) -> Seq<bool> {
    Seq::new(
        2 * n,
        |k: int|
            if k < n {
                a[n + k]
            } else {
                a[k]
            },
    )
}

/// Renaming a strict one-hot pair duplicates its next-state half.
pub proof fn lemma_duplicate_pair(n: nat, i: int, j: int)
    requires
        0 <= i < n,
        0 <= j < n,
    ensures
        duplicate_next(pair_assignment(n, i, j), n) == pair_assignment(n, j, j),
{
    let a = pair_assignment(n, i, j);
    assert forall|k: int| 0 <= k < 2 * n implies duplicate_next(a, n)[k] == pair_assignment(
        n,
        j,
        j,
    )[k] by {
        if k < n {
            assert(a[n + k] == (n + k == i || n + k == n + j));
        } else {
            assert(a[k] == (k == i || k == n + j));
        }
    }
    assert(duplicate_next(a, n) =~= pair_assignment(n, j, j));
}

/// A state-set BDD contains the duplicated one-hot pair of state `j` iff it
/// contains `j`: both assignments share the current-state half.
pub proof fn lemma_pair_member(b: Bdd, n: nat, j: int)
    requires
        state_set_bdd(b, n),
        0 <= j < n,
    ensures
        bdd_models(b).contains(pair_assignment(n, j, j)) <==> bdd_state_set(b, n).contains(j),
{
    let pa = pair_assignment(n, j, j);
    let sa = state_assignment(n, j);
    assert(first_agree(pa, sa, n) && first_agree(sa, pa, n)) by {
        assert(forall|k: int| 0 <= k < n ==> pa[k] == ((k == j) || (k == n + j)));
    }
    if bdd_models(b).contains(pa) {
        assert(bdd_models(b).contains(sa));
    }
    if bdd_models(b).contains(sa) {
        assert(bdd_models(b).contains(pa));
    }
}

/// The satisfying assignments of a loose state-set encoding: a disjunction
/// of single positive current-state literals, one per state of the set.
pub open spec fn loose_models(n: nat, s: Set<int>) -> Set<Seq<bool>> {
    Set::new(
        |a: Seq<bool>|
            a.len() == 2 * n && exists|i: int| #[trigger] s.contains(i) && 0 <= i < n && a[i],
    )
}

/// A canonical BDD with loose models over in-range states is a state-set BDD
/// representing exactly that set of states.
pub proof fn lemma_loose_state_set(b: Bdd, n: nat, s: Set<int>)
    requires
        bdd_canonical(b),
        bdd_num_vars(b) == 2 * n,
        bdd_models(b) == loose_models(n, s),
        forall|i: int| #[trigger] s.contains(i) ==> 0 <= i < n,
    ensures
        state_set_bdd(b, n),
        bdd_state_set(b, n) == s,
{
    assert forall|a: Seq<bool>, m: Seq<bool>|
        #[trigger] bdd_models(b).contains(a) && m.len() == 2 * n && first_agree(
            a,
            m,
            n,
        ) implies #[trigger] bdd_models(b).contains(m) by {
        let i = choose|i: int| #[trigger] s.contains(i) && 0 <= i < n && a[i];
        assert(m[i] == a[i]);
        assert(loose_models(n, s).contains(m));
    }
    assert forall|i: int| bdd_state_set(b, n).contains(i) <==> s.contains(i) by {
        if 0 <= i < n {
            let sa = state_assignment(n, i);
            if bdd_models(b).contains(sa) {
                let i2 = choose|i2: int| #[trigger] s.contains(i2) && 0 <= i2 < n && sa[i2];
                assert(sa[i2] == (i2 == i));
            }
            if s.contains(i) {
                assert(sa[i]);
                assert(loose_models(n, s).contains(sa));
            }
        }
    }
    assert(bdd_state_set(b, n) =~= s);
}

/// The disjunction of two state-set BDDs represents the union of their sets.
pub proof fn lemma_or_state_set(a: Bdd, b: Bdd, r: Bdd, n: nat)
    requires
        state_set_bdd(a, n),
        state_set_bdd(b, n),
        bdd_canonical(r),
        bdd_num_vars(r) == 2 * n,
        bdd_models(r) == bdd_models(a).union(bdd_models(b)),
    ensures
        state_set_bdd(r, n),
        bdd_state_set(r, n) == bdd_state_set(a, n).union(bdd_state_set(b, n)),
{
    assert forall|x: Seq<bool>, m: Seq<bool>|
        #[trigger] bdd_models(r).contains(x) && m.len() == 2 * n && first_agree(
            x,
            m,
            n,
        ) implies #[trigger] bdd_models(r).contains(m) by {
        if bdd_models(a).contains(x) {
            assert(bdd_models(a).contains(m));
        } else {
            assert(bdd_models(b).contains(m));
        }
    }
    assert(bdd_state_set(r, n) =~= bdd_state_set(a, n).union(bdd_state_set(b, n)));
}

/// The conjunction of two state-set BDDs represents the intersection of
/// their sets.
pub proof fn lemma_and_state_set(a: Bdd, b: Bdd, r: Bdd, n: nat)
    requires
        state_set_bdd(a, n),
        state_set_bdd(b, n),
        bdd_canonical(r),
        bdd_num_vars(r) == 2 * n,
        bdd_models(r) == bdd_models(a).intersect(bdd_models(b)),
    ensures
        state_set_bdd(r, n),
        bdd_state_set(r, n) == bdd_state_set(a, n).intersect(bdd_state_set(b, n)),
{
    assert forall|x: Seq<bool>, m: Seq<bool>|
        #[trigger] bdd_models(r).contains(x) && m.len() == 2 * n && first_agree(
            x,
            m,
            n,
        ) implies #[trigger] bdd_models(r).contains(m) by {
        assert(bdd_models(a).contains(m));
        assert(bdd_models(b).contains(m));
    }
    assert(bdd_state_set(r, n) =~= bdd_state_set(a, n).intersect(bdd_state_set(b, n)));
}

/// The negation of a state-set BDD represents the complement of its set.
pub proof fn lemma_not_state_set(a: Bdd, r: Bdd, n: nat)
    requires
        state_set_bdd(a, n),
        bdd_canonical(r),
        bdd_num_vars(r) == 2 * n,
        bdd_models(r) == assignments(2 * n).difference(bdd_models(a)),
    ensures
        state_set_bdd(r, n),
        bdd_state_set(r, n) == crate::semantics::full_set(n).difference(bdd_state_set(a, n)),
{
    assert forall|x: Seq<bool>, m: Seq<bool>|
        #[trigger] bdd_models(r).contains(x) && m.len() == 2 * n && first_agree(
            x,
            m,
            n,
        ) implies #[trigger] bdd_models(r).contains(m) by {
        if bdd_models(a).contains(m) {
            assert(first_agree(m, x, n));
            assert(bdd_models(a).contains(x));
        }
    }
    assert(bdd_state_set(r, n) =~= crate::semantics::full_set(n).difference(
        bdd_state_set(a, n),
    ));
}

/// The implication of two state-set BDDs represents pointwise implication of
/// their sets.
pub proof fn lemma_imp_state_set(a: Bdd, b: Bdd, r: Bdd, n: nat)
    requires
        state_set_bdd(a, n),
        state_set_bdd(b, n),
        bdd_canonical(r),
        bdd_num_vars(r) == 2 * n,
        bdd_models(r) == Set::new(
            |m: Seq<bool>|
                m.len() == 2 * n && (bdd_models(a).contains(m) ==> bdd_models(b).contains(m)),
        ),
    ensures
        state_set_bdd(r, n),
        bdd_state_set(r, n) == Set::new(
            |i: int|
                0 <= i < n && (bdd_state_set(a, n).contains(i) ==> bdd_state_set(b, n).contains(
                    i,
                )),
        ),
{
    assert forall|x: Seq<bool>, m: Seq<bool>|
        #[trigger] bdd_models(r).contains(x) && m.len() == 2 * n && first_agree(
            x,
            m,
            n,
        ) implies #[trigger] bdd_models(r).contains(m) by {
        if bdd_models(a).contains(m) {
            assert(first_agree(m, x, n));
            assert(bdd_models(a).contains(x));
            assert(bdd_models(b).contains(x));
            assert(first_agree(x, m, n));
            assert(bdd_models(b).contains(m));
        }
    }
    assert(bdd_state_set(r, n) =~= Set::new(
        |i: int|
            0 <= i < n && (bdd_state_set(a, n).contains(i) ==> bdd_state_set(b, n).contains(i)),
    ));
}

/// The biconditional of two state-set BDDs represents pointwise equivalence
/// of their sets.
pub proof fn lemma_iff_state_set(a: Bdd, b: Bdd, r: Bdd, n: nat)
    requires
        state_set_bdd(a, n),
        state_set_bdd(b, n),
        bdd_canonical(r),
        bdd_num_vars(r) == 2 * n,
        bdd_models(r) == Set::new(
            |m: Seq<bool>|
                m.len() == 2 * n && (bdd_models(a).contains(m) <==> bdd_models(b).contains(m)),
        ),
    ensures
        state_set_bdd(r, n),
        bdd_state_set(r, n) == Set::new(
            |i: int|
                0 <= i < n && (bdd_state_set(a, n).contains(i) <==> bdd_state_set(b, n).contains(
                    i,
                )),
        ),
{
    assert forall|x: Seq<bool>, m: Seq<bool>|
        #[trigger] bdd_models(r).contains(x) && m.len() == 2 * n && first_agree(
            x,
            m,
            n,
        ) implies #[trigger] bdd_models(r).contains(m) by {
        assert(first_agree(m, x, n));
        if bdd_models(a).contains(m) {
            assert(bdd_models(a).contains(x));
            assert(bdd_models(b).contains(x));
            assert(bdd_models(b).contains(m));
        } else {
            if bdd_models(b).contains(m) {
                assert(bdd_models(b).contains(x));
                assert(bdd_models(a).contains(x));
                assert(bdd_models(a).contains(m));
            }
        }
    }
    assert(bdd_state_set(r, n) =~= Set::new(
        |i: int|
            0 <= i < n && (bdd_state_set(a, n).contains(i) <==> bdd_state_set(b, n).contains(i)),
    ));
}

/// A BDD whose satisfying assignments are the pre-image models of a state
/// set is a state-set BDD, and it represents exactly the pre-image.
pub proof fn lemma_preimage_state_set(
    r: Bdd,
    kind: PreImageKind,
    n: nat,
    t: Set<(int, int)>,
    s: Set<int>,
)
    requires
        bdd_canonical(r),
        bdd_num_vars(r) == 2 * n,
        bdd_models(r) == preimage_models(kind, n, t, s),
    ensures
        state_set_bdd(r, n),
        bdd_state_set(r, n) == pre_image_set(kind, n, t, s),
{
    assert forall|a: Seq<bool>, m: Seq<bool>|
        #[trigger] bdd_models(r).contains(a) && m.len() == 2 * n && first_agree(
            a,
            m,
            n,
        ) implies #[trigger] bdd_models(r).contains(m) by {
        match kind {
            PreImageKind::Weak => {
                let i = choose|i: int|
                    0 <= i < n && #[trigger] first_is_state(a, n, i) && pre_image_set(
                        PreImageKind::Weak,
                        n,
                        t,
                        s,
                    ).contains(i);
                assert(first_is_state(m, n, i)) by {
                    assert(forall|k: int| 0 <= k < n ==> a[k] == m[k]);
                }
                assert(preimage_models(kind, n, t, s).contains(m));
            },
            PreImageKind::Strong => {
                assert forall|i: int|
                    0 <= i < n && #[trigger] first_is_state(m, n, i) implies pre_image_set(
                    PreImageKind::Strong,
                    n,
                    t,
                    s,
                ).contains(i) by {
                    assert(first_is_state(a, n, i)) by {
                        assert(forall|k: int| 0 <= k < n ==> a[k] == m[k]);
                    }
                }
                assert(preimage_models(kind, n, t, s).contains(m));
            },
        }
    }
    assert forall|i: int| bdd_state_set(r, n).contains(i) <==> pre_image_set(
        kind,
        n,
        t,
        s,
    ).contains(i) by {
        if 0 <= i < n {
            let sa = state_assignment(n, i);
            assert(first_is_state(sa, n, i)) by {
                assert(forall|k: int| 0 <= k < n ==> sa[k] == (k == i));
            }
            match kind {
                PreImageKind::Weak => {
                    if bdd_models(r).contains(sa) {
                        let i2 = choose|i2: int|
                            0 <= i2 < n && #[trigger] first_is_state(sa, n, i2) && pre_image_set(
                                PreImageKind::Weak,
                                n,
                                t,
                                s,
                            ).contains(i2);
                        assert(sa[i] == (i == i2));
                    }
                    if pre_image_set(PreImageKind::Weak, n, t, s).contains(i) {
                        assert(preimage_models(kind, n, t, s).contains(sa));
                    }
                },
                PreImageKind::Strong => {
                    if bdd_models(r).contains(sa) {
                        assert(pre_image_set(PreImageKind::Strong, n, t, s).contains(i));
                    }
                    if pre_image_set(PreImageKind::Strong, n, t, s).contains(i) {
                        assert forall|i2: int|
                            0 <= i2 < n && #[trigger] first_is_state(
                                sa,
                                n,
                                i2,
                            ) implies pre_image_set(PreImageKind::Strong, n, t, s).contains(
                            i2,
                        ) by {
                            assert(sa[i] == (i == i2));
                        }
                        assert(preimage_models(kind, n, t, s).contains(sa));
                    }
                },
            }
        }
    }
    assert(bdd_state_set(r, n) =~= pre_image_set(kind, n, t, s));
}

/// A strict one-hot pair assignment determines its transition.
pub proof fn lemma_pair_assignment_injective(n: nat, i: int, j: int, i2: int, j2: int)
    requires
        0 <= i < n,
        0 <= j < n,
        0 <= i2 < n,
        0 <= j2 < n,
        pair_assignment(n, i, j) == pair_assignment(n, i2, j2),
    ensures
        i == i2,
        j == j2,
{
    assert(pair_assignment(n, i, j)[i]);
    assert(pair_assignment(n, i2, j2)[i] == (i == i2 || i == n + j2));
    assert(pair_assignment(n, i, j)[n + j]);
    assert(pair_assignment(n, i2, j2)[n + j] == (n + j == i2 || n + j == n + j2));
}

/// Builds the strict one-hot BDD that pins the chosen side's variables to
/// state `selected_state_id`: that state's variable positive, every other
/// state's variable negative.
pub(crate) fn get_strict_state_formula_for_transition_relation(
    is_next: bool,
    num_states: usize,
    var_set: &BddVariableSet,
    selected_state_id: usize,
) -> (r: Bdd)
    requires
        num_states < 32767,
        var_set_num_vars(*var_set) == 2 * num_states as nat,
        selected_state_id < num_states,
    ensures
        bdd_canonical(r),
        bdd_num_vars(r) == 2 * num_states as nat,
        bdd_models(r) == strict_prefix_models(
            num_states as nat,
            is_next,
            selected_state_id as int,
            num_states as int,
        ),
{
    let ghost n = num_states as nat;
    let mut formula = bdd_mk_true(var_set);
    proof {
        assert(bdd_models(formula) =~= strict_prefix_models(
            n,
            is_next,
            selected_state_id as int,
            0,
        ));
    }
    let mut st_id: usize = 0;
    while st_id < num_states
        invariant
            num_states < 32767,
            var_set_num_vars(*var_set) == 2 * n,
            n == num_states as nat,
            selected_state_id < num_states,
            0 <= st_id <= num_states,
            bdd_canonical(formula),
            bdd_num_vars(formula) == 2 * n,
            bdd_models(formula) == strict_prefix_models(
                n,
                is_next,
                selected_state_id as int,
                st_id as int,
            ),
        decreases num_states - st_id,
    {
        let var_index = if is_next {
            num_states + st_id
        } else {
            st_id
        };
        let var_bdd = bdd_mk_var(var_set, var_index);
        let state_bdd = if st_id == selected_state_id {
            var_bdd
        } else {
            bdd_not(&var_bdd)
        };
        let next_formula = bdd_and(&formula, &state_bdd);
        proof {
            let sel = selected_state_id as int;
            let old_m = st_id as int;
            assert forall|a: Seq<bool>| bdd_models(next_formula).contains(a)
                <==> strict_prefix_models(n, is_next, sel, old_m + 1).contains(a) by {
                assert(side_index(n, is_next, old_m) == var_index as int);
                if bdd_models(next_formula).contains(a) {
                    assert(strict_prefix_models(n, is_next, sel, old_m).contains(a));
                    assert forall|st: int| 0 <= st < old_m + 1 implies a[#[trigger] side_index(
                        n,
                        is_next,
                        st,
                    )] == (st == sel) by {
                        if st < old_m {
                            assert(strict_prefix_models(n, is_next, sel, old_m).contains(a));
                        } else {
                            assert(a[var_index as int] == (old_m == sel));
                        }
                    }
                }
                if strict_prefix_models(n, is_next, sel, old_m + 1).contains(a) {
                    assert(a[side_index(n, is_next, old_m)] == (old_m == sel));
                    assert(strict_prefix_models(n, is_next, sel, old_m).contains(a));
                }
            }
            assert(bdd_models(next_formula) =~= strict_prefix_models(
                n,
                is_next,
                sel,
                old_m + 1,
            ));
        }
        formula = next_formula;
        st_id += 1;
    }
    formula
}

/// The symbolic representation of a Kripke structure of `n` states: a set of
/// `2n` Boolean variables — the first `n` standing for the current state, the
/// last `n` for the next state, position-paired — together with the
/// transition-relation BDD (a disjunction of strict one-hot pairs, one per
/// transition), its cached negation, and the cached rename relation used by
/// the relational product.
pub struct KripkeStructureBddRepresentation {
    pub(crate) num_states: usize,
    pub var_set: BddVariableSet,
    pub(crate) transition_relation: Bdd,
    pub(crate) negated_transition_relation: Bdd,
    pub(crate) next_iff_current: Bdd,
}

impl KripkeStructureBddRepresentation {
    /// The number of states of the encoded structure.
    pub closed spec fn n(&self) -> nat {
        self.num_states as nat
    }

    /// The transition relation that the stored BDD encodes.
    pub closed spec fn trans(&self) -> Set<(int, int)> {
        Set::new(
            |p: (int, int)|
                0 <= p.0 < self.n() && 0 <= p.1 < self.n() && bdd_models(
                    self.transition_relation,
                ).contains(pair_assignment(self.n(), p.0, p.1)),
        )
    }

    /// The invariant of the symbolic representation: the three stored BDDs
    /// are canonical BDDs over the `2n` state variables whose satisfying
    /// assignments are exactly the one-hot transition pairs, their
    /// complement, and the rename relation.
    pub closed spec fn inv(&self) -> bool {
        &&& 1 <= self.n()
        &&& 2 * self.n() < 65534
        &&& var_set_num_vars(self.var_set) == 2 * self.n()
        &&& bdd_canonical(self.transition_relation)
        &&& bdd_num_vars(self.transition_relation) == 2 * self.n()
        &&& bdd_models(self.transition_relation) == trans_models(self.n(), self.trans())
        &&& bdd_canonical(self.negated_transition_relation)
        &&& bdd_num_vars(self.negated_transition_relation) == 2 * self.n()
        &&& bdd_models(self.negated_transition_relation) == assignments(2 * self.n()).difference(
            bdd_models(self.transition_relation),
        )
        &&& bdd_canonical(self.next_iff_current)
        &&& bdd_num_vars(self.next_iff_current) == 2 * self.n()
        &&& bdd_models(self.next_iff_current) == rename_models(self.n())
    }

    /// The invariant fixes the variable set's size: `2n` variables, two per
    /// state.
    pub(crate) proof fn lemma_inv_var_set(&self)
        requires
            self.inv(),
        ensures
            var_set_num_vars(self.var_set) == 2 * self.n(),
            1 <= self.n(),
            2 * self.n() < 65534,
            self.num_states as nat == self.n(),
    {
    }

    /// Encodes a Kripke structure symbolically: allocates the `2n` variables,
    /// accumulates the transition-relation BDD over all out-edges, and caches
    /// its negation and the rename relation.
    pub fn from_kripke_structure<DOAP>(kripke: &KripkeStructure<DOAP>) -> (r: Self)
        requires
            kripke.wf(),
        ensures
            r.inv(),
            r.n() == kripke.n(),
            r.trans() == kripke.trans_set(),
    {
        let ghost n = kripke.n();
        let num_states = kripke.states.len();
        let var_set = mk_var_set((num_states * 2) as u16);
        let mut transition_relation = bdd_mk_false(&var_set);
        proof {
            assert(bdd_models(transition_relation) =~= trans_models(n, pairs_seen(kripke, 0, 0)));
        }
        let mut origin_st_id: usize = 0;
        while origin_st_id < num_states
            invariant
                kripke.wf(),
                n == kripke.n(),
                num_states == kripke.states@.len(),
                num_states < 32767,
                var_set_num_vars(var_set) == 2 * n,
                0 <= origin_st_id <= num_states,
                bdd_canonical(transition_relation),
                bdd_num_vars(transition_relation) == 2 * n,
                bdd_models(transition_relation) == trans_models(
                    n,
                    pairs_seen(kripke, origin_st_id as int, 0),
                ),
            decreases num_states - origin_st_id,
        {
            let ghost oi = origin_st_id as int;
            let origin_st_current_formula = get_strict_state_formula_for_transition_relation(
                false,
                num_states,
                &var_set,
                origin_st_id,
            );
            let row_len = kripke.states[origin_st_id].outgoing_transitions_targets.len();
            let mut t_idx: usize = 0;
            while t_idx < row_len
                invariant
                    kripke.wf(),
                    n == kripke.n(),
                    num_states == kripke.states@.len(),
                    num_states < 32767,
                    var_set_num_vars(var_set) == 2 * n,
                    origin_st_id < num_states,
                    oi == origin_st_id as int,
                    row_len == kripke.states@[oi].outgoing_transitions_targets@.len(),
                    0 <= t_idx <= row_len,
                    bdd_canonical(origin_st_current_formula),
                    bdd_num_vars(origin_st_current_formula) == 2 * n,
                    bdd_models(origin_st_current_formula) == strict_prefix_models(
                        n,
                        false,
                        oi,
                        num_states as int,
                    ),
                    bdd_canonical(transition_relation),
                    bdd_num_vars(transition_relation) == 2 * n,
                    bdd_models(transition_relation) == trans_models(
                        n,
                        pairs_seen(kripke, oi, t_idx as int),
                    ),
                decreases row_len - t_idx,
            {
                let target_st_id =
                    kripke.states[origin_st_id].outgoing_transitions_targets[t_idx];
                let ghost tj = target_st_id as int;
                let target_st_next_formula = get_strict_state_formula_for_transition_relation(
                    true,
                    num_states,
                    &var_set,
                    target_st_id,
                );
                let transition_bdd = bdd_and(
                    &origin_st_current_formula,
                    &target_st_next_formula,
                );
                proof {
                    assert forall|a: Seq<bool>| bdd_models(transition_bdd).contains(a)
                        <==> a == pair_assignment(n, oi, tj) by {
                        if bdd_models(transition_bdd).contains(a) {
                            assert(strict_prefix_models(n, false, oi, num_states as int).contains(
                                a,
                            ));
                            assert(strict_prefix_models(n, true, tj, num_states as int).contains(
                                a,
                            ));
                            assert forall|k: int| 0 <= k < 2 * n implies a[k] == pair_assignment(
                                n,
                                oi,
                                tj,
                            )[k] by {
                                if k < n {
                                    assert(a[side_index(n, false, k)] == (k == oi));
                                } else {
                                    assert(a[side_index(n, true, k - n)] == (k - n == tj));
                                }
                            }
                            assert(a =~= pair_assignment(n, oi, tj));
                        }
                        if a == pair_assignment(n, oi, tj) {
                            assert forall|st: int| 0 <= st < num_states as int implies a[
                                #[trigger] side_index(n, false, st)] == (st == oi) by {
                                assert(a[st] == (st == oi || st == n + tj));
                            }
                            assert forall|st: int| 0 <= st < num_states as int implies a[
                                #[trigger] side_index(n, true, st)] == (st == tj) by {
                                assert(a[n + st] == (n + st == oi || n + st == n + tj));
                            }
                            assert(strict_prefix_models(n, false, oi, num_states as int).contains(
                                a,
                            ));
                            assert(strict_prefix_models(n, true, tj, num_states as int).contains(
                                a,
                            ));
                        }
                    }
                }
                let next_tr = bdd_or(&transition_relation, &transition_bdd);
                proof {
                    let seen_now = pairs_seen(kripke, oi, t_idx as int);
                    let seen_next = pairs_seen(kripke, oi, t_idx as int + 1);
                    assert(kripke.states@[oi].outgoing_transitions_targets@[t_idx as int] as int
                        == tj);
                    assert(kripke.has_transition(oi, tj));
                    assert(seen_next =~= seen_now.insert((oi, tj)));
                    assert forall|a: Seq<bool>| bdd_models(next_tr).contains(a) <==> trans_models(
                        n,
                        seen_next,
                    ).contains(a) by {
                        if bdd_models(next_tr).contains(a) {
                            if bdd_models(transition_relation).contains(a) {
                                let p = choose|p: (int, int)|
                                    #[trigger] seen_now.contains(p) && a == pair_assignment(
                                        n,
                                        p.0,
                                        p.1,
                                    );
                                assert(seen_next.contains(p));
                            } else {
                                assert(a == pair_assignment(n, oi, tj));
                                assert(seen_next.contains((oi, tj)));
                            }
                        }
                        if trans_models(n, seen_next).contains(a) {
                            let p = choose|p: (int, int)|
                                #[trigger] seen_next.contains(p) && a == pair_assignment(
                                    n,
                                    p.0,
                                    p.1,
                                );
                            if seen_now.contains(p) {
                                assert(trans_models(n, seen_now).contains(a));
                            } else {
                                assert(p == (oi, tj));
                                assert(bdd_models(transition_bdd).contains(a));
                            }
                        }
                    }
                    assert(bdd_models(next_tr) =~= trans_models(n, seen_next));
                }
                transition_relation = next_tr;
                t_idx += 1;
            }
            proof {
                assert(pairs_seen(kripke, oi, row_len as int) =~= pairs_seen(kripke, oi + 1, 0));
            }
            origin_st_id += 1;
        }
        proof {
            assert(pairs_seen(kripke, num_states as int, 0) =~= kripke.trans_set());
        }
        let negated_transition_relation = bdd_not(&transition_relation);
        let mut next_iff_current = bdd_mk_true(&var_set);
        proof {
            assert(bdd_models(next_iff_current) =~= rename_prefix_models(n, 0));
        }
        let mut st_id: usize = 0;
        while st_id < num_states
            invariant
                n == kripke.n(),
                num_states == kripke.states@.len(),
                num_states < 32767,
                var_set_num_vars(var_set) == 2 * n,
                0 <= st_id <= num_states,
                bdd_canonical(next_iff_current),
                bdd_num_vars(next_iff_current) == 2 * n,
                bdd_models(next_iff_current) == rename_prefix_models(n, st_id as int),
            decreases num_states - st_id,
        {
            let st_current_var = bdd_mk_var(&var_set, st_id);
            let st_next_var = bdd_mk_var(&var_set, st_id + num_states);
            let iff_bdd = bdd_iff(&st_current_var, &st_next_var);
            let next_rename = bdd_and(&next_iff_current, &iff_bdd);
            proof {
                let m = st_id as int;
                assert forall|a: Seq<bool>| bdd_models(next_rename).contains(a)
                    <==> rename_prefix_models(n, m + 1).contains(a) by {
                    if bdd_models(next_rename).contains(a) {
                        assert(rename_prefix_models(n, m).contains(a));
                        assert((a[m] <==> a[n + m]));
                        assert forall|k: int| 0 <= k < m + 1 implies a[k] == #[trigger] a[
                            n + k] by {
                            if k < m {
                                assert(rename_prefix_models(n, m).contains(a));
                            }
                        }
                    }
                    if rename_prefix_models(n, m + 1).contains(a) {
                        assert(a[m] == a[n + m]);
                        assert(rename_prefix_models(n, m).contains(a));
                    }
                }
                assert(bdd_models(next_rename) =~= rename_prefix_models(n, m + 1));
            }
            next_iff_current = next_rename;
            st_id += 1;
        }
        proof {
            assert(rename_prefix_models(n, num_states as int) =~= rename_models(n));
        }
        let r = Self {
            num_states,
            var_set,
            transition_relation,
            negated_transition_relation,
            next_iff_current,
        };
        proof {
            assert forall|p: (int, int)| r.trans().contains(p) <==> kripke.trans_set().contains(
                p,
            ) by {
                if r.trans().contains(p) {
                    let q = choose|q: (int, int)|
                        #[trigger] kripke.trans_set().contains(q) && pair_assignment(
                            n,
                            p.0,
                            p.1,
                        ) == pair_assignment(n, q.0, q.1);
                    lemma_pair_assignment_injective(n, p.0, p.1, q.0, q.1);
                }
                if kripke.trans_set().contains(p) {
                    assert(trans_models(n, kripke.trans_set()).contains(
                        pair_assignment(n, p.0, p.1),
                    ));
                }
            }
            assert(r.trans() =~= kripke.trans_set());
            assert(trans_models(n, r.trans()) == trans_models(n, kripke.trans_set()));
        }
        r
    }

    /// Builds the strict one-hot BDD over the current-state variables that
    /// picks exactly the selected state.
    pub(crate) fn get_state_formula(&self, selected_state_id: usize) -> (r: Bdd)
        requires
            self.inv(),
            (selected_state_id as int) < self.n(),
        ensures
            bdd_canonical(r),
            bdd_num_vars(r) == 2 * self.n(),
            bdd_models(r) == state_models(self.n(), selected_state_id as int),
    {
        let ghost n = self.n();
        let ghost sel = selected_state_id as int;
        let r = get_strict_state_formula_for_transition_relation(
            false,
            self.num_states,
            &self.var_set,
            selected_state_id,
        );
        proof {
            assert forall|a: Seq<bool>| bdd_models(r).contains(a) <==> state_models(
                n,
                sel,
            ).contains(a) by {
                if bdd_models(r).contains(a) {
                    assert forall|k: int| 0 <= k < n implies a[k] == (k == sel) by {
                        assert(a[side_index(n, false, k)] == (k == sel));
                    }
                }
                if state_models(n, sel).contains(a) {
                    assert forall|st: int|
                        0 <= st < self.num_states as int implies a[#[trigger] side_index(
                        n,
                        false,
                        st,
                    )] == (st == sel) by {
                        assert(a[st] == (st == sel));
                    }
                }
            }
            assert(bdd_models(r) =~= state_models(n, sel));
        }
        r
    }

    /// Builds the BDD of a set of states given by their indices: the
    /// disjunction of the strict state formulas of its in-range members.
    pub(crate) fn get_states_set_formula(
        &self,
        selected_states_ids: &std::collections::HashSet<usize>,
    ) -> (r: Bdd)
        requires
            self.inv(),
        ensures
            bdd_canonical(r),
            bdd_num_vars(r) == 2 * self.n(),
            bdd_models(r) == states_set_models(
                self.n(),
                Set::new(
                    |i: int| 0 <= i < self.n() && selected_states_ids@.contains(i as usize),
                ),
            ),
    {
        let ghost n = self.n();
        let ghost chosen = Set::new(
            |i: int| 0 <= i < n && selected_states_ids@.contains(i as usize),
        );
        let mut formula = bdd_mk_false(&self.var_set);
        proof {
            assert(bdd_models(formula) =~= states_set_models(
                n,
                chosen.intersect(Set::new(|i: int| i < 0)),
            ));
        }
        let mut st_id: usize = 0;
        while st_id < self.num_states
            invariant
                self.inv(),
                n == self.n(),
                chosen == Set::new(
                    |i: int| 0 <= i < n && selected_states_ids@.contains(i as usize),
                ),
                0 <= st_id <= self.num_states,
                bdd_canonical(formula),
                bdd_num_vars(formula) == 2 * n,
                bdd_models(formula) == states_set_models(
                    n,
                    chosen.intersect(Set::new(|i: int| i < st_id as int)),
                ),
            decreases self.num_states - st_id,
        {
            let ghost prev = chosen.intersect(Set::new(|i: int| i < st_id as int));
            let ghost now = chosen.intersect(Set::new(|i: int| i < st_id as int + 1));
            if selected_states_ids.contains(&st_id) {
                let state_bdd = self.get_state_formula(st_id);
                let next_formula = bdd_or(&formula, &state_bdd);
                proof {
                    assert(chosen.contains(st_id as int));
                    assert forall|a: Seq<bool>| bdd_models(next_formula).contains(a)
                        <==> states_set_models(n, now).contains(a) by {
                        if bdd_models(next_formula).contains(a) {
                            if bdd_models(formula).contains(a) {
                                let i = choose|i: int|
                                    #[trigger] prev.contains(i) && 0 <= i < n && first_is_state(
                                        a,
                                        n,
                                        i,
                                    );
                                assert(now.contains(i));
                            } else {
                                assert(now.contains(st_id as int) && first_is_state(
                                    a,
                                    n,
                                    st_id as int,
                                ));
                            }
                        }
                        if states_set_models(n, now).contains(a) {
                            let i = choose|i: int|
                                #[trigger] now.contains(i) && 0 <= i < n && first_is_state(
                                    a,
                                    n,
                                    i,
                                );
                            if i < st_id as int {
                                assert(prev.contains(i));
                                assert(states_set_models(n, prev).contains(a));
                            } else {
                                assert(i == st_id as int);
                                assert(state_models(n, i).contains(a));
                            }
                        }
                    }
                    assert(bdd_models(next_formula) =~= states_set_models(n, now));
                }
                formula = next_formula;
            } else {
                proof {
                    assert(prev =~= now);
                }
            }
            st_id += 1;
        }
        proof {
            assert(chosen.intersect(Set::new(|i: int| i < self.num_states as int)) =~= chosen);
        }
        formula
    }

    /// After conjoining the rename relation and projecting the current-state
    /// variables away, an assignment satisfies the result iff the original
    /// set contains its next-state half read back as a current state.
    proof fn lemma_shift_models(&self, x: Bdd, step1: Bdd, step2: Bdd)
        requires
            self.inv(),
            state_set_bdd(x, self.n()),
            bdd_models(step1) == bdd_models(x).intersect(bdd_models(self.next_iff_current)),
            forall|a: Seq<bool>|
                #[trigger] bdd_models(step2).contains(a) <==> (a.len() == 2 * self.n()
                    && exists|m: Seq<bool>|
                    #[trigger] bdd_models(step1).contains(m) && m.len() == 2 * self.n()
                        && agrees_outside(a, m, 0, self.n() as int)),
        ensures
            forall|a: Seq<bool>|
                #[trigger] bdd_models(step2).contains(a) <==> (a.len() == 2 * self.n()
                    && bdd_models(x).contains(duplicate_next(a, self.n()))),
    {
        let n = self.n();
        assert forall|a: Seq<bool>| #[trigger] bdd_models(step2).contains(a) <==> (a.len() == 2
            * n && bdd_models(x).contains(duplicate_next(a, n))) by {
            if bdd_models(step2).contains(a) {
                let m = choose|m: Seq<bool>|
                    #[trigger] bdd_models(step1).contains(m) && m.len() == 2 * n
                        && agrees_outside(a, m, 0, n as int);
                assert(bdd_models(x).contains(m));
                assert(bdd_models(self.next_iff_current).contains(m));
                assert(rename_models(n).contains(m));
                assert forall|k: int| 0 <= k < 2 * n implies m[k] == duplicate_next(a, n)[k] by {
                    if k < n {
                        assert(m[k] == m[n + k]);
                        assert(a[n + k] == m[n + k]);
                    } else {
                        assert(a[k] == m[k]);
                    }
                }
                assert(m =~= duplicate_next(a, n));
            }
            if a.len() == 2 * n && bdd_models(x).contains(duplicate_next(a, n)) {
                let m = duplicate_next(a, n);
                assert(rename_models(n).contains(m)) by {
                    assert forall|k: int| 0 <= k < n implies m[k] == #[trigger] m[n + k] by {
                        assert(m[k] == a[n + k]);
                        assert(m[n + k] == a[n + k]);
                    }
                }
                assert(bdd_models(step1).contains(m));
                assert(agrees_outside(a, m, 0, n as int)) by {
                    assert forall|k: int|
                        0 <= k < a.len() && !(0 <= k < n) implies a[k] == m[k] by {
                        assert(m[k] == a[k]);
                    }
                }
                assert(bdd_models(step2).contains(a));
            }
        }
    }

    /// The relational-product composition computes exactly the pre-image:
    /// the resulting BDD's satisfying assignments are the pre-image models of
    /// the represented state set.
    proof fn lemma_pre_image_models(
        &self,
        kind: PreImageKind,
        x: Bdd,
        step2: Bdd,
        step3: Bdd,
        r: Bdd,
    )
        requires
            self.inv(),
            state_set_bdd(x, self.n()),
            forall|a: Seq<bool>|
                #[trigger] bdd_models(step2).contains(a) <==> (a.len() == 2 * self.n()
                    && bdd_models(x).contains(duplicate_next(a, self.n()))),
            kind == PreImageKind::Weak ==> bdd_models(step3) == bdd_models(step2).intersect(
                bdd_models(self.transition_relation),
            ),
            kind == PreImageKind::Strong ==> bdd_models(step3) == bdd_models(step2).union(
                assignments(2 * self.n()).difference(bdd_models(self.transition_relation)),
            ),
            kind == PreImageKind::Weak ==> (forall|a: Seq<bool>|
                #[trigger] bdd_models(r).contains(a) <==> (a.len() == 2 * self.n() && exists|
                    m: Seq<bool>,
                |
                    #[trigger] bdd_models(step3).contains(m) && m.len() == 2 * self.n()
                        && agrees_outside(a, m, self.n() as int, 2 * self.n() as int))),
            kind == PreImageKind::Strong ==> (forall|a: Seq<bool>|
                #[trigger] bdd_models(r).contains(a) <==> (a.len() == 2 * self.n() && forall|
                    m: Seq<bool>,
                |
                    m.len() == 2 * self.n() && agrees_outside(
                        a,
                        m,
                        self.n() as int,
                        2 * self.n() as int,
                    ) ==> #[trigger] bdd_models(step3).contains(m))),
        ensures
            bdd_models(r) == preimage_models(
                kind,
                self.n(),
                self.trans(),
                bdd_state_set(x, self.n()),
            ),
    {
        let n = self.n();
        let t = self.trans();
        let s = bdd_state_set(x, n);
        match kind {
            PreImageKind::Weak => {
                assert forall|a: Seq<bool>| bdd_models(r).contains(a) <==> preimage_models(
                    kind,
                    n,
                    t,
                    s,
                ).contains(a) by {
                    if bdd_models(r).contains(a) {
                        let m = choose|m: Seq<bool>|
                            #[trigger] bdd_models(step3).contains(m) && m.len() == 2 * n
                                && agrees_outside(a, m, n as int, 2 * n as int);
                        assert(bdd_models(self.transition_relation).contains(m));
                        assert(trans_models(n, t).contains(m));
                        let p = choose|p: (int, int)|
                            #[trigger] t.contains(p) && m == pair_assignment(n, p.0, p.1);
                        assert(bdd_models(step2).contains(m));
                        lemma_duplicate_pair(n, p.0, p.1);
                        lemma_pair_member(x, n, p.1);
                        assert(s.contains(p.1));
                        assert forall|k: int| 0 <= k < n implies a[k] == (k == p.0) by {
                            assert(a[k] == m[k]);
                            assert(m[k] == (k == p.0 || k == n + p.1));
                        }
                        assert(first_is_state(a, n, p.0));
                        assert(pre_image_set(PreImageKind::Weak, n, t, s).contains(p.0));
                        assert(preimage_models(kind, n, t, s).contains(a));
                    }
                    if preimage_models(kind, n, t, s).contains(a) {
                        let i = choose|i: int|
                            0 <= i < n && #[trigger] first_is_state(a, n, i) && pre_image_set(
                                PreImageKind::Weak,
                                n,
                                t,
                                s,
                            ).contains(i);
                        let j = choose|j: int| #[trigger] t.contains((i, j)) && s.contains(j);
                        let m = pair_assignment(n, i, j);
                        assert(trans_models(n, t).contains(m)) by {
                            assert(t.contains((i, j)) && m == pair_assignment(n, i, j));
                        }
                        lemma_duplicate_pair(n, i, j);
                        lemma_pair_member(x, n, j);
                        assert(bdd_models(x).contains(duplicate_next(m, n)));
                        assert(bdd_models(step2).contains(m));
                        assert(bdd_models(step3).contains(m));
                        assert(agrees_outside(a, m, n as int, 2 * n as int)) by {
                            assert forall|k: int|
                                0 <= k < a.len() && !(n <= k < 2 * n) implies a[k] == m[k] by {
                                assert(a[k] == (k == i));
                                assert(m[k] == (k == i || k == n + j));
                            }
                        }
                        assert(bdd_models(r).contains(a));
                    }
                }
                assert(bdd_models(r) =~= preimage_models(kind, n, t, s));
            },
            PreImageKind::Strong => {
                assert forall|a: Seq<bool>| bdd_models(r).contains(a) <==> preimage_models(
                    kind,
                    n,
                    t,
                    s,
                ).contains(a) by {
                    if bdd_models(r).contains(a) {
                        assert forall|i: int|
                            0 <= i < n && #[trigger] first_is_state(a, n, i) implies pre_image_set(
                            PreImageKind::Strong,
                            n,
                            t,
                            s,
                        ).contains(i) by {
                            assert forall|j: int| #[trigger] t.contains((i, j)) implies s.contains(
                                j,
                            ) by {
                                let m = pair_assignment(n, i, j);
                                assert(agrees_outside(a, m, n as int, 2 * n as int)) by {
                                    assert forall|k: int|
                                        0 <= k < a.len() && !(n <= k < 2 * n) implies a[k] == m[
                                        k] by {
                                        assert(a[k] == (k == i));
                                        assert(m[k] == (k == i || k == n + j));
                                    }
                                }
                                assert(bdd_models(step3).contains(m));
                                assert(trans_models(n, t).contains(m)) by {
                                    assert(t.contains((i, j)) && m == pair_assignment(n, i, j));
                                }
                                assert(bdd_models(self.transition_relation).contains(m));
                                assert(!assignments(2 * n).difference(
                                    bdd_models(self.transition_relation),
                                ).contains(m));
                                assert(bdd_models(step2).contains(m));
                                lemma_duplicate_pair(n, i, j);
                                lemma_pair_member(x, n, j);
                            }
                        }
                        assert(preimage_models(kind, n, t, s).contains(a));
                    }
                    if preimage_models(kind, n, t, s).contains(a) {
                        assert forall|m: Seq<bool>|
                            m.len() == 2 * n && agrees_outside(
                                a,
                                m,
                                n as int,
                                2 * n as int,
                            ) implies #[trigger] bdd_models(step3).contains(m) by {
                            if bdd_models(self.transition_relation).contains(m) {
                                assert(trans_models(n, t).contains(m));
                                let p = choose|p: (int, int)|
                                    #[trigger] t.contains(p) && m == pair_assignment(n, p.0, p.1);
                                assert forall|k: int| 0 <= k < n implies a[k] == (k == p.0) by {
                                    assert(a[k] == m[k]);
                                    assert(m[k] == (k == p.0 || k == n + p.1));
                                }
                                assert(first_is_state(a, n, p.0));
                                assert(pre_image_set(PreImageKind::Strong, n, t, s).contains(
                                    p.0,
                                ));
                                assert(s.contains(p.1));
                                lemma_duplicate_pair(n, p.0, p.1);
                                lemma_pair_member(x, n, p.1);
                                assert(bdd_models(x).contains(duplicate_next(m, n)));
                                assert(bdd_models(step2).contains(m));
                            } else {
                                assert(assignments(2 * n).difference(
                                    bdd_models(self.transition_relation),
                                ).contains(m));
                            }
                        }
                        assert(bdd_models(r).contains(a));
                    }
                }
                assert(bdd_models(r) =~= preimage_models(kind, n, t, s));
            },
        }
    }

    /// Given a BDD representing a set of states, returns a BDD representing
    /// the pre-image of that set under the stored transition relation.
    ///
    /// See [PreImageKind] for the two notions of pre-image. The weak
    /// pre-image renames the set to the next-state variables through the
    /// rename relation, conjoins the transition relation and projects the
    /// next-state variables away existentially; the strong pre-image
    /// disjoins the negated transition relation instead and projects
    /// universally.
    pub fn get_pre_image_by_transition_relation(
        &self,
        kind: PreImageKind,
        current_states: &Bdd,
    ) -> (r: Bdd)
        requires
            self.inv(),
            state_set_bdd(*current_states, self.n()),
        ensures
            state_set_bdd(r, self.n()),
            bdd_models(r) == preimage_models(
                kind,
                self.n(),
                self.trans(),
                bdd_state_set(*current_states, self.n()),
            ),
            bdd_state_set(r, self.n()) == pre_image_set(
                kind,
                self.n(),
                self.trans(),
                bdd_state_set(*current_states, self.n()),
            ),
    {
        let ghost n = self.n();
        let ghost t = self.trans();
        let ghost s = bdd_state_set(*current_states, n);
        let step1 = bdd_and(current_states, &self.next_iff_current);
        let step2 = bdd_exists_range(&step1, &self.var_set, 0, self.num_states);
        proof {
            self.lemma_shift_models(*current_states, step1, step2);
        }
        let two_n = self.num_states * 2;
        let r = match kind {
            PreImageKind::Weak => {
                let step3 = bdd_and(&step2, &self.transition_relation);
                let projected = bdd_exists_range(&step3, &self.var_set, self.num_states, two_n);
                proof {
                    self.lemma_pre_image_models(kind, *current_states, step2, step3, projected);
                }
                projected
            },
            PreImageKind::Strong => {
                let step3 = bdd_or(&step2, &self.negated_transition_relation);
                let projected = bdd_forall_range(&step3, &self.var_set, self.num_states, two_n);
                proof {
                    self.lemma_pre_image_models(kind, *current_states, step2, step3, projected);
                }
                projected
            },
        };
        proof {
            lemma_preimage_state_set(r, kind, n, t, s);
        }
        r
    }
}

} // verus!
