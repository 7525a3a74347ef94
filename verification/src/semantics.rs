//! The mathematical meaning of CNF formulas: interpretations, satisfaction,
//! and the effect of unit propagation on the set of models.
//!
//! A formula is a set of clauses, each clause a set of integer literals.  An
//! interpretation is a set of literals taken to be true.

use vstd::prelude::*;
use crate::cnf_system::ClauseType;

verus! {

/// An interpretation is consistent when it assigns no variable both
/// polarities.
pub open spec fn consistent(m: Set<int>) -> bool {
    forall|l: int| #[trigger] m.contains(l) ==> !m.contains(-l)
}

/// A clause is satisfied when one of its literals is true.
pub open spec fn clause_sat(m: Set<int>, c: Set<int>) -> bool {
    exists|l: int| #[trigger] c.contains(l) && m.contains(l)
}

/// A formula is satisfied when every clause is.
pub open spec fn sat(m: Set<int>, s: Set<Set<int>>) -> bool {
    forall|c: Set<int>| #[trigger] s.contains(c) ==> clause_sat(m, c)
}

/// The interpretation decides every variable that occurs in the formula.
pub open spec fn total_on(m: Set<int>, s: Set<Set<int>>) -> bool {
    forall|c: Set<int>, l: int|
        #[trigger] s.contains(c) && #[trigger] c.contains(l) ==> m.contains(l) || m.contains(-l)
}

/// The literal x occurs in some clause of the formula.
pub open spec fn lit_in(s: Set<Set<int>>, x: int) -> bool {
    exists|c: Set<int>| #[trigger] s.contains(c) && c.contains(x)
}

/// The formula has a consistent model deciding all of its variables.
pub open spec fn satisfiable(s: Set<Set<int>>) -> bool {
    exists|m: Set<int>| consistent(m) && total_on(m, s) && #[trigger] sat(m, s)
}

/// No clause of the formula is empty.
pub open spec fn no_empty_clause(s: Set<Set<int>>) -> bool {
    forall|c: Set<int>| #[trigger] s.contains(c) ==> c != Set::<int>::empty()
}

/// No clause of the formula holds zero, which is no literal.
pub open spec fn no_zero_lit(s: Set<Set<int>>) -> bool {
    forall|c: Set<int>| #[trigger] s.contains(c) ==> !c.contains(0)
}

/// The clause set left after asserting literal l true: clauses containing l
/// are satisfied and disappear; clauses containing -l lose that literal; the
/// rest stay as they are.
pub open spec fn propagate_spec(s: Set<Set<int>>, l: int) -> Set<Set<int>> {
    Set::new(
        |c: Set<int>|
            (s.contains(c) && !c.contains(l) && !c.contains(-l)) || (exists|c0: Set<int>|
                #[trigger] s.contains(c0) && c0.contains(-l) && !c0.contains(l) && c == c0.remove(
                    -l,
                )),
    )
}

/// The literals revealed as new units by asserting l: sole survivors of
/// clauses that were reduced to one literal.
pub open spec fn revealed_spec(s: Set<Set<int>>, l: int) -> Set<int> {
    Set::new(
        |u: int|
            exists|c0: Set<int>|
                #[trigger] s.contains(c0) && c0.contains(-l) && !c0.contains(l) && c0.remove(-l)
                    == set![u],
    )
}

/// Asserting l produces a conflict exactly when the unit clause of -l is
/// present.
pub open spec fn conflict_spec(s: Set<Set<int>>, l: int) -> bool {
    s.contains(set![-l])
}

/// Every clause of s2 is contained in some clause of s1: s2 arose from s1 by
/// dropping clauses and literals, as propagation does.
pub open spec fn shrinks_of(s2: Set<Set<int>>, s1: Set<Set<int>>) -> bool {
    forall|c: Set<int>| #[trigger]
        s2.contains(c) ==> exists|c0: Set<int>| #[trigger] s1.contains(c0) && c.subset_of(c0)
}

/// Shrinking is reflexive.
pub proof fn lemma_shrinks_refl(s: Set<Set<int>>)
    ensures
        shrinks_of(s, s),
{
    assert forall|c: Set<int>| #[trigger] s.contains(c) implies exists|c0: Set<int>| #[trigger]
        s.contains(c0) && c.subset_of(c0) by {
        assert(s.contains(c) && c.subset_of(c));
    }
}

/// Shrinking composes.
pub proof fn lemma_shrinks_trans(s3: Set<Set<int>>, s2: Set<Set<int>>, s1: Set<Set<int>>)
    requires
        shrinks_of(s3, s2),
        shrinks_of(s2, s1),
    ensures
        shrinks_of(s3, s1),
{
    assert forall|c: Set<int>| #[trigger] s3.contains(c) implies exists|c0: Set<int>| #[trigger]
        s1.contains(c0) && c.subset_of(c0) by {
        let cm = choose|cm: Set<int>| #[trigger] s2.contains(cm) && c.subset_of(cm);
        let c0 = choose|c0: Set<int>| #[trigger] s1.contains(c0) && cm.subset_of(c0);
        assert(s1.contains(c0) && c.subset_of(c0));
    }
}

/// Propagation only shrinks the clause set.
pub proof fn lemma_propagate_shrinks(s: Set<Set<int>>, l: int)
    ensures
        shrinks_of(propagate_spec(s, l), s),
{
    lemma_propagate_structure(s, l);
}

/// An interpretation that decides every variable of s1 decides every
/// variable of anything that shrinks from s1.
pub proof fn lemma_total_on_shrinks(m: Set<int>, s2: Set<Set<int>>, s1: Set<Set<int>>)
    requires
        total_on(m, s1),
        shrinks_of(s2, s1),
    ensures
        total_on(m, s2),
{
    assert forall|c: Set<int>, l: int|
        #[trigger] s2.contains(c) && #[trigger] c.contains(l) implies m.contains(l) || m.contains(
        -l,
    ) by {
        let c0 = choose|c0: Set<int>| #[trigger] s1.contains(c0) && c.subset_of(c0);
        assert(c0.contains(l));
    }
}

/// Literal occurrences only disappear under shrinking.
pub proof fn lemma_lit_in_shrinks(s2: Set<Set<int>>, s1: Set<Set<int>>)
    requires
        shrinks_of(s2, s1),
    ensures
        forall|x: int| lit_in(s2, x) ==> lit_in(s1, x),
{
    assert forall|x: int| lit_in(s2, x) implies lit_in(s1, x) by {
        if lit_in(s2, x) {
            let c = choose|c: Set<int>| #[trigger] s2.contains(c) && c.contains(x);
            let c0 = choose|c0: Set<int>| #[trigger] s1.contains(c0) && c.subset_of(c0);
            assert(s1.contains(c0) && c0.contains(x));
        }
    }
}

/// Making more literals true never unsatisfies a clause set.
pub proof fn lemma_sat_superset(m1: Set<int>, m2: Set<int>, s: Set<Set<int>>)
    requires
        sat(m1, s),
        m1.subset_of(m2),
    ensures
        sat(m2, s),
{
    assert forall|c: Set<int>| #[trigger] s.contains(c) implies clause_sat(m2, c) by {
        let w = choose|w: int| #[trigger] c.contains(w) && m1.contains(w);
        assert(c.contains(w) && m2.contains(w));
    }
}

/// A nonempty set of integers holds a witness.
pub proof fn lemma_nonempty_witness(c: Set<int>)
    requires
        c != Set::<int>::empty(),
    ensures
        exists|x: int| c.contains(x),
{
    if !(exists|x: int| c.contains(x)) {
        assert(c =~= Set::<int>::empty());
    }
}

/// Unit propagation preserves the models that make the asserted literal
/// true, in both directions.
pub proof fn lemma_propagate_models(s: Set<Set<int>>, l: int, m: Set<int>)
    requires
        consistent(m),
        m.contains(l),
    ensures
        sat(m, s) <==> sat(m, propagate_spec(s, l)),
{
    let p = propagate_spec(s, l);
    assert(!m.contains(-l));
    if sat(m, s) {
        assert forall|c: Set<int>| #[trigger] p.contains(c) implies clause_sat(m, c) by {
            if s.contains(c) && !c.contains(l) && !c.contains(-l) {
                assert(clause_sat(m, c));
            } else {
                let c0 = choose|c0: Set<int>|
                    #[trigger] s.contains(c0) && c0.contains(-l) && !c0.contains(l) && c
                        == c0.remove(-l);
                assert(clause_sat(m, c0));
                let w = choose|w: int| #[trigger] c0.contains(w) && m.contains(w);
                assert(w != -l);
                assert(c.contains(w));
            }
        }
    }
    if sat(m, p) {
        assert forall|c: Set<int>| #[trigger] s.contains(c) implies clause_sat(m, c) by {
            if c.contains(l) {
                assert(c.contains(l) && m.contains(l));
            } else if c.contains(-l) {
                let c1 = c.remove(-l);
                assert(p.contains(c1));
                assert(clause_sat(m, c1));
                let w = choose|w: int| #[trigger] c1.contains(w) && m.contains(w);
                assert(c.contains(w));
            } else {
                assert(p.contains(c));
                assert(clause_sat(m, c));
            }
        }
    }
}

/// After propagating l, no clause mentions l or its negation, every clause
/// shrinks from some old clause, untouched clauses survive, and each
/// revealed unit stands as a unit clause of the result.
pub proof fn lemma_propagate_structure(s: Set<Set<int>>, l: int)
    ensures
        forall|c: Set<int>| #[trigger]
            propagate_spec(s, l).contains(c) ==> !c.contains(l) && !c.contains(-l),
        forall|c: Set<int>| #[trigger]
            propagate_spec(s, l).contains(c) ==> exists|c0: Set<int>| #[trigger]
                s.contains(c0) && c.subset_of(c0),
        forall|c: Set<int>|
            s.contains(c) && !c.contains(l) && !c.contains(-l) ==> propagate_spec(s, l).contains(
                c,
            ),
        forall|u: int| #[trigger]
            revealed_spec(s, l).contains(u) ==> propagate_spec(s, l).contains(set![u]) && u != l
                && u != -l,
    {
    let p = propagate_spec(s, l);
    assert forall|c: Set<int>| #[trigger] p.contains(c) implies !c.contains(l) && !c.contains(-l)
        && (exists|c0: Set<int>| #[trigger] s.contains(c0) && c.subset_of(c0)) by {
        if s.contains(c) && !c.contains(l) && !c.contains(-l) {
            assert(c.subset_of(c));
        } else {
            let c0 = choose|c0: Set<int>|
                #[trigger] s.contains(c0) && c0.contains(-l) && !c0.contains(l) && c == c0.remove(
                    -l,
                );
            assert(c.subset_of(c0));
        }
    }
    assert forall|u: int| #[trigger] revealed_spec(s, l).contains(u) implies p.contains(set![u])
        && u != l && u != -l by {
        let c0 = choose|c0: Set<int>|
            #[trigger] s.contains(c0) && c0.contains(-l) && !c0.contains(l) && c0.remove(-l)
                == set![u];
        assert(p.contains(c0.remove(-l)));
        assert(set![u].contains(u));
        assert(p.contains(set![u]));
    }
}

/// If no clause was empty and there is no conflict, no clause of the result
/// is empty.
pub proof fn lemma_propagate_nonempty(s: Set<Set<int>>, l: int)
    requires
        no_empty_clause(s),
        !conflict_spec(s, l),
    ensures
        no_empty_clause(propagate_spec(s, l)),
{
    assert forall|c: Set<int>| #[trigger] propagate_spec(s, l).contains(c) implies c
        != Set::<int>::empty() by {
        if s.contains(c) && !c.contains(l) && !c.contains(-l) {
        } else {
            let c0 = choose|c0: Set<int>|
                #[trigger] s.contains(c0) && c0.contains(-l) && !c0.contains(l) && c == c0.remove(
                    -l,
                );
            if c == Set::<int>::empty() {
                // c0 held only -l, so the conflict clause was present.
                assert(c0 =~= set![-l]) by {
                    assert forall|x: int| c0.contains(x) implies set![-l].contains(x) by {
                        if x != -l {
                            assert(c0.remove(-l).contains(x));
                        }
                    }
                }
            }
        }
    }
}

/// A conflict refutes every consistent interpretation containing the
/// asserted literal.
pub proof fn lemma_conflict_refutes(s: Set<Set<int>>, l: int, m: Set<int>)
    requires
        conflict_spec(s, l),
        consistent(m),
        m.contains(l),
    ensures
        !sat(m, s),
{
    assert(!m.contains(-l));
    if sat(m, s) {
        assert(clause_sat(m, set![-l]));
        let w = choose|w: int| #[trigger] set![-l].contains(w) && m.contains(w);
        assert(w == -l);
    }
}

/// A consistent interpretation that satisfies a formula extends to one that
/// also decides every variable of the formula: the formula is satisfiable.
pub proof fn lemma_extend_to_total(s: Set<Set<int>>, m: Set<int>)
    requires
        consistent(m),
        sat(m, s),
        no_zero_lit(s),
    ensures
        satisfiable(s),
{
    let m2 = Set::new(
        |x: int|
            m.contains(x) || (x > 0 && !m.contains(x) && !m.contains(-x) && (lit_in(s, x)
                || lit_in(s, -x))),
    );
    assert(consistent(m2)) by {
        assert forall|l: int| #[trigger] m2.contains(l) implies !m2.contains(-l) by {
            if m.contains(l) {
                assert(!m.contains(-l));
            }
        }
    }
    assert(total_on(m2, s)) by {
        assert forall|c: Set<int>, x: int|
            #[trigger] s.contains(c) && #[trigger] c.contains(x) implies m2.contains(x)
            || m2.contains(-x) by {
            if !m.contains(x) && !m.contains(-x) {
                assert(lit_in(s, x));
                if x > 0 {
                    assert(m2.contains(x));
                } else {
                    assert(m2.contains(-x));
                }
            } else if m.contains(x) {
                assert(m2.contains(x));
            } else {
                assert(m2.contains(-x));
            }
        }
    }
    assert(sat(m2, s)) by {
        assert forall|c: Set<int>| #[trigger] s.contains(c) implies clause_sat(m2, c) by {
            let w = choose|w: int| #[trigger] c.contains(w) && m.contains(w);
            assert(m2.contains(w));
        }
    }
}

/// The solver's running state, tied to the formula `s0` it started from:
/// `scur` is the working clause set and `iview` the interpretation built so
/// far.  Propagation keeps all of this.
pub open spec fn search_inv(s0: Set<Set<int>>, scur: Set<Set<int>>, iview: Set<int>) -> bool {
    &&& no_empty_clause(scur)
    &&& shrinks_of(scur, s0)
    &&& consistent(iview)
    &&& forall|x: int| #[trigger] iview.contains(x) ==> lit_in(s0, x) || lit_in(s0, -x)
    &&& forall|x: int| #[trigger] iview.contains(x) ==> !lit_in(scur, x) && !lit_in(scur, -x)
    &&& forall|m: Set<int>|
        consistent(m) && #[trigger] sat(m, s0) ==> sat(m, scur) && iview.subset_of(m)
    &&& forall|m: Set<int>|
        consistent(m) && iview.subset_of(m) && #[trigger] sat(m, scur) ==> sat(m, s0)
}

/// A literal the solver may propagate: it stands as a unit clause, or has
/// been propagated before.
pub open spec fn unit_ok(scur: Set<Set<int>>, iview: Set<int>, u: int) -> bool {
    scur.contains(set![u]) || iview.contains(u)
}

/// Propagating a pending literal without conflict carries the search state
/// forward, and pending literals stay pending.
pub proof fn lemma_search_step(
    s0: Set<Set<int>>,
    prior: Set<Set<int>>,
    snew: Set<Set<int>>,
    iview: Set<int>,
    u: int,
)
    requires
        search_inv(s0, prior, iview),
        unit_ok(prior, iview, u),
        u != 0,
        snew == propagate_spec(prior, u),
        !conflict_spec(prior, u),
    ensures
        search_inv(s0, snew, iview.insert(u)),
        forall|v: int| unit_ok(prior, iview, v) ==> unit_ok(snew, iview.insert(u), v),
        forall|v: int| revealed_spec(prior, u).contains(v) ==> unit_ok(snew, iview.insert(u), v),
{
    lemma_propagate_structure(prior, u);
    lemma_propagate_shrinks(prior, u);
    lemma_propagate_nonempty(prior, u);
    lemma_shrinks_trans(snew, prior, s0);
    lemma_lit_in_shrinks(snew, prior);
    lemma_lit_in_shrinks(prior, s0);
    let iview2 = iview.insert(u);
    // The negation of u is not in the interpretation.
    assert(!iview.contains(-u)) by {
        if iview.contains(-u) {
            assert(!lit_in(prior, -(-u)) && !lit_in(prior, -u));
            if prior.contains(set![u]) {
                assert(set![u].contains(u));
                assert(lit_in(prior, u));
            }
            assert(-(-u) == u);
        }
    }
    assert(u != -u);
    if prior.contains(set![u]) {
        assert(set![u].contains(u));
        assert(lit_in(prior, u));
    }
    assert(consistent(iview2)) by {
        assert forall|x: int| #[trigger] iview2.contains(x) implies !iview2.contains(-x) by {
            if iview2.contains(-x) {
                if iview.contains(x) && iview.contains(-x) {
                } else if x == u {
                    assert(!iview.contains(-u));
                } else {
                    assert(-x == u && iview.contains(x));
                    assert(x == -u);
                    assert(!iview.contains(-u));
                }
            }
        }
    }
    assert forall|x: int| #[trigger] iview2.contains(x) implies lit_in(s0, x) || lit_in(
        s0,
        -x,
    ) by {
        if x == u && !iview.contains(x) {
            assert(lit_in(prior, u));
        }
    }
    assert forall|x: int| #[trigger] iview2.contains(x) implies !lit_in(snew, x) && !lit_in(
        snew,
        -x,
    ) by {
        if x == u {
            assert(!lit_in(snew, u)) by {
                if lit_in(snew, u) {
                    let c = choose|c: Set<int>| #[trigger] snew.contains(c) && c.contains(u);
                }
            }
            assert(!lit_in(snew, -u)) by {
                if lit_in(snew, -u) {
                    let c = choose|c: Set<int>| #[trigger] snew.contains(c) && c.contains(-u);
                }
            }
        } else {
            assert(iview.contains(x));
        }
    }
    assert forall|m: Set<int>| consistent(m) && #[trigger] sat(m, s0) implies sat(m, snew)
        && iview2.subset_of(m) by {
        assert(sat(m, prior) && iview.subset_of(m));
        assert(m.contains(u)) by {
            if prior.contains(set![u]) {
                assert(clause_sat(m, set![u]));
                let w = choose|w: int| #[trigger] set![u].contains(w) && m.contains(w);
                assert(w == u);
            }
        }
        lemma_propagate_models(prior, u, m);
    }
    assert forall|m: Set<int>|
        consistent(m) && iview2.subset_of(m) && #[trigger] sat(m, snew) implies sat(m, s0) by {
        assert(m.contains(u));
        lemma_propagate_models(prior, u, m);
        assert(sat(m, prior));
        assert(iview.subset_of(m));
    }
    assert forall|v: int| unit_ok(prior, iview, v) implies unit_ok(snew, iview2, v) by {
        if iview.contains(v) {
        } else {
            assert(prior.contains(set![v]));
            if v == u {
                assert(iview2.contains(v));
            } else if v == -u {
                assert(prior.contains(set![-u]));
                assert(conflict_spec(prior, u));
            } else {
                assert(!set![v].contains(u));
                assert(!set![v].contains(-u));
                assert(snew.contains(set![v]));
            }
        }
    }
    assert forall|v: int| revealed_spec(prior, u).contains(v) implies unit_ok(
        snew,
        iview2,
        v,
    ) by {
        assert(snew.contains(set![v]));
    }
}

/// A conflict while propagating a pending literal refutes the formula the
/// search started from.
pub proof fn lemma_search_conflict(
    s0: Set<Set<int>>,
    prior: Set<Set<int>>,
    iview: Set<int>,
    u: int,
)
    requires
        search_inv(s0, prior, iview),
        unit_ok(prior, iview, u),
        conflict_spec(prior, u),
    ensures
        forall|m: Set<int>| consistent(m) ==> !(#[trigger] sat(m, s0)),
{
    assert forall|m: Set<int>| consistent(m) implies !(#[trigger] sat(m, s0)) by {
        if sat(m, s0) {
            assert(sat(m, prior) && iview.subset_of(m));
            assert(m.contains(u)) by {
                if prior.contains(set![u]) {
                    assert(clause_sat(m, set![u]));
                    let w = choose|w: int| #[trigger] set![u].contains(w) && m.contains(w);
                    assert(w == u);
                }
            }
            lemma_conflict_refutes(prior, u, m);
        }
    }
}

/// When the working system has run empty, the interpretation built so far
/// satisfies the original formula.
pub proof fn lemma_search_done(s0: Set<Set<int>>, scur: Set<Set<int>>, iview: Set<int>)
    requires
        search_inv(s0, scur, iview),
        scur == Set::<Set<int>>::empty(),
    ensures
        sat(iview, s0),
        consistent(iview),
{
    assert(sat(iview, scur));
    assert(iview.subset_of(iview));
}

/// A satisfying interpretation found under one polarity of a decision joins
/// the literals propagated before the decision into a model of the original
/// formula.
pub proof fn lemma_decision_sat(
    s0: Set<Set<int>>,
    scur: Set<Set<int>>,
    iview: Set<int>,
    bview: Set<int>,
    dlit: int,
)
    requires
        search_inv(s0, scur, iview),
        consistent(bview),
        sat(bview, scur),
        forall|x: int| #[trigger]
            bview.contains(x) ==> lit_in(scur, x) || lit_in(scur, -x) || x == dlit,
        lit_in(scur, dlit) || lit_in(scur, -dlit),
    ensures
        consistent(iview.union(bview)),
        sat(iview.union(bview), s0),
        forall|x: int| #[trigger]
            iview.union(bview).contains(x) ==> lit_in(s0, x) || lit_in(s0, -x),
{
    lemma_lit_in_shrinks(scur, s0);
    let all = iview.union(bview);
    assert forall|x: int| #[trigger] bview.contains(x) implies lit_in(scur, x) || lit_in(
        scur,
        -x,
    ) by {
        if x == dlit {
            assert(-(-dlit) == dlit);
        }
    }
    assert(consistent(all)) by {
        assert forall|x: int| #[trigger] all.contains(x) implies !all.contains(-x) by {
            if all.contains(-x) {
                if iview.contains(x) && iview.contains(-x) {
                } else if bview.contains(x) && bview.contains(-x) {
                } else if iview.contains(x) && bview.contains(-x) {
                    assert(lit_in(scur, -x) || lit_in(scur, -(-x)));
                    assert(!lit_in(scur, x) && !lit_in(scur, -x));
                    assert(-(-x) == x);
                } else {
                    assert(bview.contains(x) && iview.contains(-x));
                    assert(lit_in(scur, x) || lit_in(scur, -x));
                    assert(!lit_in(scur, -x) && !lit_in(scur, -(-x)));
                    assert(-(-x) == x);
                }
            }
        }
    }
    lemma_sat_superset(bview, all, scur);
    assert(iview.subset_of(all));
    assert(sat(all, s0));
    assert forall|x: int| #[trigger] all.contains(x) implies lit_in(s0, x) || lit_in(s0, -x) by {
        if bview.contains(x) {
            assert(lit_in(scur, x) || lit_in(scur, -x));
        }
    }
}

/// Both polarities of the decision literal refuted: the original formula
/// has no model deciding all of its variables.
pub proof fn lemma_decision_unsat(
    s0: Set<Set<int>>,
    scur: Set<Set<int>>,
    iview: Set<int>,
    dc: Set<int>,
    d: int,
)
    requires
        search_inv(s0, scur, iview),
        scur.contains(dc),
        dc.contains(d),
        forall|m: Set<int>|
            consistent(m) && total_on(m, scur) && m.contains(d) ==> !(#[trigger] sat(m, scur)),
        forall|m: Set<int>|
            consistent(m) && total_on(m, scur) && m.contains(-d) ==> !(#[trigger] sat(m, scur)),
    ensures
        forall|m: Set<int>|
            consistent(m) && total_on(m, s0) ==> !(#[trigger] sat(m, s0)),
{
    assert forall|m: Set<int>| consistent(m) && total_on(m, s0) implies !(#[trigger] sat(
        m,
        s0,
    )) by {
        if sat(m, s0) {
            assert(sat(m, scur) && iview.subset_of(m));
            lemma_total_on_shrinks(m, scur, s0);
            assert(m.contains(d) || m.contains(-d)) by {
                assert(scur.contains(dc) && dc.contains(d));
            }
            if m.contains(d) {
                assert(!sat(m, scur));
            } else {
                assert(!sat(m, scur));
            }
        }
    }
}

/// Asserting the branch literal ran into a conflict at once: no model of the
/// branch's system makes that literal true.
pub proof fn lemma_branch_conflict(sb: Set<Set<int>>, lit: int)
    requires
        conflict_spec(sb, lit),
    ensures
        forall|m: Set<int>|
            consistent(m) && m.contains(lit) ==> !(#[trigger] sat(m, sb)),
{
    assert forall|m: Set<int>| consistent(m) && m.contains(lit) implies !(#[trigger] sat(
        m,
        sb,
    )) by {
        lemma_conflict_refutes(sb, lit, m);
    }
}

/// A model of the branch's propagated system, joined with the branch
/// literal, models the branch's own system.
pub proof fn lemma_branch_sat(sb: Set<Set<int>>, snew: Set<Set<int>>, rview: Set<int>, lit: int)
    requires
        snew == propagate_spec(sb, lit),
        lit != 0,
        consistent(rview),
        sat(rview, snew),
        forall|x: int| #[trigger] rview.contains(x) ==> lit_in(snew, x) || lit_in(snew, -x),
    ensures
        consistent(rview.insert(lit)),
        rview.insert(lit).contains(lit),
        sat(rview.insert(lit), sb),
        forall|x: int| #[trigger]
            rview.insert(lit).contains(x) ==> lit_in(sb, x) || lit_in(sb, -x) || x == lit,
{
    lemma_propagate_structure(sb, lit);
    lemma_lit_in_shrinks(snew, sb);
    let iv = rview.insert(lit);
    assert(!rview.contains(-lit)) by {
        if rview.contains(-lit) {
            if lit_in(snew, -lit) {
                let c = choose|c: Set<int>| #[trigger] snew.contains(c) && c.contains(-lit);
            }
            if lit_in(snew, -(-lit)) {
                assert(-(-lit) == lit);
                let c = choose|c: Set<int>| #[trigger] snew.contains(c) && c.contains(lit);
            }
        }
    }
    assert(lit != -lit);
    assert(consistent(iv)) by {
        assert forall|x: int| #[trigger] iv.contains(x) implies !iv.contains(-x) by {
            if iv.contains(-x) {
                if rview.contains(x) && rview.contains(-x) {
                } else if x == lit {
                    assert(!rview.contains(-lit));
                } else {
                    assert(-x == lit && rview.contains(x));
                    assert(x == -lit);
                    assert(!rview.contains(-lit));
                }
            }
        }
    }
    lemma_sat_superset(rview, iv, snew);
    lemma_propagate_models(sb, lit, iv);
    assert(sat(iv, sb));
    assert forall|x: int| #[trigger] iv.contains(x) implies lit_in(sb, x) || lit_in(sb, -x) || x
        == lit by {
        if x != lit {
            assert(lit_in(snew, x) || lit_in(snew, -x));
        }
    }
}

/// If the propagated branch system is unsatisfiable, no model of the
/// branch's own system makes the branch literal true.
pub proof fn lemma_branch_unsat(sb: Set<Set<int>>, snew: Set<Set<int>>, lit: int)
    requires
        snew == propagate_spec(sb, lit),
        forall|m: Set<int>|
            consistent(m) && total_on(m, snew) ==> !(#[trigger] sat(m, snew)),
    ensures
        forall|m: Set<int>|
            consistent(m) && total_on(m, sb) && m.contains(lit) ==> !(#[trigger] sat(m, sb)),
{
    lemma_propagate_shrinks(sb, lit);
    assert forall|m: Set<int>|
        consistent(m) && total_on(m, sb) && m.contains(lit) implies !(#[trigger] sat(m, sb)) by {
        if sat(m, sb) {
            lemma_propagate_models(sb, lit, m);
            assert(sat(m, snew));
            lemma_total_on_shrinks(m, snew, sb);
            assert(!sat(m, snew));
        }
    }
}

/// From the guarantees the solver gives, its verdict is pinned by the
/// formula's semantics alone.
pub proof fn lemma_verdict_of_contract(s: Set<Set<int>>, v: ClauseType, i: Set<int>)
    requires
        no_zero_lit(s),
        v != ClauseType::Tautology,
        v == ClauseType::Satisfiable ==> consistent(i) && sat(i, s),
        v == ClauseType::Unsatisfiable ==> forall|m: Set<int>|
            consistent(m) && total_on(m, s) ==> !(#[trigger] sat(m, s)),
    ensures
        v == ClauseType::Satisfiable <==> satisfiable(s),
        v == ClauseType::Unsatisfiable <==> !satisfiable(s),
{
    match v {
        ClauseType::Satisfiable => {
            lemma_extend_to_total(s, i);
        },
        ClauseType::Unsatisfiable => {
            if satisfiable(s) {
                let m = choose|m: Set<int>|
                    consistent(m) && total_on(m, s) && #[trigger] sat(m, s);
                assert(!sat(m, s));
            }
        },
        ClauseType::Tautology => {},
    }
}

/// Determinism of the verdict under any clause ordering: two runs on the
/// same formula, each meeting the solver's contract, return one verdict.
pub proof fn lemma_verdict_deterministic(
    s: Set<Set<int>>,
    v1: ClauseType,
    i1: Set<int>,
    v2: ClauseType,
    i2: Set<int>,
)
    requires
        no_zero_lit(s),
        v1 != ClauseType::Tautology,
        v1 == ClauseType::Satisfiable ==> consistent(i1) && sat(i1, s),
        v1 == ClauseType::Unsatisfiable ==> forall|m: Set<int>|
            consistent(m) && total_on(m, s) ==> !(#[trigger] sat(m, s)),
        v2 != ClauseType::Tautology,
        v2 == ClauseType::Satisfiable ==> consistent(i2) && sat(i2, s),
        v2 == ClauseType::Unsatisfiable ==> forall|m: Set<int>|
            consistent(m) && total_on(m, s) ==> !(#[trigger] sat(m, s)),
    ensures
        v1 == v2,
{
    lemma_verdict_of_contract(s, v1, i1);
    lemma_verdict_of_contract(s, v2, i2);
}

} // verus!
