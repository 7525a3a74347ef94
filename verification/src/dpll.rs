//! The DPLL search engine: unit propagation, decision, recursive descent,
//! and assembly of a satisfying interpretation.

use vstd::prelude::*;
use crate::cnf_system::{CNFClause, CNFSystem, ClauseType, lit_ok, sum_lens, lemma_sum_lens_push};
use crate::semantics::{
    conflict_spec, consistent, lit_in, no_empty_clause, no_zero_lit, propagate_spec,
    revealed_spec, sat, search_inv, total_on, unit_ok, lemma_branch_conflict, lemma_branch_sat,
    lemma_branch_unsat, lemma_decision_sat, lemma_decision_unsat, lemma_nonempty_witness,
    lemma_propagate_nonempty, lemma_propagate_structure, lemma_search_conflict, lemma_search_done,
    lemma_search_step, lemma_shrinks_refl, lemma_verdict_deterministic,
};

verus! {

/// The set of literals a vector of them stands for.
pub open spec fn interp_of(v: Seq<isize>) -> Set<int> {
    v.map_values(|x: isize| x as int).to_set()
}

/// Pushing an element inserts it into the denoted set.
pub proof fn lemma_to_set_push<A>(s: Seq<A>, x: A)
    ensures
        s.push(x).to_set() == s.to_set().insert(x),
{
    assert forall|y: A| s.push(x).to_set().contains(y) implies s.to_set().insert(x).contains(
        y,
    ) by {
        let k = choose|k: int| 0 <= k < s.push(x).len() && s.push(x)[k] == y;
        if k < s.len() {
            assert(s[k] == y);
            assert(s.contains(y));
        }
    }
    assert forall|y: A| s.to_set().insert(x).contains(y) implies s.push(x).to_set().contains(
        y,
    ) by {
        if y == x {
            assert(s.push(x)[s.len() as int] == y);
        } else {
            let k = choose|k: int| 0 <= k < s.len() && s[k] == y;
            assert(s.push(x)[k] == y);
        }
        assert(s.push(x).contains(y));
    }
    assert(s.push(x).to_set() =~= s.to_set().insert(x));
}

/// Concatenation denotes the union of the denoted sets.
pub proof fn lemma_to_set_append<A>(a: Seq<A>, b: Seq<A>)
    ensures
        (a + b).to_set() == a.to_set().union(b.to_set()),
{
    assert forall|y: A| (a + b).to_set().contains(y) implies a.to_set().union(b.to_set()).contains(
        y,
    ) by {
        let k = choose|k: int| 0 <= k < (a + b).len() && (a + b)[k] == y;
        if k < a.len() {
            assert(a[k] == y);
            assert(a.contains(y));
        } else {
            assert(b[k - a.len()] == y);
            assert(b.contains(y));
        }
    }
    assert forall|y: A| a.to_set().union(b.to_set()).contains(y) implies (a + b).to_set().contains(
        y,
    ) by {
        if a.to_set().contains(y) {
            let k = choose|k: int| 0 <= k < a.len() && a[k] == y;
            assert((a + b)[k] == y);
        } else {
            let k = choose|k: int| 0 <= k < b.len() && b[k] == y;
            assert((a + b)[a.len() + k] == y);
        }
        assert((a + b).contains(y));
    }
    assert((a + b).to_set() =~= a.to_set().union(b.to_set()));
}

/// `interp_of` commutes with push.
pub proof fn lemma_interp_push(v: Seq<isize>, x: isize)
    ensures
        interp_of(v.push(x)) == interp_of(v).insert(x as int),
{
    let f = |y: isize| y as int;
    assert(v.push(x).map_values(f) =~= v.map_values(f).push(x as int));
    lemma_to_set_push(v.map_values(f), x as int);
}

/// `interp_of` turns concatenation into union.
pub proof fn lemma_interp_append(a: Seq<isize>, b: Seq<isize>)
    ensures
        interp_of(a + b) == interp_of(a).union(interp_of(b)),
{
    let f = |y: isize| y as int;
    assert((a + b).map_values(f) =~= a.map_values(f) + b.map_values(f));
    lemma_to_set_append(a.map_values(f), b.map_values(f));
}

/// An empty vector denotes the empty interpretation.
pub proof fn lemma_interp_empty()
    ensures
        interp_of(Seq::<isize>::empty()) == Set::<int>::empty(),
{
    assert(interp_of(Seq::<isize>::empty()) =~= Set::<int>::empty()) by {
        let f = |y: isize| y as int;
        assert(Seq::<isize>::empty().map_values(f).len() == 0);
        if interp_of(Seq::<isize>::empty()) != Set::<int>::empty() {
            lemma_nonempty_witness(interp_of(Seq::<isize>::empty()));
            let x = choose|x: int| interp_of(Seq::<isize>::empty()).contains(x);
            assert(Seq::<isize>::empty().map_values(f).contains(x));
        }
    }
}

/// Semantic facts a well-formed system gives about its view: no clause holds
/// zero, and every literal fits the machine word with room to negate.
pub proof fn lemma_system_sem(s: CNFSystem)
    requires
        s.wf(),
    ensures
        no_zero_lit(s@),
        forall|c: Set<int>, x: int|
            #[trigger] s@.contains(c) && #[trigger] c.contains(x) ==> x != 0 && isize::MIN < x && x
                <= isize::MAX,
{
    s.lemma_view();
    assert forall|c: Set<int>, x: int|
        #[trigger] s@.contains(c) && #[trigger] c.contains(x) implies x != 0 && isize::MIN < x && x
        <= isize::MAX by {
        let i = choose|i: int| 0 <= i < s.cl_seq().len() && s.cl_seq()[i] == c;
        assert(s.clauses@[i].wf());
        s.clauses@[i].lemma_wf_lits();
        assert(s.clauses@[i]@.contains(x));
    }
    assert forall|c: Set<int>| #[trigger] s@.contains(c) implies !c.contains(0) by {
        if c.contains(0) {
            assert(s@.contains(c) && c.contains(0));
        }
    }
}

/// A clause whose literal set is nonempty stores at least one literal.
pub proof fn lemma_clause_nonempty_seq(c: CNFClause)
    requires
        c@ != Set::<int>::empty(),
    ensures
        c.lit_seq().len() > 0,
{
    if c.lit_seq().len() == 0 {
        c.lemma_view();
        assert(c@ =~= Set::<int>::empty()) by {
            if c@ != Set::<int>::empty() {
                lemma_nonempty_witness(c@);
                let x = choose|x: int| c@.contains(x);
                assert(c.lit_seq().contains(x));
            }
        }
    }
}

/// The literals revealed by the first `i` clauses of a stored clause
/// sequence when literal `l` is asserted.
pub open spec fn revealed_upto(cs: Seq<Set<int>>, l: int, i: int) -> Set<int> {
    Set::new(
        |u: int|
            exists|j: int|
                0 <= j < i && (#[trigger] cs[j]).contains(-l) && !cs[j].contains(l) && cs[j].remove(
                    -l,
                ) == set![u],
    )
}

/// Unit propagation of `literal` over the whole system, in one left-to-right
/// pass: clauses containing the literal are dropped, clauses containing its
/// negation lose it, the rest stay.  Returns the newly revealed unit
/// literals, or `None` on conflict (a clause became empty).
pub fn concurrent_dpll_propagate(system: &mut CNFSystem, literal: isize) -> (r: Option<Vec<isize>>)
    requires
        old(system).wf(),
        lit_ok(literal),
    ensures
        final(system).wf(),
        r is None <==> conflict_spec(old(system)@, literal as int),
        r matches Some(units) ==> {
            &&& final(system)@ == propagate_spec(old(system)@, literal as int)
            &&& interp_of(units@) == revealed_spec(old(system)@, literal as int)
            &&& forall|k: int| 0 <= k < units@.len() ==> lit_ok(#[trigger] units@[k])
            &&& final(system).total_lits() <= old(system).total_lits()
            &&& (lit_in(old(system)@, literal as int) || lit_in(
                old(system)@,
                -(literal as int),
            )) ==> final(system).total_lits() < old(system).total_lits()
        },
{
    let ghost s_old = old(system)@;
    let ghost cs = old(system).cl_seq();
    let ghost l = literal as int;
    let neg: isize = -literal;
    let mut new_sys = CNFSystem { clauses: Vec::new() };
    let mut revealed: Vec<isize> = Vec::new();
    let ghost mut touched: bool = false;
    proof {
        old(system).lemma_view();
        assert(new_sys.wf());
        assert(new_sys.lit_seqs() =~= Seq::<Seq<int>>::empty());
        assert(old(system).lit_seqs().take(0) =~= Seq::<Seq<int>>::empty());
        assert(interp_of(revealed@) =~= revealed_upto(cs, l, 0)) by {
            lemma_interp_empty();
            if revealed_upto(cs, l, 0) != Set::<int>::empty() {
                lemma_nonempty_witness(revealed_upto(cs, l, 0));
            }
        }
    }
    let n = system.clauses.len();
    let mut i: usize = 0;
    while i < n
        invariant
            old(system).wf(),
            *system == *old(system),
            lit_ok(literal),
            neg == -literal,
            s_old == old(system)@,
            cs == old(system).cl_seq(),
            l == literal as int,
            n == system.clauses@.len(),
            0 <= i <= n,
            new_sys.wf(),
            // Everything placed so far belongs to the abstract result.
            forall|c: Set<int>| #[trigger]
                new_sys@.contains(c) ==> propagate_spec(s_old, l).contains(c),
            // Each processed clause was dispatched as the operator says.
            forall|j: int|
                0 <= j < i ==> {
                    let c = #[trigger] cs[j];
                    c.contains(l) || (c.contains(-l) && new_sys@.contains(c.remove(-l))) || (
                    !c.contains(l) && !c.contains(-l) && new_sys@.contains(c))
                },
            // No processed clause was the conflict clause.
            forall|j: int| 0 <= j < i ==> #[trigger] cs[j] != set![-l],
            // Revealed units so far are exactly those of the prefix.
            interp_of(revealed@) == revealed_upto(cs, l, i as int),
            forall|k: int| 0 <= k < revealed@.len() ==> lit_ok(#[trigger] revealed@[k]),
            // Size accounting for termination of the callers.
            touched == exists|j: int|
                0 <= j < i && ((#[trigger] cs[j]).contains(l) || cs[j].contains(-l)),
            new_sys.total_lits() <= sum_lens(old(system).lit_seqs().take(i as int)),
            touched ==> new_sys.total_lits() < sum_lens(old(system).lit_seqs().take(i as int)),
        decreases n - i,
    {
        let c = system.clauses[i].clone();
        proof {
            assert(system.clauses@[i as int].wf());
            assert(c.wf());
            assert(c@ == cs[i as int]);
            assert(s_old.contains(cs[i as int])) by {
                old(system).lemma_view();
            }
            assert(old(system).lit_seqs().take(i + 1) =~= old(system).lit_seqs().take(
                i as int,
            ).push(old(system).lit_seqs()[i as int]));
            lemma_sum_lens_push(
                old(system).lit_seqs().take(i as int),
                old(system).lit_seqs()[i as int],
            );
            assert(old(system).lit_seqs()[i as int] == old(system).clauses@[i as int].lit_seq());
            old(system).clauses@[i as int].lemma_wf_card();
            assert(cs[i as int].len() == old(system).lit_seqs()[i as int].len());
        }
        let ghost prefix_sum = sum_lens(old(system).lit_seqs().take(i as int));
        let ghost clen = old(system).lit_seqs()[i as int].len();
        if c.contains(literal) {
            // Satisfied by the asserted literal: drop the whole clause.
            proof {
                assert(cs[i as int].contains(l));
                // The clause is nonempty, so skipping it loses weight.
                c.lemma_view();
                assert(c.lit_seq().contains(l));
                assert(clen >= 1);
                touched = true;
                assert(cs[i as int] != set![-l]) by {
                    if cs[i as int] == set![-l] {
                        assert(set![-l].contains(l));
                        assert(l == -l);
                    }
                }
                assert(interp_of(revealed@) =~= revealed_upto(cs, l, i + 1)) by {
                    assert forall|u: int| revealed_upto(cs, l, i + 1).contains(u) implies
                        revealed_upto(cs, l, i as int).contains(u) by {
                        let j = choose|j: int|
                            0 <= j < i + 1 && (#[trigger] cs[j]).contains(-l) && !cs[j].contains(l)
                                && cs[j].remove(-l) == set![u];
                        assert(j != i);
                    }
                    assert forall|u: int| revealed_upto(cs, l, i as int).contains(u) implies
                        revealed_upto(cs, l, i + 1).contains(u) by {
                        let j = choose|j: int|
                            0 <= j < i && (#[trigger] cs[j]).contains(-l) && !cs[j].contains(l)
                                && cs[j].remove(-l) == set![u];
                    }
                }
            }
        } else if c.contains(neg) {
            // Falsified literal: remove it, then watch the remainder.
            let mut c2 = c;
            let _was_present = c2.remove(&neg);
            proof {
                assert(c2@ == cs[i as int].remove(-l));
                assert(neg as int == -l);
            }
            if c2.is_empty() {
                // The clause held only the negation: conflict.
                proof {
                    assert(cs[i as int] =~= set![-l]) by {
                        assert forall|x: int| cs[i as int].contains(x) implies set![-l].contains(
                            x,
                        ) by {
                            if x != -l {
                                assert(cs[i as int].remove(-l).contains(x));
                            }
                        }
                    }
                    assert(s_old.contains(set![-l]));
                    assert(conflict_spec(s_old, l));
                }
                return None;
            }
            proof {
                assert(cs[i as int] != set![-l]) by {
                    if cs[i as int] == set![-l] {
                        assert(cs[i as int].remove(-l) =~= Set::<int>::empty());
                    }
                }
                assert(clen >= 1) by {
                    old(system).clauses@[i as int].lemma_view();
                    assert(old(system).clauses@[i as int].lit_seq().contains(-l));
                }
            }
            match c2.get_unit() {
                Some(u) => {
                    proof {
                        assert(c2@ == set![u as int]);
                        c2.lemma_wf_lits();
                        assert(c2@.contains(u as int));
                        assert(lit_ok(u)) by {
                            assert(u as int != 0 && isize::MIN < u as int);
                        }
                    }
                    let ghost prev_rev = revealed@;
                    revealed.push(u);
                    proof {
                        lemma_interp_push(prev_rev, u);
                        assert(interp_of(revealed@) =~= revealed_upto(cs, l, i + 1)) by {
                            assert forall|w: int| revealed_upto(cs, l, i + 1).contains(w) implies
                                interp_of(revealed@).contains(w) by {
                                let j = choose|j: int|
                                    0 <= j < i + 1 && (#[trigger] cs[j]).contains(-l)
                                        && !cs[j].contains(l) && cs[j].remove(-l) == set![w];
                                if j < i {
                                    assert(revealed_upto(cs, l, i as int).contains(w));
                                } else {
                                    assert(cs[i as int].remove(-l) == set![w]);
                                    assert(set![u as int].contains(u as int));
                                    assert(set![w].contains(w));
                                    assert(w == u as int);
                                }
                            }
                            assert forall|w: int| interp_of(revealed@).contains(w) implies
                                revealed_upto(cs, l, i + 1).contains(w) by {
                                if w == u as int {
                                    assert(cs[i as int].contains(-l) && !cs[i as int].contains(l)
                                        && cs[i as int].remove(-l) == set![u as int]) by {
                                        assert(c2@ =~= set![u as int]);
                                    }
                                } else {
                                    assert(revealed_upto(cs, l, i as int).contains(w));
                                    let j = choose|j: int|
                                        0 <= j < i && (#[trigger] cs[j]).contains(-l)
                                            && !cs[j].contains(l) && cs[j].remove(-l) == set![w];
                                }
                            }
                        }
                    }
                },
                None => {
                    proof {
                        assert(interp_of(revealed@) =~= revealed_upto(cs, l, i + 1)) by {
                            assert forall|w: int| revealed_upto(cs, l, i + 1).contains(w) implies
                                interp_of(revealed@).contains(w) by {
                                let j = choose|j: int|
                                    0 <= j < i + 1 && (#[trigger] cs[j]).contains(-l)
                                        && !cs[j].contains(l) && cs[j].remove(-l) == set![w];
                                if j < i {
                                    assert(revealed_upto(cs, l, i as int).contains(w));
                                } else {
                                    // The remainder is not a singleton.
                                    assert(cs[i as int].remove(-l) == set![w]);
                                    assert(c2@ == set![w]);
                                    c2.lemma_wf_card();
                                    assert(set![w].len() == 1) by {
                                        assert(set![w] =~= Set::<int>::empty().insert(w));
                                    }
                                    assert(c2.lit_seq().len() == 1);
                                }
                            }
                            assert forall|w: int| interp_of(revealed@).contains(w) implies
                                revealed_upto(cs, l, i + 1).contains(w) by {
                                assert(revealed_upto(cs, l, i as int).contains(w));
                                let j = choose|j: int|
                                    0 <= j < i && (#[trigger] cs[j]).contains(-l)
                                        && !cs[j].contains(l) && cs[j].remove(-l) == set![w];
                            }
                        }
                    }
                },
            }
            let ghost pre_add = new_sys;
            let _added = new_sys.add_clause(c2);
            proof {
                // The reduced clause belongs to the abstract result.
                assert(propagate_spec(s_old, l).contains(c2@)) by {
                    assert(s_old.contains(cs[i as int]) && cs[i as int].contains(-l)
                        && !cs[i as int].contains(l) && c2@ == cs[i as int].remove(-l));
                }
                assert forall|x: Set<int>| #[trigger] new_sys@.contains(x) implies propagate_spec(
                    s_old,
                    l,
                ).contains(x) by {
                    if x != c2@ {
                        assert(pre_add@.contains(x));
                    }
                }
                // Weight: the reduced clause is one literal lighter.
                touched = true;
                if _added {
                    lemma_sum_lens_push(pre_add.lit_seqs(), c2.lit_seq());
                    assert(new_sys.lit_seqs() =~= pre_add.lit_seqs().push(c2.lit_seq()));
                    c2.lemma_wf_card();
                    broadcast use vstd::set::group_set_axioms;

                    old(system).clauses@[i as int].lemma_view();
                    assert(cs[i as int].finite());
                    assert(cs[i as int].remove(-l).len() == cs[i as int].len() - 1);
                    assert(c2.lit_seq().len() == clen - 1);
                }
                // Dispatch record for this clause.
                assert(new_sys@.contains(cs[i as int].remove(-l)));
            }
        } else {
            // Untouched: carry the clause over.
            let ghost pre_add = new_sys;
            proof {
                assert(neg as int == -l);
                assert(cs[i as int] != set![-l]) by {
                    assert(set![-l].contains(-l));
                }
            }
            let _added = new_sys.add_clause(c);
            proof {
                assert(propagate_spec(s_old, l).contains(cs[i as int])) by {
                    assert(s_old.contains(cs[i as int]) && !cs[i as int].contains(l)
                        && !cs[i as int].contains(-l));
                }
                assert forall|x: Set<int>| #[trigger] new_sys@.contains(x) implies propagate_spec(
                    s_old,
                    l,
                ).contains(x) by {
                    if x != c@ {
                        assert(pre_add@.contains(x));
                    }
                }
                if _added {
                    lemma_sum_lens_push(pre_add.lit_seqs(), c.lit_seq());
                    assert(new_sys.lit_seqs() =~= pre_add.lit_seqs().push(c.lit_seq()));
                    assert(c.lit_seq().len() == clen);
                }
                assert(new_sys@.contains(cs[i as int]));
                assert(interp_of(revealed@) =~= revealed_upto(cs, l, i + 1)) by {
                    assert forall|u: int| revealed_upto(cs, l, i + 1).contains(u) implies
                        revealed_upto(cs, l, i as int).contains(u) by {
                        let j = choose|j: int|
                            0 <= j < i + 1 && (#[trigger] cs[j]).contains(-l) && !cs[j].contains(l)
                                && cs[j].remove(-l) == set![u];
                        assert(j != i);
                    }
                    assert forall|u: int| revealed_upto(cs, l, i as int).contains(u) implies
                        revealed_upto(cs, l, i + 1).contains(u) by {
                        let j = choose|j: int|
                            0 <= j < i && (#[trigger] cs[j]).contains(-l) && !cs[j].contains(l)
                                && cs[j].remove(-l) == set![u];
                    }
                }
            }
        }
        i += 1;
    }
    proof {
        // No conflict clause anywhere, so no conflict.
        assert(!conflict_spec(s_old, l)) by {
            if s_old.contains(set![-l]) {
                old(system).lemma_view();
                let j = choose|j: int| 0 <= j < cs.len() && cs[j] == set![-l];
                assert(cs[j] != set![-l]);
            }
        }
        // The built system is exactly the abstract result.
        assert(new_sys@ =~= propagate_spec(s_old, l)) by {
            assert forall|c: Set<int>| propagate_spec(s_old, l).contains(c) implies
                new_sys@.contains(c) by {
                if s_old.contains(c) && !c.contains(l) && !c.contains(-l) {
                    old(system).lemma_view();
                    let j = choose|j: int| 0 <= j < cs.len() && cs[j] == c;
                    assert(cs[j] == c);
                } else {
                    let c0 = choose|c0: Set<int>|
                        #[trigger] s_old.contains(c0) && c0.contains(-l) && !c0.contains(l) && c
                            == c0.remove(-l);
                    old(system).lemma_view();
                    let j = choose|j: int| 0 <= j < cs.len() && cs[j] == c0;
                    assert(cs[j] == c0);
                }
            }
        }
        // Revealed units are exactly those of the whole pass.
        assert(interp_of(revealed@) =~= revealed_spec(s_old, l)) by {
            assert forall|u: int| revealed_upto(cs, l, n as int).contains(u) implies
                revealed_spec(s_old, l).contains(u) by {
                let j = choose|j: int|
                    0 <= j < n && (#[trigger] cs[j]).contains(-l) && !cs[j].contains(l)
                        && cs[j].remove(-l) == set![u];
                old(system).lemma_view();
                assert(s_old.contains(cs[j]));
            }
            assert forall|u: int| revealed_spec(s_old, l).contains(u) implies revealed_upto(
                cs,
                l,
                n as int,
            ).contains(u) by {
                let c0 = choose|c0: Set<int>|
                    #[trigger] s_old.contains(c0) && c0.contains(-l) && !c0.contains(l)
                        && c0.remove(-l) == set![u];
                old(system).lemma_view();
                let j = choose|j: int| 0 <= j < cs.len() && cs[j] == c0;
                assert((cs[j]).contains(-l) && !cs[j].contains(l) && cs[j].remove(-l) == set![u]);
            }
        }
        // Weight bookkeeping over the whole pass.
        assert(old(system).lit_seqs().take(n as int) =~= old(system).lit_seqs());
        if lit_in(s_old, l) || lit_in(s_old, -l) {
            let c = choose|c: Set<int>| #[trigger] s_old.contains(c) && (c.contains(l)
                || c.contains(-l));
            old(system).lemma_view();
            let j = choose|j: int| 0 <= j < cs.len() && cs[j] == c;
            assert(cs[j].contains(l) || cs[j].contains(-l));
            assert(touched);
        }
    }
    *system = new_sys;
    Some(revealed)
}


/// What exhausting unit propagation can end in: a conflict, a system with
/// no clause left, or quiescence with clauses remaining.
enum Propagation {
    Conflict,
    Satisfied,
    Quiesced,
}

/// Exhaust unit propagation: assert each pending literal, collecting the
/// newly revealed units of each generation for the next, until a conflict
/// arises, the system runs empty, or no pending literal is left.  `s0` is
/// the formula the search started from, to which the guarantees refer.
#[verifier::loop_isolation(false)]
#[verifier::rlimit(100)]
fn dpll_propagate_all(
    system: &mut CNFSystem,
    units: Vec<isize>,
    interpretation: &mut Vec<isize>,
    Ghost(s0): Ghost<Set<Set<int>>>,
) -> (r: Propagation)
    requires
        old(system).wf(),
        search_inv(s0, old(system)@, interp_of(old(interpretation)@)),
        forall|k: int|
            0 <= k < units@.len() ==> lit_ok(#[trigger] units@[k]) && unit_ok(
                old(system)@,
                interp_of(old(interpretation)@),
                units@[k] as int,
            ),
    ensures
        final(system).wf(),
        !(r is Conflict) ==> final(system).total_lits() <= old(system).total_lits(),
        !(r is Conflict) ==> search_inv(s0, final(system)@, interp_of(final(interpretation)@)),
        r is Conflict ==> forall|m: Set<int>| consistent(m) ==> !(#[trigger] sat(m, s0)),
        r is Satisfied ==> final(system)@ == Set::<Set<int>>::empty(),
{
    let ghost t0 = system.total_lits();
    let mut current_units = units;
    while current_units.len() > 0
        invariant
            system.wf(),
            search_inv(s0, system@, interp_of(interpretation@)),
            forall|k: int|
                0 <= k < current_units@.len() ==> lit_ok(#[trigger] current_units@[k]) && unit_ok(
                    system@,
                    interp_of(interpretation@),
                    current_units@[k] as int,
                ),
            system.total_lits() <= t0,
        decreases system.total_lits(), current_units@.len(),
    {
        let mut revealed: Vec<isize> = Vec::new();
        let ghost gen0 = system.total_lits();
        let gen_len = current_units.len();
        let mut idx: usize = 0;
        while idx < gen_len
            invariant
                system.wf(),
                search_inv(s0, system@, interp_of(interpretation@)),
                forall|k: int|
                    0 <= k < current_units@.len() ==> lit_ok(#[trigger] current_units@[k])
                        && unit_ok(
                        system@,
                        interp_of(interpretation@),
                        current_units@[k] as int,
                    ),
                forall|k: int|
                    0 <= k < revealed@.len() ==> lit_ok(#[trigger] revealed@[k]) && unit_ok(
                        system@,
                        interp_of(interpretation@),
                        revealed@[k] as int,
                    ),
                idx <= gen_len,
                system.total_lits() <= gen0,
                revealed@.len() > 0 ==> system.total_lits() < gen0,
            decreases gen_len - idx,
        {
            let u = current_units[idx];
            let ghost prior = *system;
            let ghost iview = interp_of(interpretation@);
            match concurrent_dpll_propagate(system, u) {
                None => {
                    // A clause went empty: the formula forces u both ways.
                    proof {
                        lemma_search_conflict(s0, prior@, iview, u as int);
                    }
                    return Propagation::Conflict;
                },
                Some(mut new_units) => {
                    proof {
                        lemma_search_step(s0, prior@, system@, iview, u as int);
                    }
                    let ghost pre_i = interpretation@;
                    interpretation.push(u);
                    proof {
                        lemma_interp_push(pre_i, u);
                    }
                    let ghost pre_rev = revealed@;
                    let ghost new_view = new_units@;
                    revealed.append(&mut new_units);
                    proof {
                        assert(revealed@ == pre_rev + new_view);
                        let iview2 = interp_of(interpretation@);
                        assert forall|k: int| 0 <= k < revealed@.len() implies lit_ok(
                            #[trigger] revealed@[k],
                        ) && unit_ok(system@, iview2, revealed@[k] as int) by {
                            if k < pre_rev.len() {
                                assert(revealed@[k] == pre_rev[k]);
                                assert(unit_ok(prior@, iview, pre_rev[k] as int));
                            } else {
                                let v = new_view[k - pre_rev.len()];
                                assert(revealed@[k] == v);
                                assert(interp_of(new_view).contains(v as int)) by {
                                    let f = |y: isize| y as int;
                                    assert(new_view.map_values(f)[k - pre_rev.len()] == v as int);
                                    assert(new_view.map_values(f).contains(v as int));
                                }
                                assert(revealed_spec(prior@, u as int).contains(v as int));
                            }
                        }
                        assert forall|k: int| 0 <= k < current_units@.len() implies unit_ok(
                            system@,
                            iview2,
                            #[trigger] current_units@[k] as int,
                        ) by {
                            assert(unit_ok(prior@, iview, current_units@[k] as int));
                        }
                    }
                    if system.len() == 0 {
                        proof {
                            assert(system@ =~= Set::<Set<int>>::empty()) by {
                                system.lemma_view();
                            }
                        }
                        return Propagation::Satisfied;
                    }
                    proof {
                        // A revealed unit came from a clause that shrank.
                        if revealed@.len() > 0 && !(pre_rev.len() > 0) {
                            let v = new_view[0];
                            assert(interp_of(new_view).contains(v as int)) by {
                                let f = |y: isize| y as int;
                                assert(new_view.map_values(f)[0] == v as int);
                                assert(new_view.map_values(f).contains(v as int));
                            }
                            assert(revealed_spec(prior@, u as int).contains(v as int));
                            let c0 = choose|c0: Set<int>| #[trigger]
                                prior@.contains(c0) && c0.contains(-(u as int)) && !c0.contains(
                                    u as int,
                                ) && c0.remove(-(u as int)) == set![v as int];
                            assert(lit_in(prior@, -(u as int)));
                        }
                    }
                },
            }
            idx += 1;
        }
        current_units = revealed;
    }
    Propagation::Quiesced
}

/// Decide satisfiability of `system` by DPLL.  `units` are literals of unit
/// clauses of `system`, as the parser hands them over; propagation exhausts
/// them generation by generation, then the search decides on the first
/// literal of the first clause, in canonical order, and explores both
/// polarities in turn.  `thread_count` is the decision budget the interface
/// passes down the recursion; the verdict does not depend on it.
///
/// The verdict is never `Tautology`.  On `Satisfiable` the returned literals
/// form a consistent interpretation, drawn from the input's variables, that
/// satisfies every clause of the input.  On `Unsatisfiable` no consistent
/// assignment deciding all the input's variables satisfies it.
pub fn concurrent_dpll(system: CNFSystem, units: Vec<isize>, thread_count: isize) -> (r: (
    ClauseType,
    Vec<isize>,
))
    requires
        system.wf(),
        no_empty_clause(system@),
        forall|k: int|
            0 <= k < units@.len() ==> lit_ok(#[trigger] units@[k]) && system@.contains(
                set![units@[k] as int],
            ),
    ensures
        r.0 != ClauseType::Tautology,
        r.0 == ClauseType::Satisfiable ==> consistent(interp_of(r.1@)) && sat(
            interp_of(r.1@),
            system@,
        ) && (forall|x: int| #[trigger]
            interp_of(r.1@).contains(x) ==> lit_in(system@, x) || lit_in(system@, -x)),
        r.0 == ClauseType::Unsatisfiable ==> forall|m: Set<int>|
            consistent(m) && total_on(m, system@) ==> !(#[trigger] sat(m, system@)),
    decreases system.total_lits(), 2int,
{
    let ghost s0 = system@;
    let mut system = system;
    let mut interpretation: Vec<isize> = Vec::new();
    proof {
        lemma_shrinks_refl(s0);
        lemma_interp_empty();
        assert(search_inv(s0, system@, interp_of(interpretation@)));
        assert forall|k: int| 0 <= k < units@.len() implies lit_ok(#[trigger] units@[k])
            && unit_ok(system@, interp_of(interpretation@), units@[k] as int) by {
            assert(system@.contains(set![units@[k] as int]));
        }
    }
    match dpll_propagate_all(&mut system, units, &mut interpretation, Ghost(s0)) {
        Propagation::Conflict => (ClauseType::Unsatisfiable, interpretation),
        Propagation::Satisfied => {
            proof {
                lemma_search_done(s0, system@, interp_of(interpretation@));
            }
            (ClauseType::Satisfiable, interpretation)
        },
        Propagation::Quiesced => {
            if system.len() == 0 {
                // The vacuous conjunction: satisfiable as it stands.
                proof {
                    assert(system@ =~= Set::<Set<int>>::empty()) by {
                        system.lemma_view();
                    }
                    lemma_search_done(s0, system@, interp_of(interpretation@));
                }
                return (ClauseType::Satisfiable, interpretation);
            }
            proof {
                system.lemma_view();
                assert(system@.contains(system.cl_seq()[0]));
                assert(system@ != Set::<Set<int>>::empty());
            }
            dpll_decide(system, interpretation, thread_count, Ghost(s0))
        },
    }
}


/// The decision step: pick the first literal of the first clause, in
/// canonical order, and explore both polarities in turn, joining the branch
/// result onto the interpretation built so far.  `s0` is the formula the
/// search started from, to which the guarantees refer.
fn dpll_decide(
    system: CNFSystem,
    interpretation: Vec<isize>,
    thread_count: isize,
    Ghost(s0): Ghost<Set<Set<int>>>,
) -> (r: (ClauseType, Vec<isize>))
    requires
        system.wf(),
        system@ != Set::<Set<int>>::empty(),
        search_inv(s0, system@, interp_of(interpretation@)),
    ensures
        r.0 != ClauseType::Tautology,
        r.0 == ClauseType::Satisfiable ==> consistent(interp_of(r.1@)) && sat(interp_of(r.1@), s0)
            && (forall|x: int| #[trigger]
            interp_of(r.1@).contains(x) ==> lit_in(s0, x) || lit_in(s0, -x)),
        r.0 == ClauseType::Unsatisfiable ==> forall|m: Set<int>|
            consistent(m) && total_on(m, s0) ==> !(#[trigger] sat(m, s0)),
    decreases system.total_lits(), 1int,
{
    proof {
        // A nonempty clause set means a stored clause exists.
        if system.clauses@.len() == 0 {
            system.lemma_view();
            assert(system@ =~= Set::<Set<int>>::empty());
        }
        system.lemma_view();
        assert(system@.contains(system.cl_seq()[0]));
        assert(system.cl_seq()[0] != Set::<int>::empty());
        lemma_clause_nonempty_seq(system.clauses@[0]);
        system.clauses@[0].lemma_view();
        system.clauses@[0].lemma_wf_lits();
    }
    let first_lits = system.clauses[0].iter();
    let d = first_lits[0];
    let ghost s_cur = system@;
    let ghost iview = interp_of(interpretation@);
    let ghost dc = system.cl_seq()[0];
    proof {
        let f = |y: isize| y as int;
        assert(first_lits@.map_values(f)[0] == d as int);
        assert(d as int == system.clauses@[0].lit_seq()[0]);
        assert(dc.contains(d as int)) by {
            assert(system.clauses@[0].lit_seq().contains(d as int));
        }
        assert(lit_in(s_cur, d as int)) by {
            assert(s_cur.contains(dc) && dc.contains(d as int));
        }
        assert(lit_ok(d)) by {
            assert(d as int != 0 && isize::MIN < d as int);
        }
    }
    let next_budget: isize = if thread_count >= 2 {
        thread_count - 2
    } else {
        0
    };
    let pos_system = system.clone();
    let pos_result = dpll_branch(pos_system, d, next_budget);
    let is_pos_sat = match pos_result.0 {
        ClauseType::Satisfiable => true,
        _ => false,
    };
    if is_pos_sat {
        let mut out = interpretation;
        let mut branch_interp = pos_result.1;
        let ghost pre_out = out@;
        let ghost bseq = branch_interp@;
        let ghost bview = interp_of(bseq);
        out.append(&mut branch_interp);
        proof {
            lemma_interp_append(pre_out, bseq);
            lemma_decision_sat(s0, s_cur, iview, bview, d as int);
            assert(interp_of(out@) == iview.union(bview));
        }
        return (ClauseType::Satisfiable, out);
    }
    let neg: isize = -d;
    let neg_result = dpll_branch(system, neg, next_budget);
    let is_neg_sat = match neg_result.0 {
        ClauseType::Satisfiable => true,
        _ => false,
    };
    if is_neg_sat {
        let mut out = interpretation;
        let mut branch_interp = neg_result.1;
        let ghost pre_out = out@;
        let ghost bseq = branch_interp@;
        let ghost bview = interp_of(bseq);
        out.append(&mut branch_interp);
        proof {
            assert(neg as int == -(d as int));
            lemma_interp_append(pre_out, bseq);
            lemma_decision_sat(s0, s_cur, iview, bview, neg as int);
            assert(interp_of(out@) == iview.union(bview));
        }
        return (ClauseType::Satisfiable, out);
    }
    // Both polarities refuted.
    proof {
        assert(neg as int == -(d as int));
        lemma_decision_unsat(s0, s_cur, iview, dc, d as int);
    }
    (ClauseType::Unsatisfiable, neg_result.1)
}

/// One polarity of a decision: assert `lit` on the branch's own copy of the
/// system, then search on.  On `Satisfiable` the interpretation contains
/// `lit`, is consistent, satisfies the branch's system, and speaks only of
/// its variables or of `lit`; on `Unsatisfiable` no consistent assignment
/// that decides the system's variables and makes `lit` true satisfies it.
fn dpll_branch(branch_sys: CNFSystem, lit: isize, budget: isize) -> (r: (ClauseType, Vec<isize>))
    requires
        branch_sys.wf(),
        no_empty_clause(branch_sys@),
        lit_ok(lit),
        lit_in(branch_sys@, lit as int) || lit_in(branch_sys@, -(lit as int)),
    ensures
        r.0 != ClauseType::Tautology,
        r.0 == ClauseType::Satisfiable ==> consistent(interp_of(r.1@)) && interp_of(r.1@).contains(
            lit as int,
        ) && sat(interp_of(r.1@), branch_sys@) && (forall|x: int| #[trigger]
            interp_of(r.1@).contains(x) ==> lit_in(branch_sys@, x) || lit_in(branch_sys@, -x) || x
                == lit as int),
        r.0 == ClauseType::Unsatisfiable ==> forall|m: Set<int>|
            consistent(m) && total_on(m, branch_sys@) && m.contains(lit as int) ==> !(
            #[trigger] sat(m, branch_sys@)),
    decreases branch_sys.total_lits(), 0int,
{
    let ghost sb = branch_sys@;
    let ghost tb = branch_sys.total_lits();
    let mut sys = branch_sys;
    match concurrent_dpll_propagate(&mut sys, lit) {
        None => {
            proof {
                lemma_branch_conflict(sb, lit as int);
            }
            (ClauseType::Unsatisfiable, Vec::new())
        },
        Some(new_units) => {
            let ghost snew = sys@;
            proof {
                lemma_propagate_nonempty(sb, lit as int);
                lemma_propagate_structure(sb, lit as int);
            }
            if sys.len() == 0 {
                let mut out: Vec<isize> = Vec::new();
                out.push(lit);
                proof {
                    lemma_interp_empty();
                    lemma_interp_push(Seq::<isize>::empty(), lit);
                    assert(snew =~= Set::<Set<int>>::empty()) by {
                        sys.lemma_view();
                    }
                    assert(sat(Set::<int>::empty(), snew));
                    lemma_branch_sat(sb, snew, Set::<int>::empty(), lit as int);
                    assert(interp_of(out@) == Set::<int>::empty().insert(lit as int));
                }
                (ClauseType::Satisfiable, out)
            } else {
                proof {
                    assert(sys.total_lits() < tb);
                    assert forall|k: int| 0 <= k < new_units@.len() implies lit_ok(
                        #[trigger] new_units@[k],
                    ) && snew.contains(set![new_units@[k] as int]) by {
                        let v = new_units@[k];
                        assert(interp_of(new_units@).contains(v as int)) by {
                            let f = |y: isize| y as int;
                            assert(new_units@.map_values(f)[k] == v as int);
                            assert(new_units@.map_values(f).contains(v as int));
                        }
                        assert(revealed_spec(sb, lit as int).contains(v as int));
                    }
                }
                let rec = concurrent_dpll(sys, new_units, budget);
                let is_sat = match rec.0 {
                    ClauseType::Satisfiable => true,
                    _ => false,
                };
                if is_sat {
                    let mut out = rec.1;
                    let ghost pre = out@;
                    out.push(lit);
                    proof {
                        lemma_interp_push(pre, lit);
                        lemma_branch_sat(sb, snew, interp_of(pre), lit as int);
                    }
                    (ClauseType::Satisfiable, out)
                } else {
                    proof {
                        lemma_branch_unsat(sb, snew, lit as int);
                    }
                    (ClauseType::Unsatisfiable, rec.1)
                }
            }
        },
    }
}


/// Unit propagation for the basic engine: same pass as
/// [`concurrent_dpll_propagate`], reporting only whether the system stayed
/// free of the empty clause (true) or a conflict arose (false).
pub fn basic_dpll_propagate(system: &mut CNFSystem, literal: isize) -> (r: bool)
    requires
        old(system).wf(),
        lit_ok(literal),
    ensures
        final(system).wf(),
        !r <==> conflict_spec(old(system)@, literal as int),
        r ==> final(system)@ == propagate_spec(old(system)@, literal as int),
        r ==> final(system).total_lits() <= old(system).total_lits(),
        r && (lit_in(old(system)@, literal as int) || lit_in(old(system)@, -(literal as int)))
            ==> final(system).total_lits() < old(system).total_lits(),
{
    match concurrent_dpll_propagate(system, literal) {
        Some(_) => true,
        None => false,
    }
}

/// Find a unit literal: the literal of the first clause in storage order
/// that holds exactly one.  `None` exactly when no clause is a unit.
pub fn basic_dpll_get_unit_literal(system: &CNFSystem) -> (r: Option<isize>)
    requires
        system.wf(),
    ensures
        match r {
            Some(u) => lit_ok(u) && system@.contains(set![u as int]),
            None => forall|c: Set<int>| #[trigger] system@.contains(c) ==> c.len() != 1,
        },
{
    let n = system.clauses.len();
    let mut i: usize = 0;
    while i < n
        invariant
            system.wf(),
            n == system.clauses@.len(),
            0 <= i <= n,
            forall|j: int| 0 <= j < i ==> (#[trigger] system.clauses@[j]).lit_seq().len() != 1,
        decreases n - i,
    {
        match system.clauses[i].get_unit() {
            Some(u) => {
                proof {
                    let c = system.clauses@[i as int];
                    assert(c@ == set![u as int]);
                    system.lemma_view();
                    assert(system@.contains(system.cl_seq()[i as int]));
                    c.lemma_wf_lits();
                    assert(c@.contains(u as int)) by {
                        assert(set![u as int].contains(u as int));
                    }
                    assert(lit_ok(u)) by {
                        assert(u as int != 0 && isize::MIN < u as int);
                    }
                }
                return Some(u);
            },
            None => {},
        }
        i += 1;
    }
    proof {
        assert forall|c: Set<int>| #[trigger] system@.contains(c) implies c.len() != 1 by {
            system.lemma_view();
            let j = choose|j: int| 0 <= j < system.cl_seq().len() && system.cl_seq()[j] == c;
            assert(system.clauses@[j].lit_seq().len() != 1);
            system.clauses@[j].lemma_wf_card();
        }
    }
    None
}

/// Decide satisfiability by the basic DPLL loop: repeatedly find some unit
/// clause and propagate its literal; when none is left, decide on the first
/// literal of the first clause and explore both polarities in turn.
///
/// Same guarantees as [`concurrent_dpll`]: the verdict is never
/// `Tautology`; on `Satisfiable` the returned interpretation is consistent,
/// drawn from the input's variables, and satisfies every input clause; on
/// `Unsatisfiable` no consistent assignment deciding all the input's
/// variables satisfies it.
#[verifier::loop_isolation(false)]
#[verifier::rlimit(100)]
pub fn basic_dpll(system: &mut CNFSystem) -> (r: (ClauseType, Vec<isize>))
    requires
        old(system).wf(),
        no_empty_clause(old(system)@),
    ensures
        final(system).wf(),
        r.0 != ClauseType::Tautology,
        r.0 == ClauseType::Satisfiable ==> consistent(interp_of(r.1@)) && sat(
            interp_of(r.1@),
            old(system)@,
        ) && (forall|x: int| #[trigger]
            interp_of(r.1@).contains(x) ==> lit_in(old(system)@, x) || lit_in(old(system)@, -x)),
        r.0 == ClauseType::Unsatisfiable ==> forall|m: Set<int>|
            consistent(m) && total_on(m, old(system)@) ==> !(#[trigger] sat(m, old(system)@)),
    decreases old(system).total_lits(), 2int,
{
    let ghost s0 = old(system)@;
    let ghost t0 = old(system).total_lits();
    let mut interpretation: Vec<isize> = Vec::new();
    proof {
        lemma_shrinks_refl(s0);
        lemma_interp_empty();
    }
    loop
        invariant
            system.wf(),
            search_inv(s0, system@, interp_of(interpretation@)),
            forall|k: int| 0 <= k < interpretation@.len() ==> lit_ok(#[trigger] interpretation@[k]),
            system.total_lits() <= t0,
        decreases system.total_lits(),
    {
        if system.len() == 0 {
            proof {
                assert(system@ =~= Set::<Set<int>>::empty()) by {
                    system.lemma_view();
                }
                lemma_search_done(s0, system@, interp_of(interpretation@));
            }
            return (ClauseType::Satisfiable, interpretation);
        }
        match basic_dpll_get_unit_literal(system) {
            Some(literal) => {
                let ghost prior = *system;
                let ghost iview = interp_of(interpretation@);
                if !basic_dpll_propagate(system, literal) {
                    proof {
                        lemma_search_conflict(s0, prior@, iview, literal as int);
                    }
                    return (ClauseType::Unsatisfiable, interpretation);
                }
                let ghost pre_i = interpretation@;
                interpretation.push(literal);
                proof {
                    lemma_search_step(s0, prior@, system@, iview, literal as int);
                    lemma_interp_push(pre_i, literal);
                    // The unit clause was in the system, so weight dropped.
                    assert(set![literal as int].contains(literal as int));
                    assert(lit_in(prior@, literal as int));
                }
            },
            None => {
                // No unit left: hand the system to the decision step,
                // leaving an empty one behind.
                proof {
                    system.lemma_view();
                    assert(system@.contains(system.cl_seq()[0]));
                    assert(system@ != Set::<Set<int>>::empty());
                }
                let mut this_system = CNFSystem { clauses: Vec::new() };
                core::mem::swap(&mut this_system, system);
                proof {
                    assert(system.wf());
                }
                return basic_dpll_decide(this_system, interpretation, Ghost(s0));
            },
        }
    }
}

/// The decision step of the basic engine: pick the first literal of the
/// first clause, in canonical order, and explore both polarities with
/// [`basic_dpll_branch`], joining the branch result onto the interpretation
/// built so far.  `s0` is the formula the search started from.
fn basic_dpll_decide(
    system: CNFSystem,
    interpretation: Vec<isize>,
    Ghost(s0): Ghost<Set<Set<int>>>,
) -> (r: (ClauseType, Vec<isize>))
    requires
        system.wf(),
        system@ != Set::<Set<int>>::empty(),
        search_inv(s0, system@, interp_of(interpretation@)),
    ensures
        r.0 != ClauseType::Tautology,
        r.0 == ClauseType::Satisfiable ==> consistent(interp_of(r.1@)) && sat(interp_of(r.1@), s0)
            && (forall|x: int| #[trigger]
            interp_of(r.1@).contains(x) ==> lit_in(s0, x) || lit_in(s0, -x)),
        r.0 == ClauseType::Unsatisfiable ==> forall|m: Set<int>|
            consistent(m) && total_on(m, s0) ==> !(#[trigger] sat(m, s0)),
    decreases system.total_lits(), 1int,
{
    proof {
        // A nonempty clause set means a stored clause exists.
        if system.clauses@.len() == 0 {
            system.lemma_view();
            assert(system@ =~= Set::<Set<int>>::empty());
        }
        system.lemma_view();
        assert(system@.contains(system.cl_seq()[0]));
        assert(system.cl_seq()[0] != Set::<int>::empty());
        lemma_clause_nonempty_seq(system.clauses@[0]);
        system.clauses@[0].lemma_view();
        system.clauses@[0].lemma_wf_lits();
    }
    let first_lits = system.clauses[0].iter();
    let d = first_lits[0];
    let ghost s_cur = system@;
    let ghost iview = interp_of(interpretation@);
    let ghost dc = system.cl_seq()[0];
    proof {
        let f = |y: isize| y as int;
        assert(first_lits@.map_values(f)[0] == d as int);
        assert(d as int == system.clauses@[0].lit_seq()[0]);
        assert(dc.contains(d as int)) by {
            assert(system.clauses@[0].lit_seq().contains(d as int));
        }
        assert(lit_in(s_cur, d as int)) by {
            assert(s_cur.contains(dc) && dc.contains(d as int));
        }
        assert(lit_ok(d)) by {
            assert(d as int != 0 && isize::MIN < d as int);
        }
    }
    let other_system = system.clone();
    let pos_result = basic_dpll_branch(system, d);
    let is_pos_sat = match pos_result.0 {
        ClauseType::Satisfiable => true,
        _ => false,
    };
    if is_pos_sat {
        let mut out = interpretation;
        let mut branch_interp = pos_result.1;
        let ghost pre_out = out@;
        let ghost bseq = branch_interp@;
        let ghost bview = interp_of(bseq);
        out.append(&mut branch_interp);
        proof {
            lemma_interp_append(pre_out, bseq);
            lemma_decision_sat(s0, s_cur, iview, bview, d as int);
            assert(interp_of(out@) == iview.union(bview));
        }
        return (ClauseType::Satisfiable, out);
    }
    let neg: isize = -d;
    let neg_result = basic_dpll_branch(other_system, neg);
    let is_neg_sat = match neg_result.0 {
        ClauseType::Satisfiable => true,
        _ => false,
    };
    if is_neg_sat {
        let mut out = interpretation;
        let mut branch_interp = neg_result.1;
        let ghost pre_out = out@;
        let ghost bseq = branch_interp@;
        let ghost bview = interp_of(bseq);
        out.append(&mut branch_interp);
        proof {
            assert(neg as int == -(d as int));
            lemma_interp_append(pre_out, bseq);
            lemma_decision_sat(s0, s_cur, iview, bview, neg as int);
            assert(interp_of(out@) == iview.union(bview));
        }
        return (ClauseType::Satisfiable, out);
    }
    // Both polarities refuted.
    proof {
        assert(neg as int == -(d as int));
        lemma_decision_unsat(s0, s_cur, iview, dc, d as int);
    }
    (ClauseType::Unsatisfiable, neg_result.1)
}

/// One polarity of a decision for the basic engine: assert `lit` on the
/// branch's own system and search on with [`basic_dpll`].  Same contract as
/// the concurrent engine's branch.
fn basic_dpll_branch(branch_sys: CNFSystem, lit: isize) -> (r: (ClauseType, Vec<isize>))
    requires
        branch_sys.wf(),
        no_empty_clause(branch_sys@),
        lit_ok(lit),
        lit_in(branch_sys@, lit as int) || lit_in(branch_sys@, -(lit as int)),
    ensures
        r.0 != ClauseType::Tautology,
        r.0 == ClauseType::Satisfiable ==> consistent(interp_of(r.1@)) && interp_of(r.1@).contains(
            lit as int,
        ) && sat(interp_of(r.1@), branch_sys@) && (forall|x: int| #[trigger]
            interp_of(r.1@).contains(x) ==> lit_in(branch_sys@, x) || lit_in(branch_sys@, -x) || x
                == lit as int),
        r.0 == ClauseType::Unsatisfiable ==> forall|m: Set<int>|
            consistent(m) && total_on(m, branch_sys@) && m.contains(lit as int) ==> !(
            #[trigger] sat(m, branch_sys@)),
    decreases branch_sys.total_lits(), 0int,
{
    let ghost sb = branch_sys@;
    let ghost tb = branch_sys.total_lits();
    let mut sys = branch_sys;
    if !basic_dpll_propagate(&mut sys, lit) {
        proof {
            lemma_branch_conflict(sb, lit as int);
        }
        return (ClauseType::Unsatisfiable, Vec::new());
    }
    let ghost snew = sys@;
    proof {
        lemma_propagate_nonempty(sb, lit as int);
        lemma_propagate_structure(sb, lit as int);
    }
    if sys.len() == 0 {
        let mut out: Vec<isize> = Vec::new();
        out.push(lit);
        proof {
            lemma_interp_empty();
            lemma_interp_push(Seq::<isize>::empty(), lit);
            assert(snew =~= Set::<Set<int>>::empty()) by {
                sys.lemma_view();
            }
            assert(sat(Set::<int>::empty(), snew));
            lemma_branch_sat(sb, snew, Set::<int>::empty(), lit as int);
            assert(interp_of(out@) == Set::<int>::empty().insert(lit as int));
        }
        return (ClauseType::Satisfiable, out);
    }
    proof {
        assert(sys.total_lits() < tb);
    }
    let rec = basic_dpll(&mut sys);
    let is_sat = match rec.0 {
        ClauseType::Satisfiable => true,
        _ => false,
    };
    if is_sat {
        let mut out = rec.1;
        let ghost pre = out@;
        out.push(lit);
        proof {
            lemma_interp_push(pre, lit);
            lemma_branch_sat(sb, snew, interp_of(pre), lit as int);
        }
        (ClauseType::Satisfiable, out)
    } else {
        proof {
            lemma_branch_unsat(sb, snew, lit as int);
        }
        (ClauseType::Unsatisfiable, rec.1)
    }
}

/// Determinism of the verdict under a fixed clause ordering, and indeed
/// under any: two runs whose results both meet the solver's guarantees on
/// one well-formed system return the same verdict, whatever traversal order
/// or decision budget either used.  Only the satisfying interpretation may
/// differ between runs.
pub proof fn lemma_solver_determinism(
    s: CNFSystem,
    v1: ClauseType,
    i1: Seq<isize>,
    v2: ClauseType,
    i2: Seq<isize>,
)
    requires
        s.wf(),
        v1 != ClauseType::Tautology,
        v1 == ClauseType::Satisfiable ==> consistent(interp_of(i1)) && sat(interp_of(i1), s@),
        v1 == ClauseType::Unsatisfiable ==> forall|m: Set<int>|
            consistent(m) && total_on(m, s@) ==> !(#[trigger] sat(m, s@)),
        v2 != ClauseType::Tautology,
        v2 == ClauseType::Satisfiable ==> consistent(interp_of(i2)) && sat(interp_of(i2), s@),
        v2 == ClauseType::Unsatisfiable ==> forall|m: Set<int>|
            consistent(m) && total_on(m, s@) ==> !(#[trigger] sat(m, s@)),
    ensures
        v1 == v2,
{
    lemma_system_sem(s);
    lemma_verdict_deterministic(s@, v1, interp_of(i1), v2, interp_of(i2));
}

/// The front end's dispatch once the parser has delivered its clauses.  A
/// system left empty because every input clause was a tautology is decided
/// TAUTOLOGY without running the engine; an empty system with no input at
/// all is nothing to decide (`None`, a usage error); everything else goes
/// to [`concurrent_dpll`].
pub fn solve_input(
    system: CNFSystem,
    units: Vec<isize>,
    contains_tautologies: bool,
    thread_count: isize,
) -> (r: Option<(ClauseType, Vec<isize>)>)
    requires
        system.wf(),
        no_empty_clause(system@),
        forall|k: int|
            0 <= k < units@.len() ==> lit_ok(#[trigger] units@[k]) && system@.contains(
                set![units@[k] as int],
            ),
    ensures
        system@ == Set::<Set<int>>::empty() && contains_tautologies ==> (r matches Some(p) && p.0
            == ClauseType::Tautology),
        system@ == Set::<Set<int>>::empty() && !contains_tautologies ==> r is None,
        system@ != Set::<Set<int>>::empty() ==> (r matches Some(p) && p.0 != ClauseType::Tautology
            && (p.0 == ClauseType::Satisfiable ==> consistent(interp_of(p.1@)) && sat(
            interp_of(p.1@),
            system@,
        )) && (p.0 == ClauseType::Unsatisfiable ==> forall|m: Set<int>|
            consistent(m) && total_on(m, system@) ==> !(#[trigger] sat(m, system@)))),
{
    let n = system.len();
    if n == 0 {
        proof {
            assert(system@ =~= Set::<Set<int>>::empty()) by {
                system.lemma_view();
            }
        }
        if contains_tautologies {
            Some((ClauseType::Tautology, Vec::new()))
        } else {
            None
        }
    } else {
        proof {
            system.lemma_view();
            assert(system@.contains(system.cl_seq()[0]));
        }
        Some(concurrent_dpll(system, units, thread_count))
    }
}

} // verus!
