use rusat::cnf_system::{CNFClause, CNFSystem, ClauseType};
use rusat::dpll::{basic_dpll, concurrent_dpll, concurrent_dpll_propagate, solve_input};

fn clause(lits: &[isize]) -> CNFClause {
    let mut c = CNFClause::new();
    for &l in lits.iter() {
        c.add(l);
    }
    c
}

fn system(clauses: &[&[isize]]) -> (CNFSystem, Vec<isize>) {
    let mut s = CNFSystem::new(None);
    let mut units: Vec<isize> = Vec::new();
    for lits in clauses.iter() {
        let c = clause(lits);
        if lits.len() == 1 {
            units.push(lits[0]);
        }
        s.add_clause(c);
    }
    (s, units)
}

fn is_consistent(interp: &[isize]) -> bool {
    interp.iter().all(|&l| !interp.contains(&-l))
}

fn satisfies(interp: &[isize], clauses: &[&[isize]]) -> bool {
    clauses.iter().all(|lits| lits.iter().any(|l| interp.contains(l)))
}

#[test]
fn empty_system_is_satisfiable_vacuously() {
    let (s, units) = system(&[]);
    let (verdict, interp) = concurrent_dpll(s, units, 16);
    assert_eq!(ClauseType::Satisfiable, verdict);
    assert!(interp.is_empty());
}

#[test]
fn single_unit_clause_satisfiable() {
    let cls: [&[isize]; 1] = [&[1]];
    let (s, units) = system(&cls);
    let (verdict, interp) = concurrent_dpll(s, units, 16);
    assert_eq!(ClauseType::Satisfiable, verdict);
    assert!(interp.contains(&1));
    assert!(is_consistent(&interp));
}

#[test]
fn contradicting_units_unsatisfiable() {
    let cls: [&[isize]; 2] = [&[1], &[-1]];
    let (s, units) = system(&cls);
    let (verdict, _) = concurrent_dpll(s, units, 16);
    assert_eq!(ClauseType::Unsatisfiable, verdict);
}

#[test]
fn two_variable_xor_unsatisfiable() {
    let cls: [&[isize]; 4] = [&[1, 2], &[-1, -2], &[1, -2], &[-1, 2]];
    let (s, units) = system(&cls);
    let (verdict, _) = concurrent_dpll(s, units, 16);
    assert_eq!(ClauseType::Unsatisfiable, verdict);
}

#[test]
fn one_of_three_satisfiable_with_exactly_one_true() {
    let cls: [&[isize]; 4] = [&[1, 2, 3], &[-1, -2], &[-1, -3], &[-2, -3]];
    let (s, units) = system(&cls);
    let (verdict, interp) = concurrent_dpll(s, units, 16);
    assert_eq!(ClauseType::Satisfiable, verdict);
    assert!(is_consistent(&interp));
    assert!(satisfies(&interp, &cls));
    let positives = [1isize, 2, 3].iter().filter(|v| interp.contains(v)).count();
    assert_eq!(1, positives);
}

#[test]
fn pigeonhole_three_in_two_unsatisfiable() {
    // Pigeons (1,2), (3,4), (5,6): variable 2(i-1)+j places pigeon i in
    // hole j.  Each pigeon needs a hole; no hole takes two pigeons.
    let cls: [&[isize]; 9] = [
        &[1, 2],
        &[3, 4],
        &[5, 6],
        &[-1, -3],
        &[-1, -5],
        &[-3, -5],
        &[-2, -4],
        &[-2, -6],
        &[-4, -6],
    ];
    let (s, units) = system(&cls);
    let (verdict, _) = concurrent_dpll(s, units, 16);
    assert_eq!(ClauseType::Unsatisfiable, verdict);
}

#[test]
fn propagation_chain_satisfiable() {
    // 1 forces 2, which forces 3.
    let cls: [&[isize]; 3] = [&[1], &[-1, 2], &[-2, 3]];
    let (s, units) = system(&cls);
    let (verdict, interp) = concurrent_dpll(s, units, 16);
    assert_eq!(ClauseType::Satisfiable, verdict);
    assert!(interp.contains(&1));
    assert!(interp.contains(&2));
    assert!(interp.contains(&3));
    assert!(is_consistent(&interp));
}

#[test]
fn basic_dpll_agrees_on_scenarios() {
    let sat_cases: [&[&[isize]]; 3] = [
        &[&[1]],
        &[&[1, 2, 3], &[-1, -2], &[-1, -3], &[-2, -3]],
        &[&[1], &[-1, 2], &[-2, 3]],
    ];
    for cls in sat_cases.iter() {
        let (mut s, _) = system(cls);
        let (verdict, interp) = basic_dpll(&mut s);
        assert_eq!(ClauseType::Satisfiable, verdict);
        assert!(is_consistent(&interp));
        assert!(satisfies(&interp, cls));
    }
    let unsat_cases: [&[&[isize]]; 2] = [
        &[&[1], &[-1]],
        &[&[1, 2], &[-1, -2], &[1, -2], &[-1, 2]],
    ];
    for cls in unsat_cases.iter() {
        let (mut s, _) = system(cls);
        let (verdict, _) = basic_dpll(&mut s);
        assert_eq!(ClauseType::Unsatisfiable, verdict);
    }
}

#[test]
fn verdict_deterministic_across_runs() {
    let cls: [&[isize]; 4] = [&[1, 2, 3], &[-1, -2], &[-1, -3], &[-2, -3]];
    let (s1, u1) = system(&cls);
    let (s2, u2) = system(&cls);
    let (v1, _) = concurrent_dpll(s1, u1, 16);
    let (v2, _) = concurrent_dpll(s2, u2, 0);
    assert_eq!(v1, v2);
    let (mut s3, _) = system(&cls);
    let (v3, _) = basic_dpll(&mut s3);
    assert_eq!(v1, v3);
}

#[test]
fn propagate_removes_satisfied_and_reduces_falsified() {
    let cls: [&[isize]; 3] = [&[1, 2], &[-1, 3], &[4, 5]];
    let (mut s, _) = system(&cls);
    let revealed = concurrent_dpll_propagate(&mut s, 1).expect("no conflict here");
    // {1,2} was satisfied and dropped; {-1,3} shrank to the new unit {3}.
    assert_eq!(vec![3], revealed);
    assert_eq!(2, s.len());
    assert!(s.contains(&clause(&[3])));
    assert!(s.contains(&clause(&[4, 5])));
    assert!(!s.contains(&clause(&[1, 2])));
}

#[test]
fn propagate_conflict_on_contradicting_unit() {
    let cls: [&[isize]; 2] = [&[-1], &[2, 3]];
    let (mut s, _) = system(&cls);
    assert!(concurrent_dpll_propagate(&mut s, 1).is_none());
}

#[test]
fn propagate_untouched_system_reveals_nothing() {
    let cls: [&[isize]; 2] = [&[2, 3], &[-2, 4]];
    let (mut s, _) = system(&cls);
    let revealed = concurrent_dpll_propagate(&mut s, 9).expect("no conflict here");
    assert!(revealed.is_empty());
    assert_eq!(2, s.len());
}

#[test]
fn tautological_input_short_circuits() {
    // The parser strips tautologies; an empty system with the flag set is
    // TAUTOLOGY without running the engine.
    let (s, units) = system(&[]);
    let r = solve_input(s, units, true, 16);
    let (verdict, _) = r.expect("tautological input yields a verdict");
    assert_eq!(ClauseType::Tautology, verdict);
}

#[test]
fn truly_empty_input_is_a_usage_error() {
    let (s, units) = system(&[]);
    assert!(solve_input(s, units, false, 16).is_none());
}

#[test]
fn solve_input_runs_engine_on_nonempty_system() {
    let cls: [&[isize]; 2] = [&[1], &[-1]];
    let (s, units) = system(&cls);
    let (verdict, _) = solve_input(s, units, false, 16).expect("nonempty input");
    assert_eq!(ClauseType::Unsatisfiable, verdict);

    let cls2: [&[isize]; 1] = [&[7]];
    let (s2, units2) = system(&cls2);
    let (verdict2, interp2) = solve_input(s2, units2, true, 16).expect("nonempty input");
    assert_eq!(ClauseType::Satisfiable, verdict2);
    assert!(interp2.contains(&7));
}

#[test]
fn engine_finds_units_without_being_told() {
    // The caller may pass no unit literals; the decision step still finds
    // the answer.
    let cls: [&[isize]; 2] = [&[1], &[-1, 2]];
    let (s, _) = system(&cls);
    let (verdict, interp) = concurrent_dpll(s, Vec::new(), 16);
    assert_eq!(ClauseType::Satisfiable, verdict);
    assert!(is_consistent(&interp));
    assert!(satisfies(&interp, &cls));
}
