use rusat::cnf_system::{CNFClause, CNFSystem};

fn clause(lits: &[isize]) -> CNFClause {
    let mut c = CNFClause::new();
    for &l in lits.iter() {
        c.add(l);
    }
    c
}

#[test]
fn add_clause_twice_leaves_len_unchanged() {
    let mut s = CNFSystem::new(None);
    assert!(s.add_clause(clause(&[1, 2])));
    assert_eq!(1, s.len());
    // The same clause in another order is the same clause.
    assert!(!s.add_clause(clause(&[2, 1])));
    assert_eq!(1, s.len());
}

#[test]
fn remove_clause_idempotent_on_absent() {
    let mut s = CNFSystem::new(None);
    s.add_clause(clause(&[1, 2]));
    let absent = clause(&[3]);
    assert!(!s.remove_clause(&absent));
    assert_eq!(1, s.len());
    assert!(!s.remove_clause(&absent));
    assert_eq!(1, s.len());
    // Removing a present clause works once, then is idempotent.
    let present = clause(&[2, 1]);
    assert!(s.remove_clause(&present));
    assert_eq!(0, s.len());
    assert!(!s.remove_clause(&present));
    assert_eq!(0, s.len());
}

#[test]
fn system_membership_is_by_content() {
    let mut s = CNFSystem::new(None);
    s.add_clause(clause(&[-3, 8]));
    assert!(s.contains(&clause(&[8, -3])));
    assert!(!s.contains(&clause(&[8, 3])));
}

#[test]
fn new_with_initial_clauses_deduplicates() {
    let init = vec![clause(&[1, 2]), clause(&[2, 1]), clause(&[3])];
    let s = CNFSystem::new(Some(init));
    assert_eq!(2, s.len());
    assert!(s.contains(&clause(&[1, 2])));
    assert!(s.contains(&clause(&[3])));
}
