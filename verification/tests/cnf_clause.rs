use rusat::cnf_system::CNFClause;
use std::hash::{Hash, Hasher};

#[test]
fn test_cnf_clause() {
    let t1: isize = 1;
    let f1: isize = -1;
    let mut clause = CNFClause::new();
    clause.add(t1);
    clause.add(f1);

    // Assert n1,¬n1 is a tautology
    assert!(clause.is_tautology());

    clause.remove(&t1);
    let mut clause2 = CNFClause::new();
    clause2.add(f1);
    assert_eq!(clause, clause2);

    clause.remove(&-1);
    assert_eq!(clause, CNFClause::new());

    // Clear
    let mut clause = CNFClause::new();
    let mut clause2 = CNFClause::new();

    clause.add(-5);
    clause.add(4);
    clause.add(2);

    // Add n2 and assert it contains() it
    clause2.add(2);
    assert!(clause2.contains(2));

    // Remove it and assert it doesn't contain it and it's length is zero
    clause2.remove(&2);
    assert!(!clause2.contains(2));
    assert_eq!(0, clause2.len());

    // Now make clause and clause2 have the equivalent literals in reverse order
    clause2.add(2);
    clause2.add(4);
    clause2.add(-5);

    // ...and assert they're still equal because it should be a sorted set
    assert_eq!(clause, clause2);

    // they shouldn't be tautologies yet...
    assert!(!clause.is_tautology());
    assert!(!clause2.is_tautology());

    // ...but now they should be!
    clause2.add(-2);
    assert!(clause != clause2);
    clause.add(-2);
    assert_eq!(clause, clause2);
    assert!(clause.is_tautology());

    // Assert that adding the same element means they're still equal (it's a set)
    clause2.add(2);
    assert_eq!(clause, clause2);
}

fn hash_of(c: &CNFClause) -> u64 {
    let mut h = std::collections::hash_map::DefaultHasher::new();
    c.hash(&mut h);
    h.finish()
}

#[test]
fn add_remove_match_set_semantics() {
    // A mixed sequence of additions and removals leaves exactly the
    // set-theoretic result.
    let mut c = CNFClause::new();
    assert!(c.add(3));
    assert!(c.add(-7));
    assert!(!c.add(3)); // already present
    assert!(c.add(12));
    assert!(c.remove(&-7));
    assert!(!c.remove(&-7)); // already gone
    assert!(c.add(-7));
    assert!(c.remove(&12));
    // {3, -7} remains
    assert!(c.contains(3));
    assert!(c.contains(-7));
    assert!(!c.contains(12));
    assert_eq!(2, c.len());
}

#[test]
fn permutations_compare_and_hash_equal() {
    // Clauses built from permutations of one literal multiset are one value.
    let perms: [[isize; 4]; 3] = [[4, -2, 9, -2], [-2, 9, 4, 9], [9, 4, -2, 4]];
    let mut built: Vec<CNFClause> = Vec::new();
    for p in perms.iter() {
        let mut c = CNFClause::new();
        for &l in p.iter() {
            c.add(l);
        }
        built.push(c);
    }
    assert_eq!(built[0], built[1]);
    assert_eq!(built[1], built[2]);
    assert_eq!(hash_of(&built[0]), hash_of(&built[1]));
    assert_eq!(hash_of(&built[1]), hash_of(&built[2]));
}

#[test]
fn tautology_iff_both_polarities() {
    let mut c = CNFClause::new();
    c.add(2);
    c.add(3);
    c.add(-4);
    assert!(!c.is_tautology());
    c.add(-3);
    assert!(c.is_tautology());
    c.remove(&3);
    assert!(!c.is_tautology());
}

#[test]
fn get_unit_returns_sole_literal() {
    let mut c = CNFClause::new();
    assert_eq!(None, c.get_unit());
    c.add(-9);
    assert_eq!(Some(-9), c.get_unit());
    c.add(2);
    assert_eq!(None, c.get_unit());
}

#[test]
fn iter_is_sorted_and_fresh() {
    let mut c = CNFClause::new();
    c.add(5);
    c.add(-11);
    c.add(2);
    assert_eq!(vec![-11, 2, 5], c.iter());
    // The traversal is a copy: the clause is unchanged afterwards.
    assert_eq!(3, c.len());
}

#[test]
fn is_empty_tracks_len() {
    let mut c = CNFClause::new();
    assert!(c.is_empty());
    c.add(1);
    assert!(!c.is_empty());
    c.remove(&1);
    assert!(c.is_empty());
}
