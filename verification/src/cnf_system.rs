//! The CNF data model: clauses (disjunctions of literals) and systems
//! (conjunctions of clauses), both with value-based set identity.
//!
//! A literal is a nonzero signed integer: the absolute value names a
//! propositional variable and the sign is its polarity.  A clause stores its
//! literals as a strictly increasing sequence, so two clauses with the same
//! literal set have identical representations; a system stores pairwise
//! distinct clauses.

use vstd::prelude::*;

verus! {

/// Verdict of deciding a formula: always true, true under some
/// interpretation, or true under none.
#[derive(PartialEq, Eq, Structural, Clone, Copy, Debug, Hash)]
pub enum ClauseType {
    Tautology,
    Satisfiable,
    Unsatisfiable,
}

/// A literal that may be stored in a clause: nonzero (zero is the DIMACS
/// clause terminator), and not `isize::MIN`, so that its negation is always
/// representable.
pub open spec fn lit_ok(l: isize) -> bool {
    l != 0 && l != isize::MIN
}

/// A set of literals is a tautology when some variable appears in both
/// polarities.
pub open spec fn tautological(c: Set<int>) -> bool {
    exists|v: int| #[trigger] c.contains(v) && c.contains(-v)
}

/// A clause in conjunctive normal form: a disjunction of literals, modelled
/// as the set of integers the stored sequence holds.
#[derive(PartialEq, Eq, Hash, Debug)]
pub struct CNFClause {
    literals: Vec<isize>,
}

impl View for CNFClause {
    type V = Set<int>;

    /// A clause is abstractly the set of its literals.
    closed spec fn view(&self) -> Set<int> {
        self.lit_seq().to_set()
    }
}

impl CNFClause {
    /// The stored literals in storage order, widened to mathematical integers.
    pub closed spec fn lit_seq(self) -> Seq<int> {
        self.literals@.map_values(|x: isize| x as int)
    }

    /// Well-formed: literals strictly increase (so none repeats) and each one
    /// is a representable nonzero literal.
    pub closed spec fn wf(self) -> bool {
        &&& forall|i: int, j: int|
            0 <= i < j < self.lit_seq().len() ==> #[trigger] self.lit_seq()[i]
                < #[trigger] self.lit_seq()[j]
        &&& forall|i: int| 0 <= i < self.literals@.len() ==> lit_ok(#[trigger] self.literals@[i])
    }

    /// The clause's set of literals is exactly what its literal sequence
    /// holds, and is finite.
    pub proof fn lemma_view(self)
        ensures
            self@ == self.lit_seq().to_set(),
            self@.finite(),
            forall|x: int| self@.contains(x) <==> self.lit_seq().contains(x),
            forall|i: int|
                0 <= i < self.lit_seq().len() ==> self@.contains(#[trigger] self.lit_seq()[i]),
    {
        broadcast use vstd::seq_lib::seq_to_set_is_finite;

        assert forall|i: int| 0 <= i < self.lit_seq().len() implies self@.contains(
            #[trigger] self.lit_seq()[i],
        ) by {
            assert(self.lit_seq().contains(self.lit_seq()[i]));
        }
    }

    /// Every literal of a well-formed clause is a valid literal: nonzero and
    /// representable along with its negation.
    pub proof fn lemma_wf_lits(self)
        requires
            self.wf(),
        ensures
            forall|x: int| #[trigger]
                self@.contains(x) ==> x != 0 && isize::MIN < x && x <= isize::MAX,
    {
        self.lemma_view();
        assert forall|x: int| #[trigger] self@.contains(x) implies x != 0 && isize::MIN < x && x
            <= isize::MAX by {
            let i = choose|i: int| 0 <= i < self.lit_seq().len() && self.lit_seq()[i] == x;
            assert(lit_ok(self.literals@[i]));
        }
    }

    /// A well-formed clause has as many literals in its set as in its
    /// sequence: nothing repeats.
    pub proof fn lemma_wf_card(self)
        requires
            self.wf(),
        ensures
            self@.len() == self.lit_seq().len(),
    {
        assert(self.lit_seq().no_duplicates());
        self.lit_seq().unique_seq_to_set();
    }

    /// An empty clause.
    pub fn new() -> (r: CNFClause)
        ensures
            r.wf(),
            r@ == Set::<int>::empty(),
            r.lit_seq() == Seq::<int>::empty(),
    {
        let r = CNFClause { literals: Vec::new() };
        proof {
            assert(r.lit_seq() =~= Seq::<int>::empty());
            assert(r@ =~= Set::<int>::empty());
        }
        r
    }

    /// Membership test for a literal.
    pub fn contains(&self, literal: isize) -> (r: bool)
        ensures
            r == self@.contains(literal as int),
    {
        let n = self.literals.len();
        let mut i: usize = 0;
        while i < n
            invariant
                n == self.literals@.len(),
                0 <= i <= n,
                forall|j: int| 0 <= j < i ==> #[trigger] self.literals@[j] != literal,
            decreases n - i,
        {
            if self.literals[i] == literal {
                proof {
                    assert(self.lit_seq()[i as int] == literal as int);
                    assert(self.lit_seq().contains(literal as int));
                }
                return true;
            }
            i += 1;
        }
        proof {
            if self@.contains(literal as int) {
                self.lemma_view();
                let k = choose|k: int|
                    0 <= k < self.lit_seq().len() && self.lit_seq()[k] == literal as int;
                assert(self.literals@[k] == literal);
            }
        }
        false
    }

    /// The number of literals in the clause.
    pub fn len(&self) -> (r: usize)
        ensures
            r == self.lit_seq().len(),
            self.wf() ==> r == self@.len(),
    {
        proof {
            if self.wf() {
                self.lemma_wf_card();
            }
        }
        self.literals.len()
    }

    /// Whether the clause holds no literal at all.
    pub fn is_empty(&self) -> (r: bool)
        ensures
            r == (self.lit_seq().len() == 0),
            r == (self@ == Set::<int>::empty()),
    {
        proof {
            if self.literals@.len() == 0 {
                assert(self@ =~= Set::<int>::empty());
            } else {
                assert(self.lit_seq().contains(self.lit_seq()[0]));
                assert(self@.contains(self.lit_seq()[0]));
            }
        }
        self.literals.is_empty()
    }

    /// Insert a literal, keeping the stored sequence strictly increasing.
    /// Returns true when the literal was not already present.  Inserting
    /// zero (or `isize::MIN`) is a programmer error and is excluded here.
    pub fn add(&mut self, literal: isize) -> (r: bool)
        requires
            old(self).wf(),
            lit_ok(literal),
        ensures
            final(self).wf(),
            final(self)@ == old(self)@.insert(literal as int),
            r == !old(self)@.contains(literal as int),
    {
        let n = self.literals.len();
        let mut i: usize = 0;
        while i < n && self.literals[i] < literal
            invariant
                n == self.literals@.len(),
                0 <= i <= n,
                *self == *old(self),
                forall|j: int| 0 <= j < i ==> #[trigger] self.literals@[j] < literal,
            decreases n - i,
        {
            i += 1;
        }
        proof {
            old(self).lemma_view();
        }
        if i < n && self.literals[i] == literal {
            proof {
                assert(self.lit_seq().contains(literal as int)) by {
                    assert(self.lit_seq()[i as int] == literal as int);
                }
                assert(self@.contains(literal as int));
                assert(self@ =~= old(self)@.insert(literal as int));
            }
            false
        } else {
            proof {
                // The literal is absent: everything before position i is
                // smaller, everything at or after it is larger.
                assert forall|j: int| 0 <= j < self.lit_seq().len() implies #[trigger] self.lit_seq()[j]
                    != literal as int by {
                    if j < i {
                        assert(self.literals@[j] < literal);
                    } else {
                        if i < n {
                            assert(self.literals@[i as int] > literal);
                            if j > i {
                                assert(self.lit_seq()[i as int] < self.lit_seq()[j]);
                            }
                        }
                    }
                }
                assert(!old(self)@.contains(literal as int));
            }
            let ghost prev = *self;
            self.literals.insert(i, literal);
            proof {
                assert(self.lit_seq() =~= prev.lit_seq().insert(i as int, literal as int)) by {
                    assert(self.literals@ == prev.literals@.insert(i as int, literal));
                    assert forall|k: int| 0 <= k < self.lit_seq().len() implies self.lit_seq()[k]
                        == prev.lit_seq().insert(i as int, literal as int)[k] by {}
                }
                assert forall|a: int, b: int|
                    0 <= a < b < self.lit_seq().len() implies #[trigger] self.lit_seq()[a]
                    < #[trigger] self.lit_seq()[b] by {
                    let s = prev.lit_seq();
                    let t = self.lit_seq();
                    // Relate positions in the new sequence to the old one.
                    if a < i && b < i {
                        assert(t[a] == s[a] && t[b] == s[b]);
                    } else if a < i && b == i {
                        assert(t[a] == s[a] && prev.literals@[a] < literal);
                    } else if a < i && b > i {
                        assert(t[a] == s[a] && t[b] == s[b - 1] && a <= b - 1);
                        if a == b - 1 {
                            assert(prev.literals@[a] < literal);
                            assert(s[b - 1] == t[b]);
                            assert(t[a] < literal as int);
                            assert(i < n);
                            assert(s[i as int] > literal as int);
                            assert(b - 1 >= i);
                            if b - 1 > i {
                                assert(s[i as int] < s[b - 1]);
                            }
                            assert(t[b] > literal as int);
                        } else {
                            assert(s[a] < s[b - 1]);
                        }
                    } else if a == i {
                        assert(t[a] == literal as int && t[b] == s[b - 1]);
                        assert(b - 1 >= i);
                        assert(i < n);
                        assert(s[i as int] > literal as int);
                        if b - 1 > i {
                            assert(s[i as int] < s[b - 1]);
                        }
                    } else {
                        assert(t[a] == s[a - 1] && t[b] == s[b - 1]);
                        assert(s[a - 1] < s[b - 1]);
                    }
                }
                assert forall|j: int| 0 <= j < self.literals@.len() implies lit_ok(
                    #[trigger] self.literals@[j],
                ) by {
                    if j < i {
                        assert(self.literals@[j] == prev.literals@[j]);
                    } else if j == i {
                    } else {
                        assert(self.literals@[j] == prev.literals@[j - 1]);
                    }
                }
                self.lemma_view();
                prev.lemma_view();
                assert(self@ =~= prev@.insert(literal as int)) by {
                    assert forall|x: int| self@.contains(x) implies prev@.insert(
                        literal as int,
                    ).contains(x) by {
                        let k = choose|k: int|
                            0 <= k < self.lit_seq().len() && self.lit_seq()[k] == x;
                        if k < i {
                            assert(prev.lit_seq().contains(x)) by {
                                assert(prev.lit_seq()[k] == x);
                            }
                        } else if k == i {
                        } else {
                            assert(prev.lit_seq().contains(x)) by {
                                assert(prev.lit_seq()[k - 1] == x);
                            }
                        }
                    }
                    assert forall|x: int| prev@.insert(literal as int).contains(x) implies
                        self@.contains(x) by {
                        if x == literal as int {
                            assert(self.lit_seq()[i as int] == x);
                            assert(self.lit_seq().contains(x));
                        } else {
                            let k = choose|k: int|
                                0 <= k < prev.lit_seq().len() && prev.lit_seq()[k] == x;
                            if k < i {
                                assert(self.lit_seq()[k] == x);
                            } else {
                                assert(self.lit_seq()[k + 1] == x);
                            }
                            assert(self.lit_seq().contains(x));
                        }
                    }
                }
            }
            true
        }
    }

    /// Delete a literal.  Returns true when it was present.
    pub fn remove(&mut self, literal: &isize) -> (r: bool)
        requires
            old(self).wf(),
        ensures
            final(self).wf(),
            final(self)@ == old(self)@.remove(*literal as int),
            r == old(self)@.contains(*literal as int),
    {
        let lit: isize = *literal;
        let n = self.literals.len();
        let mut i: usize = 0;
        while i < n && self.literals[i] != lit
            invariant
                n == self.literals@.len(),
                0 <= i <= n,
                *self == *old(self),
                forall|j: int| 0 <= j < i ==> #[trigger] self.literals@[j] != lit,
            decreases n - i,
        {
            i += 1;
        }
        proof {
            old(self).lemma_view();
        }
        if i < n {
            let ghost prev = *self;
            self.literals.remove(i);
            proof {
                assert(prev.lit_seq()[i as int] == lit as int);
                assert(prev.lit_seq().contains(lit as int));
                assert(prev@.contains(lit as int));
                assert(self.lit_seq() =~= prev.lit_seq().remove(i as int)) by {
                    assert(self.literals@ == prev.literals@.remove(i as int));
                }
                assert forall|a: int, b: int|
                    0 <= a < b < self.lit_seq().len() implies #[trigger] self.lit_seq()[a]
                    < #[trigger] self.lit_seq()[b] by {
                    let s = prev.lit_seq();
                    let a0: int = if a < i { a } else { a + 1 };
                    let b0: int = if b < i { b } else { b + 1 };
                    assert(self.lit_seq()[a] == s[a0] && self.lit_seq()[b] == s[b0]);
                    assert(s[a0] < s[b0]);
                }
                assert forall|j: int| 0 <= j < self.literals@.len() implies lit_ok(
                    #[trigger] self.literals@[j],
                ) by {
                    let j0: int = if j < i { j } else { j + 1 };
                    assert(self.literals@[j] == prev.literals@[j0]);
                    assert(lit_ok(prev.literals@[j0]));
                }
                self.lemma_view();
                prev.lemma_view();
                assert(self@ =~= prev@.remove(lit as int)) by {
                    assert forall|x: int| self@.contains(x) implies prev@.remove(
                        lit as int,
                    ).contains(x) by {
                        let k = choose|k: int|
                            0 <= k < self.lit_seq().len() && self.lit_seq()[k] == x;
                        let k0: int = if k < i { k } else { k + 1 };
                        assert(prev.lit_seq()[k0] == x);
                        assert(prev.lit_seq().contains(x));
                        // Strict sortedness separates x from the removed literal.
                        if k0 != i {
                            if k0 < i {
                                assert(prev.lit_seq()[k0] < prev.lit_seq()[i as int]);
                            } else {
                                assert(prev.lit_seq()[i as int] < prev.lit_seq()[k0]);
                            }
                        }
                    }
                    assert forall|x: int| prev@.remove(lit as int).contains(x) implies
                        self@.contains(x) by {
                        let k = choose|k: int|
                            0 <= k < prev.lit_seq().len() && prev.lit_seq()[k] == x;
                        assert(k != i);
                        if k < i {
                            assert(self.lit_seq()[k] == x);
                        } else {
                            assert(self.lit_seq()[k - 1] == x);
                        }
                        assert(self.lit_seq().contains(x));
                    }
                }
            }
            true
        } else {
            proof {
                if self@.contains(lit as int) {
                    let k = choose|k: int|
                        0 <= k < self.lit_seq().len() && self.lit_seq()[k] == lit as int;
                    assert(self.literals@[k] == lit);
                }
                assert(self@ =~= old(self)@.remove(lit as int));
            }
            false
        }
    }

    /// If the clause is a unit (exactly one literal), return that literal.
    pub fn get_unit(&self) -> (r: Option<isize>)
        ensures
            match r {
                Some(u) => self.lit_seq() == seq![u as int] && self@ == set![u as int],
                None => self.lit_seq().len() != 1,
            },
    {
        if self.literals.len() == 1 {
            let u = self.literals[0];
            proof {
                assert(self.lit_seq() =~= seq![u as int]);
                assert(self@ =~= set![u as int]) by {
                    assert(self.lit_seq().contains(u as int)) by {
                        assert(self.lit_seq()[0] == u as int);
                    }
                    assert forall|x: int| self@.contains(x) implies x == u as int by {
                        let k = choose|k: int|
                            0 <= k < self.lit_seq().len() && self.lit_seq()[k] == x;
                    }
                }
            }
            Some(u)
        } else {
            None
        }
    }

    /// True exactly when some variable occurs in both polarities.
    pub fn is_tautology(&self) -> (r: bool)
        requires
            self.wf(),
        ensures
            r == tautological(self@),
    {
        proof {
            self.lemma_view();
        }
        let n = self.literals.len();
        let mut i: usize = 0;
        while i < n
            invariant
                self.wf(),
                n == self.literals@.len(),
                0 <= i <= n,
                forall|j: int| 0 <= j < i ==> !self@.contains(-(#[trigger] self.literals@[j] as int)),
            decreases n - i,
        {
            let l = self.literals[i];
            proof {
                assert(lit_ok(self.literals@[i as int]));
            }
            if self.contains(-l) {
                proof {
                    assert(self@.contains(l as int)) by {
                        assert(self.lit_seq()[i as int] == l as int);
                        self.lemma_view();
                    }
                    assert(self@.contains(-(l as int)));
                }
                return true;
            }
            i += 1;
        }
        proof {
            if tautological(self@) {
                let v = choose|v: int| #[trigger] self@.contains(v) && self@.contains(-v);
                self.lemma_view();
                let k = choose|k: int| 0 <= k < self.lit_seq().len() && self.lit_seq()[k] == v;
                assert(self.literals@[k] as int == v);
                assert(!self@.contains(-(self.literals@[k] as int)));
            }
        }
        false
    }

    /// The literals in their canonical (increasing) order, as a fresh vector.
    pub fn iter(&self) -> (r: Vec<isize>)
        ensures
            r@.map_values(|x: isize| x as int) == self.lit_seq(),
    {
        let r = self.literals.clone();
        proof {
            assert forall|i: int| 0 <= i < r@.len() implies r@[i] == self.literals@[i] by {
                assert(cloned::<isize>(self.literals@[i], r@[i]));
            }
            assert(r@ =~= self.literals@);
        }
        r
    }

    /// Content equality of two well-formed clauses.
    pub fn eq_clause(&self, other: &CNFClause) -> (r: bool)
        requires
            self.wf(),
            other.wf(),
        ensures
            r == (self@ == other@),
    {
        let n = self.literals.len();
        if n != other.literals.len() {
            proof {
                if self@ == other@ {
                    lemma_clause_canonical(*self, *other);
                }
            }
            return false;
        }
        let mut i: usize = 0;
        while i < n
            invariant
                self.wf(),
                other.wf(),
                n == self.literals@.len(),
                n == other.literals@.len(),
                0 <= i <= n,
                forall|j: int| 0 <= j < i ==> #[trigger] self.literals@[j] == other.literals@[j],
            decreases n - i,
        {
            if self.literals[i] != other.literals[i] {
                proof {
                    if self@ == other@ {
                        lemma_clause_canonical(*self, *other);
                        assert(self.lit_seq()[i as int] == other.lit_seq()[i as int]);
                    }
                }
                return false;
            }
            i += 1;
        }
        proof {
            assert(self.lit_seq() =~= other.lit_seq());
            assert(self@ == other@);
        }
        true
    }
}

impl Clone for CNFClause {
    /// A deep copy: same literal set, same stored order, same well-formedness.
    fn clone(&self) -> (res: Self)
        ensures
            res@ == self@,
            res.lit_seq() == self.lit_seq(),
            res.wf() == self.wf(),
    {
        let res = CNFClause { literals: self.literals.clone() };
        proof {
            assert forall|i: int| 0 <= i < res.literals@.len() implies res.literals@[i]
                == self.literals@[i] by {
                assert(cloned::<isize>(self.literals@[i], res.literals@[i]));
            }
            assert(res.literals@ =~= self.literals@);
            assert(res.lit_seq() =~= self.lit_seq());
            assert(res@ =~= self@);
        }
        res
    }
}

/// Two strictly increasing integer sequences holding the same set of values
/// are the same sequence: the sorted form is canonical.
pub proof fn lemma_sorted_unique(s: Seq<int>, t: Seq<int>)
    requires
        forall|i: int, j: int| 0 <= i < j < s.len() ==> #[trigger] s[i] < #[trigger] s[j],
        forall|i: int, j: int| 0 <= i < j < t.len() ==> #[trigger] t[i] < #[trigger] t[j],
        s.to_set() == t.to_set(),
    ensures
        s == t,
    decreases s.len(),
{
    if s.len() == 0 {
        if t.len() > 0 {
            assert(t.contains(t[0]));
            assert(s.to_set().contains(t[0]));
            assert(s.contains(t[0]));
        }
        assert(s =~= t);
    } else {
        if t.len() == 0 {
            assert(s.contains(s[0]));
            assert(t.to_set().contains(s[0]));
            assert(t.contains(s[0]));
        }
        // The heads are both the minimum of the common set, so they agree.
        assert(t.contains(s[0])) by {
            assert(s.contains(s[0]));
            assert(s.to_set().contains(s[0]));
        }
        assert(s.contains(t[0])) by {
            assert(t.contains(t[0]));
            assert(t.to_set().contains(t[0]));
        }
        let js = choose|j: int| 0 <= j < t.len() && t[j] == s[0];
        let jt = choose|j: int| 0 <= j < s.len() && s[j] == t[0];
        assert(t[0] <= s[0]) by {
            if js > 0 {
                assert(t[0] < t[js]);
            }
        }
        assert(s[0] <= t[0]) by {
            if jt > 0 {
                assert(s[0] < s[jt]);
            }
        }
        let s1 = s.drop_first();
        let t1 = t.drop_first();
        assert forall|i: int, j: int| 0 <= i < j < s1.len() implies #[trigger] s1[i]
            < #[trigger] s1[j] by {
            assert(s1[i] == s[i + 1] && s1[j] == s[j + 1]);
        }
        assert forall|i: int, j: int| 0 <= i < j < t1.len() implies #[trigger] t1[i]
            < #[trigger] t1[j] by {
            assert(t1[i] == t[i + 1] && t1[j] == t[j + 1]);
        }
        assert(s1.to_set() =~= t1.to_set()) by {
            assert forall|x: int| s1.to_set().contains(x) implies t1.to_set().contains(x) by {
                let k = choose|k: int| 0 <= k < s1.len() && s1[k] == x;
                assert(s[k + 1] == x);
                assert(s[0] < x);
                assert(s.contains(x));
                assert(s.to_set().contains(x));
                assert(t.contains(x));
                let m = choose|m: int| 0 <= m < t.len() && t[m] == x;
                assert(m != 0);
                assert(t1[m - 1] == x);
                assert(t1.contains(x));
            }
            assert forall|x: int| t1.to_set().contains(x) implies s1.to_set().contains(x) by {
                let k = choose|k: int| 0 <= k < t1.len() && t1[k] == x;
                assert(t[k + 1] == x);
                assert(t[0] < x);
                assert(t.contains(x));
                assert(t.to_set().contains(x));
                assert(s.contains(x));
                let m = choose|m: int| 0 <= m < s.len() && s[m] == x;
                assert(m != 0);
                assert(s1[m - 1] == x);
                assert(s1.contains(x));
            }
        }
        lemma_sorted_unique(s1, t1);
        assert(s =~= t) by {
            assert forall|i: int| 0 <= i < s.len() implies s[i] == t[i] by {
                if i > 0 {
                    assert(s1[i - 1] == t1[i - 1]);
                }
            }
        }
    }
}

/// A well-formed clause is determined by its literal set: clauses built from
/// any arrangement of the same literals end up stored identically, so they
/// compare equal and hash equal.
pub proof fn lemma_clause_canonical(a: CNFClause, b: CNFClause)
    requires
        a.wf(),
        b.wf(),
        a@ == b@,
    ensures
        a.lit_seq() == b.lit_seq(),
{
    lemma_sorted_unique(a.lit_seq(), b.lit_seq());
}

/// A conjunction of clauses, kept without duplicates (set semantics over
/// clause content) in insertion order.
#[derive(PartialEq, Eq, Debug)]
pub struct CNFSystem {
    pub clauses: Vec<CNFClause>,
}

impl View for CNFSystem {
    type V = Set<Set<int>>;

    /// A system is abstractly the set of its clauses' literal sets.
    open spec fn view(&self) -> Set<Set<int>> {
        self.cl_seq().to_set()
    }
}

/// Total length of a sequence of sequences.
pub open spec fn sum_lens(s: Seq<Seq<int>>) -> nat
    decreases s.len(),
{
    if s.len() == 0 {
        0
    } else {
        sum_lens(s.drop_last()) + s.last().len()
    }
}

/// Pushing one more sequence adds its length to the total.
pub proof fn lemma_sum_lens_push(s: Seq<Seq<int>>, x: Seq<int>)
    ensures
        sum_lens(s.push(x)) == sum_lens(s) + x.len(),
{
    assert(s.push(x).drop_last() =~= s);
    assert(s.push(x).last() == x);
}

impl CNFSystem {
    /// The clauses' literal sets in storage order.
    pub open spec fn cl_seq(self) -> Seq<Set<int>> {
        self.clauses@.map_values(|c: CNFClause| c@)
    }

    /// The clauses' literal sequences in storage order.
    pub open spec fn lit_seqs(self) -> Seq<Seq<int>> {
        self.clauses@.map_values(|c: CNFClause| c.lit_seq())
    }

    /// The number of literal occurrences over all stored clauses; propagation
    /// drives it down, which bounds the solver's work.
    pub open spec fn total_lits(self) -> nat {
        sum_lens(self.lit_seqs())
    }

    /// Well-formed: every clause is well-formed and no two hold the same
    /// literal set.
    pub open spec fn wf(self) -> bool {
        &&& forall|i: int| 0 <= i < self.clauses@.len() ==> (#[trigger] self.clauses@[i]).wf()
        &&& forall|i: int, j: int|
            0 <= i < j < self.clauses@.len() ==> (#[trigger] self.clauses@[i])@
                != (#[trigger] self.clauses@[j])@
    }

    /// Membership in the system's set view is existence of a stored clause
    /// with that literal set.
    pub proof fn lemma_view(self)
        ensures
            self@.finite(),
            forall|x: Set<int>|
                self@.contains(x) <==> exists|i: int|
                    0 <= i < self.cl_seq().len() && self.cl_seq()[i] == x,
            forall|i: int|
                0 <= i < self.cl_seq().len() ==> self@.contains(#[trigger] self.cl_seq()[i]),
    {
        broadcast use vstd::seq_lib::seq_to_set_is_finite;

        assert forall|i: int| 0 <= i < self.cl_seq().len() implies self@.contains(
            #[trigger] self.cl_seq()[i],
        ) by {
            assert(self.cl_seq().contains(self.cl_seq()[i]));
        }
        assert forall|x: Set<int>| self@.contains(x) implies exists|i: int|
            0 <= i < self.cl_seq().len() && self.cl_seq()[i] == x by {
            assert(self.cl_seq().contains(x));
        }
    }

    /// In a well-formed system the stored clause count is the size of the
    /// clause set.
    pub proof fn lemma_wf_card(self)
        requires
            self.wf(),
        ensures
            self@.len() == self.clauses@.len(),
    {
        assert(self.cl_seq().no_duplicates());
        self.cl_seq().unique_seq_to_set();
    }

    /// A system holding the given clauses, or an empty one.
    pub fn new(initial_clauses: Option<Vec<CNFClause>>) -> (r: CNFSystem)
        requires
            match initial_clauses {
                Some(v) => forall|i: int| 0 <= i < v@.len() ==> (#[trigger] v@[i]).wf(),
                None => true,
            },
        ensures
            r.wf(),
            r@ == match initial_clauses {
                Some(v) => v@.map_values(|c: CNFClause| c@).to_set(),
                None => Set::<Set<int>>::empty(),
            },
    {
        match initial_clauses {
            None => {
                let r = CNFSystem { clauses: Vec::new() };
                proof {
                    assert(r.cl_seq() =~= Seq::<Set<int>>::empty());
                    assert(r@ =~= Set::<Set<int>>::empty());
                }
                r
            },
            Some(v) => {
                let mut r = CNFSystem { clauses: Vec::new() };
                proof {
                    assert(r.cl_seq() =~= Seq::<Set<int>>::empty());
                    assert(r@ =~= Set::<Set<int>>::empty());
                    assert(v@.map_values(|c: CNFClause| c@).take(0) =~= Seq::<Set<int>>::empty());
                    assert(r@ =~= v@.map_values(|c: CNFClause| c@).take(0).to_set());
                }
                let n = v.len();
                let mut i: usize = 0;
                while i < n
                    invariant
                        n == v@.len(),
                        0 <= i <= n,
                        forall|k: int| 0 <= k < v@.len() ==> (#[trigger] v@[k]).wf(),
                        r.wf(),
                        r@ == v@.map_values(|c: CNFClause| c@).take(i as int).to_set(),
                    decreases n - i,
                {
                    let ghost pre = r@;
                    let c = v[i].clone();
                    r.add_clause(c);
                    proof {
                        let m = v@.map_values(|cl: CNFClause| cl@);
                        assert(m.take(i + 1) =~= m.take(i as int).push(m[i as int]));
                        assert(m.take(i + 1).to_set() =~= m.take(i as int).to_set().insert(
                            m[i as int],
                        )) by {
                            let s = m.take(i as int);
                            let x = m[i as int];
                            assert forall|y: Set<int>| s.push(x).to_set().contains(y) implies
                                s.to_set().insert(x).contains(y) by {
                                let k = choose|k: int| 0 <= k < s.push(x).len() && s.push(x)[k] == y;
                                if k < s.len() {
                                    assert(s[k] == y);
                                    assert(s.contains(y));
                                }
                            }
                            assert forall|y: Set<int>| s.to_set().insert(x).contains(y) implies
                                s.push(x).to_set().contains(y) by {
                                if y == x {
                                    assert(s.push(x)[s.len() as int] == y);
                                } else {
                                    let k = choose|k: int| 0 <= k < s.len() && s[k] == y;
                                    assert(s.push(x)[k] == y);
                                }
                                assert(s.push(x).contains(y));
                            }
                        }
                        assert(c@ == v@[i as int]@);
                        assert(r@ == m.take(i + 1).to_set());
                    }
                    i += 1;
                }
                proof {
                    assert(v@.map_values(|c: CNFClause| c@).take(n as int) =~= v@.map_values(
                        |c: CNFClause| c@,
                    ));
                }
                r
            },
        }
    }

    /// Insert a clause.  Returns false when an equal clause was already
    /// present; the system is unchanged in that case.
    pub fn add_clause(&mut self, clause: CNFClause) -> (r: bool)
        requires
            old(self).wf(),
            clause.wf(),
        ensures
            final(self).wf(),
            final(self)@ == old(self)@.insert(clause@),
            r == !old(self)@.contains(clause@),
            r ==> final(self).clauses@ == old(self).clauses@.push(clause) && final(self).cl_seq()
                == old(self).cl_seq().push(clause@),
            !r ==> final(self).clauses@ == old(self).clauses@,
    {
        proof {
            old(self).lemma_view();
        }
        let n = self.clauses.len();
        let mut i: usize = 0;
        while i < n
            invariant
                self.wf(),
                clause.wf(),
                *self == *old(self),
                n == self.clauses@.len(),
                0 <= i <= n,
                forall|j: int| 0 <= j < i ==> (#[trigger] self.clauses@[j])@ != clause@,
            decreases n - i,
        {
            if self.clauses[i].eq_clause(&clause) {
                proof {
                    assert(self.cl_seq()[i as int] == clause@);
                    self.lemma_view();
                    assert(self@.contains(clause@));
                    assert(self@ =~= old(self)@.insert(clause@));
                }
                return false;
            }
            i += 1;
        }
        proof {
            assert forall|j: int| 0 <= j < self.cl_seq().len() implies #[trigger] self.cl_seq()[j]
                != clause@ by {
                assert(self.clauses@[j]@ != clause@);
            }
            self.lemma_view();
            assert(!self@.contains(clause@));
        }
        let ghost prev = *self;
        self.clauses.push(clause);
        proof {
            assert(self.cl_seq() =~= prev.cl_seq().push(clause@));
            assert(self.clauses@ == prev.clauses@.push(clause));
            assert forall|a: int, b: int|
                0 <= a < b < self.clauses@.len() implies (#[trigger] self.clauses@[a])@
                != (#[trigger] self.clauses@[b])@ by {
                if b < prev.clauses@.len() {
                    assert(prev.clauses@[a]@ != prev.clauses@[b]@);
                } else {
                    assert(prev.cl_seq()[a] != clause@);
                }
            }
            self.lemma_view();
            prev.lemma_view();
            assert(self@ =~= prev@.insert(clause@)) by {
                assert forall|x: Set<int>| self@.contains(x) implies prev@.insert(
                    clause@,
                ).contains(x) by {
                    let k = choose|k: int| 0 <= k < self.cl_seq().len() && self.cl_seq()[k] == x;
                    if k < prev.cl_seq().len() {
                        assert(prev.cl_seq()[k] == x);
                    }
                }
                assert forall|x: Set<int>| prev@.insert(clause@).contains(x) implies
                    self@.contains(x) by {
                    if x == clause@ {
                        assert(self.cl_seq()[prev.cl_seq().len() as int] == x);
                    } else {
                        let k = choose|k: int|
                            0 <= k < prev.cl_seq().len() && prev.cl_seq()[k] == x;
                        assert(self.cl_seq()[k] == x);
                    }
                }
            }
        }
        true
    }

    /// Delete a clause by content equality.  Returns false when no equal
    /// clause was present; the system is unchanged in that case, so removal
    /// of an absent clause is idempotent.
    pub fn remove_clause(&mut self, clause: &CNFClause) -> (r: bool)
        requires
            old(self).wf(),
            clause.wf(),
        ensures
            final(self).wf(),
            final(self)@ == old(self)@.remove(clause@),
            r == old(self)@.contains(clause@),
            !r ==> final(self).clauses@ == old(self).clauses@,
    {
        proof {
            old(self).lemma_view();
        }
        let n = self.clauses.len();
        let mut i: usize = 0;
        while i < n
            invariant
                self.wf(),
                clause.wf(),
                *self == *old(self),
                n == self.clauses@.len(),
                0 <= i <= n,
                forall|j: int| 0 <= j < i ==> (#[trigger] self.clauses@[j])@ != clause@,
            decreases n - i,
        {
            if self.clauses[i].eq_clause(&clause) {
                let ghost prev = *self;
                self.clauses.remove(i);
                proof {
                    assert(prev.cl_seq()[i as int] == clause@);
                    prev.lemma_view();
                    assert(prev@.contains(clause@));
                    assert(self.clauses@ == prev.clauses@.remove(i as int));
                    assert(self.cl_seq() =~= prev.cl_seq().remove(i as int)) by {
                        assert forall|k: int| 0 <= k < self.cl_seq().len() implies self.cl_seq()[k]
                            == prev.cl_seq().remove(i as int)[k] by {
                            let k0: int = if k < i { k } else { k + 1 };
                            assert(self.clauses@[k] == prev.clauses@[k0]);
                        }
                    }
                    assert forall|a: int, b: int|
                        0 <= a < b < self.clauses@.len() implies (#[trigger] self.clauses@[a])@
                        != (#[trigger] self.clauses@[b])@ by {
                        let a0: int = if a < i { a } else { a + 1 };
                        let b0: int = if b < i { b } else { b + 1 };
                        assert(self.clauses@[a] == prev.clauses@[a0]);
                        assert(self.clauses@[b] == prev.clauses@[b0]);
                    }
                    assert forall|k: int| 0 <= k < self.clauses@.len() implies
                        (#[trigger] self.clauses@[k]).wf() by {
                        let k0: int = if k < i { k } else { k + 1 };
                        assert(self.clauses@[k] == prev.clauses@[k0]);
                    }
                    self.lemma_view();
                    assert(self@ =~= prev@.remove(clause@)) by {
                        assert forall|x: Set<int>| self@.contains(x) implies prev@.remove(
                            clause@,
                        ).contains(x) by {
                            let k = choose|k: int|
                                0 <= k < self.cl_seq().len() && self.cl_seq()[k] == x;
                            let k0: int = if k < i { k } else { k + 1 };
                            assert(prev.cl_seq()[k0] == x);
                            assert(prev.clauses@[k0]@ == x);
                            if k0 != i {
                                assert(prev.clauses@[i as int]@ == clause@);
                                if k0 < i {
                                    assert(prev.clauses@[k0]@ != prev.clauses@[i as int]@);
                                } else {
                                    assert(prev.clauses@[i as int]@ != prev.clauses@[k0]@);
                                }
                            }
                        }
                        assert forall|x: Set<int>| prev@.remove(clause@).contains(x) implies
                            self@.contains(x) by {
                            let k = choose|k: int|
                                0 <= k < prev.cl_seq().len() && prev.cl_seq()[k] == x;
                            assert(k != i);
                            if k < i {
                                assert(self.cl_seq()[k] == x);
                            } else {
                                assert(self.cl_seq()[k - 1] == x);
                            }
                        }
                    }
                }
                return true;
            }
            i += 1;
        }
        proof {
            assert forall|j: int| 0 <= j < self.cl_seq().len() implies #[trigger] self.cl_seq()[j]
                != clause@ by {
                assert(self.clauses@[j]@ != clause@);
            }
            self.lemma_view();
            assert(!self@.contains(clause@));
            assert(self@ =~= old(self)@.remove(clause@));
        }
        false
    }

    /// Membership test by content equality.
    pub fn contains(&self, clause: &CNFClause) -> (r: bool)
        requires
            self.wf(),
            clause.wf(),
        ensures
            r == self@.contains(clause@),
    {
        proof {
            self.lemma_view();
        }
        let n = self.clauses.len();
        let mut i: usize = 0;
        while i < n
            invariant
                self.wf(),
                clause.wf(),
                n == self.clauses@.len(),
                0 <= i <= n,
                forall|j: int| 0 <= j < i ==> (#[trigger] self.clauses@[j])@ != clause@,
            decreases n - i,
        {
            if self.clauses[i].eq_clause(&clause) {
                proof {
                    assert(self.cl_seq()[i as int] == clause@);
                    self.lemma_view();
                }
                return true;
            }
            i += 1;
        }
        proof {
            assert forall|j: int| 0 <= j < self.cl_seq().len() implies #[trigger] self.cl_seq()[j]
                != clause@ by {
                assert(self.clauses@[j]@ != clause@);
            }
        }
        false
    }

    /// The number of clauses in the system.
    pub fn len(&self) -> (r: usize)
        ensures
            r == self.clauses@.len(),
            self.wf() ==> r == self@.len(),
    {
        proof {
            if self.wf() {
                self.lemma_wf_card();
            }
        }
        self.clauses.len()
    }
}

impl Clone for CNFSystem {
    /// A deep copy: each branch of the search owns its own clause storage.
    fn clone(&self) -> (res: Self)
        ensures
            res@ == self@,
            res.wf() == self.wf(),
            res.cl_seq() == self.cl_seq(),
            res.lit_seqs() == self.lit_seqs(),
            res.total_lits() == self.total_lits(),
    {
        let res = CNFSystem { clauses: self.clauses.clone() };
        proof {
            assert forall|i: int| 0 <= i < res.clauses@.len() implies res.clauses@[i]@
                == self.clauses@[i]@ && res.clauses@[i].lit_seq() == self.clauses@[i].lit_seq()
                && res.clauses@[i].wf() == self.clauses@[i].wf() by {
                assert(cloned::<CNFClause>(self.clauses@[i], res.clauses@[i]));
            }
            assert(res.cl_seq() =~= self.cl_seq());
            assert(res.lit_seqs() =~= self.lit_seqs());
            assert(res@ =~= self@);
        }
        res
    }
}

/// Adding one clause twice is the same as adding it once: after the second
/// `add_clause` of an equal clause the clause set, and so `len()`, is
/// unchanged.
pub proof fn lemma_add_clause_idempotent(s: Set<Set<int>>, c: Set<int>)
    ensures
        s.insert(c).insert(c) == s.insert(c),
{
    assert(s.insert(c).insert(c) =~= s.insert(c));
}

/// Removing a clause that is not present changes nothing: `remove_clause` is
/// idempotent on absent clauses.
pub proof fn lemma_remove_clause_absent(s: Set<Set<int>>, c: Set<int>)
    requires
        !s.contains(c),
    ensures
        s.remove(c) == s,
{
    assert(s.remove(c) =~= s);
}

} // verus!
