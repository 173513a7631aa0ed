//! Propositional formulas: structural equality, node count and child access.
use vstd::prelude::*;

verus! {

/// A propositional formula. `Empty` marks an unfilled editing slot.
#[derive(Debug, Hash)]
pub enum Logic {
    Variable(char),
    And(Box<Logic>, Box<Logic>),
    Implies(Box<Logic>, Box<Logic>),
    Not(Box<Logic>),
    Or(Box<Logic>, Box<Logic>),
    Bottom,
    Empty,
}

/// Number of connective and atom nodes; an empty slot counts for nothing.
pub open spec fn size_of(f: Logic) -> nat
    decreases f,
{
    match f {
        Logic::Variable(_) => 1,
        Logic::And(a, b) => 1 + size_of(*a) + size_of(*b),
        Logic::Implies(a, b) => 1 + size_of(*a) + size_of(*b),
        Logic::Not(a) => 1 + size_of(*a),
        Logic::Or(a, b) => 1 + size_of(*a) + size_of(*b),
        Logic::Bottom => 1,
        Logic::Empty => 0,
    }
}

/// The operand at position `index`: 0 and 1 for the binary connectives,
/// 0 for the single operand of a negation.
pub open spec fn child_of(f: Logic, index: int) -> Option<Logic> {
    match f {
        Logic::And(a, b) => if index == 0 {
            Some(*a)
        } else if index == 1 {
            Some(*b)
        } else {
            None
        },
        Logic::Implies(a, b) => if index == 0 {
            Some(*a)
        } else if index == 1 {
            Some(*b)
        } else {
            None
        },
        Logic::Or(a, b) => if index == 0 {
            Some(*a)
        } else if index == 1 {
            Some(*b)
        } else {
            None
        },
        Logic::Not(a) => if index == 0 {
            Some(*a)
        } else {
            None
        },
        _ => None,
    }
}

/// `f` with the operand at position `index` replaced by `c`
/// (meaningful where `child_of(f, index)` is `Some`).
pub open spec fn with_child(f: Logic, index: int, c: Logic) -> Logic {
    match f {
        Logic::And(a, b) => if index == 0 {
            Logic::And(Box::new(c), b)
        } else {
            Logic::And(a, Box::new(c))
        },
        Logic::Implies(a, b) => if index == 0 {
            Logic::Implies(Box::new(c), b)
        } else {
            Logic::Implies(a, Box::new(c))
        },
        Logic::Or(a, b) => if index == 0 {
            Logic::Or(Box::new(c), b)
        } else {
            Logic::Or(a, Box::new(c))
        },
        Logic::Not(a) => if index == 0 {
            Logic::Not(Box::new(c))
        } else {
            Logic::Not(a)
        },
        _ => f,
    }
}

impl Logic {
    /// Structural equality: same shape and same atoms, no normalisation.
    pub fn same(&self, other: &Logic) -> (r: bool)
        ensures
            r == (*self == *other),
        decreases self,
    {
        match (self, other) {
            (Logic::Variable(a), Logic::Variable(b)) => *a == *b,
            (Logic::And(a, b), Logic::And(c, d)) => a.same(c) && b.same(d),
            (Logic::Implies(a, b), Logic::Implies(c, d)) => a.same(c) && b.same(d),
            (Logic::Or(a, b), Logic::Or(c, d)) => a.same(c) && b.same(d),
            (Logic::Not(a), Logic::Not(c)) => a.same(c),
            (Logic::Bottom, Logic::Bottom) => true,
            (Logic::Empty, Logic::Empty) => true,
            _ => false,
        }
    }

    /// A deep copy.
    pub fn copied(&self) -> (r: Logic)
        ensures
            r == *self,
        decreases self,
    {
        match self {
            Logic::Variable(v) => Logic::Variable(*v),
            Logic::And(a, b) => Logic::And(Box::new(a.copied()), Box::new(b.copied())),
            Logic::Implies(a, b) => Logic::Implies(Box::new(a.copied()), Box::new(b.copied())),
            Logic::Not(a) => Logic::Not(Box::new(a.copied())),
            Logic::Or(a, b) => Logic::Or(Box::new(a.copied()), Box::new(b.copied())),
            Logic::Bottom => Logic::Bottom,
            Logic::Empty => Logic::Empty,
        }
    }

    /// The number of nodes of the formula; `Empty` counts 0.
    pub fn size(&self) -> (r: usize)
        requires
            size_of(*self) <= usize::MAX,
        ensures
            r == size_of(*self),
        decreases self,
    {
        match self {
            Logic::Variable(_) => 1,
            Logic::And(a, b) => 1 + a.size() + b.size(),
            Logic::Implies(a, b) => 1 + a.size() + b.size(),
            Logic::Not(a) => 1 + a.size(),
            Logic::Or(a, b) => 1 + a.size() + b.size(),
            Logic::Bottom => 1,
            Logic::Empty => 0,
        }
    }

    /// A mutable borrow of the operand at position `index`, if there is one.
    pub fn get_mut(&mut self, index: usize) -> (r: Option<&mut Logic>)
        ensures
            child_of(*old(self), index as int) matches Some(c) ==> (r matches Some(m) && *m == c
                && *final(self) == with_child(*old(self), index as int, *final(m))),
            child_of(*old(self), index as int) is None ==> r is None && *final(self) == *old(self),
    {
        match self {
            Logic::And(a, b) => if index == 0 {
                Some(&mut **a)
            } else if index == 1 {
                Some(&mut **b)
            } else {
                None
            },
            Logic::Implies(a, b) => if index == 0 {
                Some(&mut **a)
            } else if index == 1 {
                Some(&mut **b)
            } else {
                None
            },
            Logic::Or(a, b) => if index == 0 {
                Some(&mut **a)
            } else if index == 1 {
                Some(&mut **b)
            } else {
                None
            },
            Logic::Not(a) => if index == 0 {
                Some(&mut **a)
            } else {
                None
            },
            _ => None,
        }
    }
}

impl PartialEq for Logic {
    fn eq(&self, other: &Logic) -> (r: bool) {
        self.same(other)
    }
}

impl Eq for Logic {}

impl Clone for Logic {
    fn clone(&self) -> (r: Logic) {
        self.copied()
    }
}

impl vstd::std_specs::cmp::PartialEqSpecImpl for Logic {
    open spec fn obeys_eq_spec() -> bool {
        true
    }

    open spec fn eq_spec(&self, other: &Logic) -> bool {
        *self == *other
    }
}

} // verus!
