use vstd::prelude::*;

verus! {

/// A truth assignment: the set of the variables that are true.
pub type Assignment = Set<int>;

/// The binary connectives.
#[derive(Clone, Copy, Debug, PartialEq, Eq, Structural)]
pub enum Op {
    And,
    Xor,
    Or,
    Nand,
    Nor,
    Imp,
    Biimp,
    Diff,
    Less,
    Invimp,
}

impl Op {
    /// The truth table of the connective.
    pub open spec fn apply(self, x: bool, y: bool) -> bool {
        match self {
            Op::And => x && y,
            Op::Xor => x != y,
            Op::Or => x || y,
            Op::Nand => !(x && y),
            Op::Nor => !(x || y),
            Op::Imp => x ==> y,
            Op::Biimp => x == y,
            Op::Diff => x && !y,
            Op::Less => !x && y,
            Op::Invimp => y ==> x,
        }
    }
}

/// A Boolean function over numbered variables, held as the term that builds
/// it. A decision-diagram engine turns the term into a diagram, one node of
/// the term at a time; two terms with the same truth table give the same
/// diagram.
#[derive(Debug, PartialEq, Eq)]
pub enum Bdd {
    True,
    False,
    Var(u32),
    Not(Box<Bdd>),
    Apply(Op, Box<Bdd>, Box<Bdd>),
    Ite(Box<Bdd>, Box<Bdd>, Box<Bdd>),
}

impl Clone for Bdd {
    /// A copy of the term, node by node.
    fn clone(&self) -> (r: Bdd)
        ensures
            r == *self,
        decreases *self,
    {
        match self {
            Bdd::True => Bdd::True,
            Bdd::False => Bdd::False,
            Bdd::Var(id) => Bdd::Var(*id),
            Bdd::Not(f) => Bdd::Not(Box::new((**f).clone())),
            Bdd::Apply(op, f, g) => Bdd::Apply(*op, Box::new((**f).clone()), Box::new((**g).clone())),
            Bdd::Ite(c, f, g) => Bdd::Ite(
                Box::new((**c).clone()),
                Box::new((**f).clone()),
                Box::new((**g).clone()),
            ),
        }
    }
}

#[allow(non_snake_case)]
impl Bdd {
    /// Whether the function is true under the assignment `a`.
    pub open spec fn holds(self, a: Assignment) -> bool
        decreases self,
    {
        match self {
            Bdd::True => true,
            Bdd::False => false,
            Bdd::Var(id) => a.contains(id as int),
            Bdd::Not(f) => !f.holds(a),
            Bdd::Apply(op, f, g) => op.apply(f.holds(a), g.holds(a)),
            Bdd::Ite(c, f, g) => if c.holds(a) {
                f.holds(a)
            } else {
                g.holds(a)
            },
        }
    }

    /// The function that is true everywhere.
    pub fn bddTrue() -> (r: Bdd)
        ensures
            r == Bdd::True,
            forall|a: Assignment| #[trigger] r.holds(a),
    {
        Bdd::True
    }

    /// The function that is true nowhere.
    pub fn bddFalse() -> (r: Bdd)
        ensures
            r == Bdd::False,
            forall|a: Assignment| !#[trigger] r.holds(a),
    {
        Bdd::False
    }

    /// The literal of variable `id`.
    pub fn fromId(id: u32) -> (r: Bdd)
        ensures
            r == Bdd::Var(id),
            forall|a: Assignment| #[trigger] r.holds(a) == a.contains(id as int),
    {
        Bdd::Var(id)
    }

    /// Negation.
    pub fn not(self) -> (r: Bdd)
        ensures
            r == Bdd::Not(Box::new(self)),
            forall|a: Assignment| #[trigger] r.holds(a) == !self.holds(a),
    {
        Bdd::Not(Box::new(self))
    }

    /// If `self` then `bdd_if` else `bdd_else`.
    pub fn ite(self, bdd_if: Bdd, bdd_else: Bdd) -> (r: Bdd)
        ensures
            r == Bdd::Ite(Box::new(self), Box::new(bdd_if), Box::new(bdd_else)),
            forall|a: Assignment| #[trigger]
                r.holds(a) == if self.holds(a) {
                    bdd_if.holds(a)
                } else {
                    bdd_else.holds(a)
                },
    {
        Bdd::Ite(Box::new(self), Box::new(bdd_if), Box::new(bdd_else))
    }

    /// Conjunction.
    pub fn and(self, other: Bdd) -> (r: Bdd)
        ensures
            r == Bdd::Apply(Op::And, Box::new(self), Box::new(other)),
            forall|a: Assignment| #[trigger] r.holds(a) == (self.holds(a) && other.holds(a)),
    {
        Bdd::Apply(Op::And, Box::new(self), Box::new(other))
    }

    /// Exclusive or.
    pub fn xor(self, other: Bdd) -> (r: Bdd)
        ensures
            r == Bdd::Apply(Op::Xor, Box::new(self), Box::new(other)),
            forall|a: Assignment| #[trigger] r.holds(a) == (self.holds(a) != other.holds(a)),
    {
        Bdd::Apply(Op::Xor, Box::new(self), Box::new(other))
    }

    /// Disjunction.
    pub fn or(self, other: Bdd) -> (r: Bdd)
        ensures
            r == Bdd::Apply(Op::Or, Box::new(self), Box::new(other)),
            forall|a: Assignment| #[trigger] r.holds(a) == (self.holds(a) || other.holds(a)),
    {
        Bdd::Apply(Op::Or, Box::new(self), Box::new(other))
    }

    /// Not both.
    pub fn nand(self, other: Bdd) -> (r: Bdd)
        ensures
            r == Bdd::Apply(Op::Nand, Box::new(self), Box::new(other)),
            forall|a: Assignment| #[trigger] r.holds(a) == !(self.holds(a) && other.holds(a)),
    {
        Bdd::Apply(Op::Nand, Box::new(self), Box::new(other))
    }

    /// Neither.
    pub fn nor(self, other: Bdd) -> (r: Bdd)
        ensures
            r == Bdd::Apply(Op::Nor, Box::new(self), Box::new(other)),
            forall|a: Assignment| #[trigger] r.holds(a) == !(self.holds(a) || other.holds(a)),
    {
        Bdd::Apply(Op::Nor, Box::new(self), Box::new(other))
    }

    /// `self` implies `other`.
    pub fn imp(self, other: Bdd) -> (r: Bdd)
        ensures
            r == Bdd::Apply(Op::Imp, Box::new(self), Box::new(other)),
            forall|a: Assignment| #[trigger] r.holds(a) == (self.holds(a) ==> other.holds(a)),
    {
        Bdd::Apply(Op::Imp, Box::new(self), Box::new(other))
    }

    /// `self` exactly when `other`.
    pub fn biimp(self, other: Bdd) -> (r: Bdd)
        ensures
            r == Bdd::Apply(Op::Biimp, Box::new(self), Box::new(other)),
            forall|a: Assignment| #[trigger] r.holds(a) == (self.holds(a) == other.holds(a)),
    {
        Bdd::Apply(Op::Biimp, Box::new(self), Box::new(other))
    }

    /// `self` and not `other`.
    pub fn diff(self, other: Bdd) -> (r: Bdd)
        ensures
            r == Bdd::Apply(Op::Diff, Box::new(self), Box::new(other)),
            forall|a: Assignment| #[trigger] r.holds(a) == (self.holds(a) && !other.holds(a)),
    {
        Bdd::Apply(Op::Diff, Box::new(self), Box::new(other))
    }

    /// `other` and not `self`.
    pub fn less(self, other: Bdd) -> (r: Bdd)
        ensures
            r == Bdd::Apply(Op::Less, Box::new(self), Box::new(other)),
            forall|a: Assignment| #[trigger] r.holds(a) == (!self.holds(a) && other.holds(a)),
    {
        Bdd::Apply(Op::Less, Box::new(self), Box::new(other))
    }

    /// `other` implies `self`.
    pub fn invimp(self, other: Bdd) -> (r: Bdd)
        ensures
            r == Bdd::Apply(Op::Invimp, Box::new(self), Box::new(other)),
            forall|a: Assignment| #[trigger] r.holds(a) == (other.holds(a) ==> self.holds(a)),
    {
        Bdd::Apply(Op::Invimp, Box::new(self), Box::new(other))
    }
}

} // verus!
