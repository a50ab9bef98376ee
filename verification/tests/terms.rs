//! Boolean functions as terms.

use sokoban::bdd::{Bdd, Op};
use std::collections::HashSet;

/// Whether the term is true when exactly the variables of `on` are.
fn holds(term: &Bdd, on: &HashSet<u32>) -> bool {
    match term {
        Bdd::True => true,
        Bdd::False => false,
        Bdd::Var(id) => on.contains(id),
        Bdd::Not(f) => !holds(f, on),
        Bdd::Apply(op, f, g) => {
            let (x, y) = (holds(f, on), holds(g, on));
            match op {
                Op::And => x && y,
                Op::Xor => x != y,
                Op::Or => x || y,
                Op::Nand => !(x && y),
                Op::Nor => !(x || y),
                Op::Imp => !x || y,
                Op::Biimp => x == y,
                Op::Diff => x && !y,
                Op::Less => !x && y,
                Op::Invimp => x || !y,
            }
        }
        Bdd::Ite(c, f, g) => {
            if holds(c, on) {
                holds(f, on)
            } else {
                holds(g, on)
            }
        }
    }
}

/// The truth table of a term over variables 0 and 1, in the order
/// (false, false), (false, true), (true, false), (true, true).
fn truth_table(term: &Bdd) -> [bool; 4] {
    let mut rows = [false; 4];
    for (i, row) in rows.iter_mut().enumerate() {
        let mut on = HashSet::new();
        if i & 2 != 0 {
            on.insert(0u32);
        }
        if i & 1 != 0 {
            on.insert(1u32);
        }
        *row = holds(term, &on);
    }
    rows
}

fn x() -> Bdd {
    Bdd::fromId(0)
}

fn y() -> Bdd {
    Bdd::fromId(1)
}

#[test]
fn constants_and_literals() {
    assert_eq!(Bdd::bddTrue(), Bdd::True);
    assert_eq!(Bdd::bddFalse(), Bdd::False);
    assert_eq!(Bdd::fromId(7), Bdd::Var(7));
    assert_eq!(truth_table(&Bdd::bddTrue()), [true, true, true, true]);
    assert_eq!(truth_table(&Bdd::bddFalse()), [false, false, false, false]);
    assert_eq!(truth_table(&x()), [false, false, true, true]);
    assert_eq!(truth_table(&y()), [false, true, false, true]);
}

#[test]
fn negation() {
    assert_eq!(x().not(), Bdd::Not(Box::new(Bdd::Var(0))));
    assert_eq!(truth_table(&x().not()), [true, true, false, false]);
    assert_eq!(truth_table(&x().not().not()), truth_table(&x()));
}

#[test]
fn connectives_build_their_node() {
    let node = |op: Op| Bdd::Apply(op, Box::new(Bdd::Var(0)), Box::new(Bdd::Var(1)));
    assert_eq!(x().and(y()), node(Op::And));
    assert_eq!(x().xor(y()), node(Op::Xor));
    assert_eq!(x().or(y()), node(Op::Or));
    assert_eq!(x().nand(y()), node(Op::Nand));
    assert_eq!(x().nor(y()), node(Op::Nor));
    assert_eq!(x().imp(y()), node(Op::Imp));
    assert_eq!(x().biimp(y()), node(Op::Biimp));
    assert_eq!(x().diff(y()), node(Op::Diff));
    assert_eq!(x().less(y()), node(Op::Less));
    assert_eq!(x().invimp(y()), node(Op::Invimp));
}

#[test]
fn connectives_have_their_truth_tables() {
    assert_eq!(truth_table(&x().and(y())), [false, false, false, true]);
    assert_eq!(truth_table(&x().xor(y())), [false, true, true, false]);
    assert_eq!(truth_table(&x().or(y())), [false, true, true, true]);
    assert_eq!(truth_table(&x().nand(y())), [true, true, true, false]);
    assert_eq!(truth_table(&x().nor(y())), [true, false, false, false]);
    assert_eq!(truth_table(&x().imp(y())), [true, true, false, true]);
    assert_eq!(truth_table(&x().biimp(y())), [true, false, false, true]);
    assert_eq!(truth_table(&x().diff(y())), [false, false, true, false]);
    assert_eq!(truth_table(&x().less(y())), [false, true, false, false]);
    assert_eq!(truth_table(&x().invimp(y())), [true, false, true, true]);
}

#[test]
fn if_then_else() {
    let term = x().ite(y(), y().not());
    assert_eq!(
        term,
        Bdd::Ite(
            Box::new(Bdd::Var(0)),
            Box::new(Bdd::Var(1)),
            Box::new(Bdd::Not(Box::new(Bdd::Var(1)))),
        )
    );
    assert_eq!(truth_table(&term), truth_table(&x().biimp(y())));
    assert_eq!(truth_table(&Bdd::bddTrue().ite(x(), y())), truth_table(&x()));
    assert_eq!(truth_table(&Bdd::bddFalse().ite(x(), y())), truth_table(&y()));
}

#[test]
fn clone_is_the_same_term() {
    let term = x().and(y().not()).or(x().ite(Bdd::bddTrue(), y().xor(Bdd::fromId(5))));
    assert_eq!(term.clone(), term);
    assert_ne!(x().and(y()), y().and(x()));
}
