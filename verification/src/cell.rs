//! `Cell` is the tree form of a Scheme datum: what the reader produces,
//! what the evaluator takes in, and what it hands back.  Heap identity
//! plays no part here; a `Cell` is plain structural data.

use vstd::prelude::*;
use vstd::string::*;
use crate::number::Number;
use crate::number::number_wf;

verus! {

/// Every number in the tree is in its canonical form.
pub open spec fn cell_wf(c: Cell) -> bool
    decreases c,
{
    match c {
        Cell::Number(n) => number_wf(n),
        Cell::Cons(a, b) => cell_wf(*a) && cell_wf(*b),
        Cell::Vector(v) => forall|i: int| 0 <= i < v@.len() ==> cell_wf(#[trigger] v@[i]),
        _ => true,
    }
}

#[derive(Debug, PartialEq, Eq)]
pub enum Cell {
    Boolean(bool),
    Char(char),
    Number(Number),
    Symbol(String),
    Str(Vec<char>),
    Vector(Vec<Cell>),
    Cons(Box<Cell>, Box<Cell>),
    Nil,
    Void,
    /// The tree form of a procedure value, carrying only a printable name.
    Procedure(String),
}

/// The proper list holding the elements of `s`, in order.
pub open spec fn list_from(s: Seq<Cell>) -> Cell
    decreases s.len(),
{
    if s.len() == 0 {
        Cell::Nil
    } else {
        Cell::Cons(Box::new(s[0]), Box::new(list_from(s.skip(1))))
    }
}

impl Cell {
    pub fn symbol(val: &str) -> (r: Cell)
        ensures
            r matches Cell::Symbol(s) && s@ == val@,
    {
        Cell::Symbol(String::from_str(val))
    }

    /// Builds the proper list of the given elements.
    pub fn list(v: Vec<Cell>) -> (r: Cell)
        ensures
            r == list_from(v@),
    {
        let ghost orig = v@;
        let mut v = v;
        let mut r = Cell::Nil;
        proof {
            assert(orig.skip(orig.len() as int) =~= Seq::<Cell>::empty());
        }
        while v.len() > 0
            invariant
                v@.len() <= orig.len(),
                v@ == orig.subrange(0, v@.len() as int),
                r == list_from(orig.skip(v@.len() as int)),
            decreases v.len(),
        {
            let ghost i = v@.len() as int;
            let last = v.pop().unwrap();
            proof {
                assert(last == orig[i - 1]);
                assert(v@ =~= orig.subrange(0, i - 1));
                assert(orig.skip(i - 1)[0] == orig[i - 1]);
                assert(orig.skip(i - 1).skip(1) =~= orig.skip(i));
            }
            r = Cell::Cons(Box::new(last), Box::new(r));
        }
        proof {
            assert(orig.skip(0) =~= orig);
        }
        r
    }

    pub fn iter(&self) -> (r: IntoIter<'_>)
        ensures
            *r.next == *self,
    {
        IntoIter { next: self }
    }

    pub fn is_list(&self) -> (r: bool)
        ensures
            r == (self is Cons),
    {
        match self {
            Cell::Cons(_, _) => true,
            _ => false,
        }
    }

    /// Historical alias: a datum prints as a procedure application when it
    /// is a pair.
    pub fn is_procedure(&self) -> (r: bool)
        ensures
            r == (self is Cons),
    {
        self.is_list()
    }

    pub fn car(&self) -> (r: Option<&Cell>)
        ensures
            match self {
                Cell::Cons(a, _) => r matches Some(c) && *c == **a,
                _ => r is None,
            },
    {
        match self {
            Cell::Cons(car, _) => Some(&**car),
            _ => None,
        }
    }

    pub fn cdr(&self) -> (r: Option<&Cell>)
        ensures
            match self {
                Cell::Cons(_, d) => r matches Some(c) && *c == **d,
                _ => r is None,
            },
    {
        match self {
            Cell::Cons(_, cdr) => Some(&**cdr),
            _ => None,
        }
    }

    pub fn as_number(&self) -> (r: Option<Number>)
        ensures
            match self {
                Cell::Number(n) => r == Some(*n),
                _ => r is None,
            },
    {
        match self {
            Cell::Number(n) => Some(*n),
            _ => None,
        }
    }
}

/// Iterates over the elements of a proper list by reference, yielding
/// nothing for a non-pair.
pub struct IntoIter<'a> {
    pub next: &'a Cell,
}

impl<'a> IntoIter<'a> {
    pub fn next(&mut self) -> (r: Option<&'a Cell>)
        ensures
            match *old(self).next {
                Cell::Cons(a, b) => r matches Some(c) && *c == *a && *final(self).next == *b,
                _ => r is None && final(self).next == old(self).next,
            },
    {
        match self.next {
            Cell::Cons(car, cdr) => {
                self.next = &**cdr;
                Some(&**car)
            },
            _ => None,
        }
    }
}

/// Iterates over the elements of a proper list by value.
pub struct Iter {
    pub next: Option<Cell>,
}

impl Iter {
    pub fn next(&mut self) -> (r: Option<Cell>)
        ensures
            match old(self).next {
                Some(Cell::Cons(a, b)) => r == Some(*a) && final(self).next == Some(*b),
                _ => r is None && final(self).next is None,
            },
    {
        let cur = self.next.take();
        match cur {
            Some(Cell::Cons(car, cdr)) => {
                self.next = Some(*cdr);
                Some(*car)
            },
            _ => None,
        }
    }
}

impl Cell {
    /// Starts a by-value iteration over `self` as a list.
    pub fn into_iter(self) -> (r: Iter)
        ensures
            r.next == Some(self),
    {
        Iter { next: Some(self) }
    }
}

/// Deep structural equality (`equal?`): numbers by canonical value and
/// kind, strings and vectors by contents, pairs recursively; procedure
/// values never compare equal structurally.
pub open spec fn cell_eq_spec(a: Cell, b: Cell) -> bool
    decreases a,
{
    match (a, b) {
        (Cell::Boolean(x), Cell::Boolean(y)) => x == y,
        (Cell::Char(x), Cell::Char(y)) => x == y,
        (Cell::Number(x), Cell::Number(y)) => x == y,
        (Cell::Symbol(x), Cell::Symbol(y)) => x@ == y@,
        (Cell::Str(x), Cell::Str(y)) => x@ == y@,
        (Cell::Vector(x), Cell::Vector(y)) => x@.len() == y@.len() && (forall|i: int|
            0 <= i < x@.len() ==> cell_eq_spec(#[trigger] x@[i], y@[i])),
        (Cell::Cons(a1, d1), Cell::Cons(a2, d2)) => cell_eq_spec(*a1, *a2) && cell_eq_spec(
            *d1,
            *d2,
        ),
        (Cell::Nil, Cell::Nil) => true,
        (Cell::Void, Cell::Void) => true,
        _ => false,
    }
}

/// Whether a tree is plain data: no procedure value inside.  Procedures
/// compare by identity only, never structurally.
pub open spec fn cell_is_data(c: Cell) -> bool
    decreases c,
{
    match c {
        Cell::Procedure(_) => false,
        Cell::Cons(a, b) => cell_is_data(*a) && cell_is_data(*b),
        Cell::Vector(v) => forall|i: int| 0 <= i < v@.len() ==> cell_is_data(#[trigger] v@[i]),
        _ => true,
    }
}

/// Structural equality holds of any datum and itself, whatever its
/// identity: `equal?` is reflexive over structure.  Procedure values are
/// the one exception, since they compare by identity alone.
pub proof fn lemma_cell_eq_reflexive(c: Cell)
    requires
        cell_is_data(c),
    ensures
        cell_eq_spec(c, c),
    decreases c,
{
    broadcast use vstd::std_specs::vec::axiom_vec_index_decreases;

    match c {
        Cell::Vector(v) => {
            assert forall|i: int| 0 <= i < v@.len() implies cell_eq_spec(
                #[trigger] v@[i],
                v@[i],
            ) by {
                lemma_cell_eq_reflexive(v@[i]);
            }
        },
        Cell::Cons(a, d) => {
            lemma_cell_eq_reflexive(*a);
            lemma_cell_eq_reflexive(*d);
        },
        _ => {},
    }
}

/// Runnable structural equality, exactly `cell_eq_spec`.
pub fn cell_equal(a: &Cell, b: &Cell) -> (r: bool)
    ensures
        r == cell_eq_spec(*a, *b),
    decreases *a,
{
    broadcast use vstd::std_specs::vec::axiom_vec_index_decreases;

    match (a, b) {
        (Cell::Boolean(x), Cell::Boolean(y)) => x == y,
        (Cell::Char(x), Cell::Char(y)) => x == y,
        (Cell::Number(x), Cell::Number(y)) => crate::number::num_eq(x, y),
        (Cell::Symbol(x), Cell::Symbol(y)) => {
            let xv = crate::chars::str_chars(x.as_str());
            let yv = crate::chars::str_chars(y.as_str());
            chars_eq(&xv, &yv)
        },
        (Cell::Str(x), Cell::Str(y)) => chars_eq(x, y),
        (Cell::Vector(x), Cell::Vector(y)) => {
            if x.len() != y.len() {
                return false;
            }
            let mut i: usize = 0;
            while i < x.len()
                invariant
                    i <= x@.len(),
                    x@.len() == y@.len(),
                    a is Vector,
                    b is Vector,
                    a->Vector_0 == *x,
                    b->Vector_0 == *y,
                    forall|j: int| 0 <= j < i ==> cell_eq_spec(#[trigger] x@[j], y@[j]),
                decreases x@.len() - i,
            {
                proof {
                    vstd::std_specs::vec::axiom_vec_index_decreases::<Cell>(*x, i as int);
                }
                if !cell_equal(&x[i], &y[i]) {
                    return false;
                }
                i = i + 1;
            }
            true
        },
        (Cell::Cons(a1, d1), Cell::Cons(a2, d2)) => cell_equal(&**a1, &**a2) && cell_equal(
            &**d1,
            &**d2,
        ),
        (Cell::Nil, Cell::Nil) => true,
        (Cell::Void, Cell::Void) => true,
        _ => false,
    }
}

fn chars_eq(a: &Vec<char>, b: &Vec<char>) -> (r: bool)
    ensures
        r == (a@ == b@),
{
    if a.len() != b.len() {
        proof {
            assert(a@ != b@);
        }
        return false;
    }
    let mut i: usize = 0;
    while i < a.len()
        invariant
            i <= a@.len(),
            a@.len() == b@.len(),
            forall|j: int| 0 <= j < i ==> a@[j] == b@[j],
        decreases a@.len() - i,
    {
        if a[i] != b[i] {
            proof {
                assert(a@ != b@);
            }
            return false;
        }
        i = i + 1;
    }
    proof {
        assert(a@ =~= b@);
    }
    true
}

/// Structural equality is symmetric.
pub proof fn lemma_cell_eq_sym(a: Cell, b: Cell)
    ensures
        cell_eq_spec(a, b) == cell_eq_spec(b, a),
    decreases a,
{
    broadcast use vstd::std_specs::vec::axiom_vec_index_decreases;

    match (a, b) {
        (Cell::Vector(x), Cell::Vector(y)) => {
            if x@.len() == y@.len() {
                assert forall|i: int| 0 <= i < x@.len() implies cell_eq_spec(
                    #[trigger] x@[i],
                    y@[i],
                ) == cell_eq_spec(y@[i], x@[i]) by {
                    lemma_cell_eq_sym(x@[i], y@[i]);
                }
            }
        },
        (Cell::Cons(a1, d1), Cell::Cons(a2, d2)) => {
            lemma_cell_eq_sym(*a1, *a2);
            lemma_cell_eq_sym(*d1, *d2);
        },
        _ => {},
    }
}

/// Structural equality is transitive.
pub proof fn lemma_cell_eq_trans(a: Cell, b: Cell, c: Cell)
    requires
        cell_eq_spec(a, b),
        cell_eq_spec(b, c),
    ensures
        cell_eq_spec(a, c),
    decreases a,
{
    broadcast use vstd::std_specs::vec::axiom_vec_index_decreases;

    match (a, b, c) {
        (Cell::Vector(x), Cell::Vector(y), Cell::Vector(z)) => {
            assert forall|i: int| 0 <= i < x@.len() implies cell_eq_spec(
                #[trigger] x@[i],
                z@[i],
            ) by {
                assert(cell_eq_spec(x@[i], y@[i]));
                assert(cell_eq_spec(y@[i], z@[i]));
                lemma_cell_eq_trans(x@[i], y@[i], z@[i]);
            }
        },
        (Cell::Cons(a1, d1), Cell::Cons(a2, d2), Cell::Cons(a3, d3)) => {
            lemma_cell_eq_trans(*a1, *a2, *a3);
            lemma_cell_eq_trans(*d1, *d2, *d3);
        },
        _ => {},
    }
}

} // verus!
