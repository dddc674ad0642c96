use marwood::cell::Cell;
use marwood::number::Number;

fn num(i: i64) -> Cell {
    Cell::Number(Number::Int(i))
}

#[test]
fn eq() {
    assert_eq!(num(16), num(16));
    assert_eq!(Cell::symbol("foo"), Cell::symbol("foo"));
    assert_eq!(
        Cell::list(vec![Cell::symbol("foo"), Cell::symbol("bar")]),
        Cell::list(vec![Cell::symbol("foo"), Cell::symbol("bar")])
    );
    assert_eq!(Cell::Nil, Cell::Nil);
}

#[test]
fn cell_macro() {
    assert_eq!(Cell::list(vec![]), Cell::Nil);
    assert_eq!(Cell::symbol("foo"), Cell::Symbol("foo".to_string()));
    assert_eq!(num(42), Cell::Number(Number::Int(42)));
    assert_eq!(num(-42), Cell::Number(Number::Int(-42)));
    assert_eq!(
        Cell::list(vec![num(0), num(1), num(2)]),
        Cell::list(vec![
            Cell::Number(Number::Int(0)),
            Cell::Number(Number::Int(1)),
            Cell::Number(Number::Int(2))
        ])
    );
    assert_eq!(
        Cell::list(vec![Cell::symbol("foo"), num(42)]),
        Cell::list(vec![Cell::symbol("foo"), Cell::Number(Number::Int(42))])
    );
    assert_eq!(
        Cell::list(vec![
            Cell::symbol("foo"),
            Cell::list(vec![num(0), num(1), num(2)])
        ]),
        Cell::list(vec![
            Cell::symbol("foo"),
            Cell::list(vec![num(0), num(1), num(2)])
        ])
    );
    assert_eq!(Cell::list(vec![]), Cell::Nil);
    assert_eq!(
        Cell::list(vec![Cell::symbol("foo")]),
        Cell::list(vec![Cell::symbol("foo")])
    );
}

#[test]
fn into_iter() {
    let l = Cell::list(vec![num(1), num(2), num(3)]);
    let mut it = l.iter();
    let e1 = num(1);
    let e2 = num(2);
    let e3 = num(3);
    assert_eq!(it.next(), Some(&e1));
    assert_eq!(it.next(), Some(&e2));
    assert_eq!(it.next(), Some(&e3));
    assert_eq!(it.next(), None);
    let atom = num(1);
    let mut it2 = atom.iter();
    assert_eq!(it2.next(), None);
}

#[test]
fn iter() {
    let mut it = Cell::list(vec![num(1), num(2), num(3)]).into_iter();
    assert_eq!(it.next(), Some(num(1)));
    assert_eq!(it.next(), Some(num(2)));
    assert_eq!(it.next(), Some(num(3)));
    assert_eq!(it.next(), None);
    let mut it2 = num(1).into_iter();
    assert_eq!(it2.next(), None);
}

#[test]
fn flatten() {
    let l = Cell::list(vec![
        Cell::list(vec![num(1), num(2), num(3)]),
        Cell::list(vec![num(4), num(5), num(6)]),
    ]);
    let mut flat: Vec<Cell> = Vec::new();
    let mut outer = l.into_iter();
    while let Some(inner) = outer.next() {
        let mut it = inner.into_iter();
        while let Some(c) = it.next() {
            flat.push(c);
        }
    }
    assert_eq!(
        flat,
        vec![num(1), num(2), num(3), num(4), num(5), num(6)]
    );
}

#[test]
fn display() {
    assert_eq!(Cell::Nil.to_string(), "'()");
    assert_eq!(num(42).to_string(), "42");
    assert_eq!(Cell::symbol("foo").to_string(), "foo");
    assert_eq!(
        Cell::list(vec![num(1), num(2), num(3)]).to_string(),
        "(1 2 3)"
    );
    assert_eq!(
        Cell::list(vec![
            num(1),
            num(2),
            num(3),
            Cell::list(vec![num(5), num(6), num(7)])
        ])
        .to_string(),
        "(1 2 3 (5 6 7))"
    );
}

#[test]
fn is_list() {
    assert!(Cell::list(vec![num(1), num(2), num(3)]).is_list());
    assert!(!num(42).is_list());
}

#[test]
fn cell_car_and_cdr() {
    let l = Cell::list(vec![num(1), num(2), num(3)]);
    let e1 = num(1);
    assert_eq!(l.car(), Some(&e1));
    let rest = Cell::list(vec![num(2), num(3)]);
    assert_eq!(l.cdr(), Some(&rest));
}
