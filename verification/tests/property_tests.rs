use marwood::cell::{cell_equal, Cell};
use marwood::parse::parse_text;
use marwood::print::cell_to_string;
use marwood::vm::{Error, Vm};

fn ev(vm: &mut Vm, src: &str) -> Result<Cell, Error> {
    vm.eval(&parse_text(src).unwrap())
}

// Tail-recursive procedures of unbounded depth run in constant stack
// space: a depth far past any native stack limit completes.
#[test]
fn deep_tail_recursion() {
    let mut vm = Vm::new();
    ev(&mut vm, "(define (count n) (if (= n 0) 'done (count (- n 1))))").unwrap();
    assert_eq!(ev(&mut vm, "(count 300000)"), Ok(parse_text("done").unwrap()));
}

// Scanning a long list built by tail recursion does not exhaust the stack.
#[test]
fn deep_list_scan() {
    let mut vm = Vm::new();
    ev(
        &mut vm,
        "(define (build n acc) (if (= n 0) acc (build (- n 1) (cons n acc))))",
    )
    .unwrap();
    ev(&mut vm, "(define big (build 50000 '()))").unwrap();
    ev(
        &mut vm,
        "(define (len l k) (if (null? l) k (len (cdr l) (+ k 1))))",
    )
    .unwrap();
    assert_eq!(ev(&mut vm, "(len big 0)"), Ok(parse_text("50000").unwrap()));
}

// Unbounded non-tail recursion fails with the resource-exhaustion
// condition rather than crashing.
#[test]
fn non_tail_recursion_is_bounded() {
    let mut vm = Vm::new();
    ev(&mut vm, "(define (f) (+ 1 (f)))").unwrap();
    assert_eq!(ev(&mut vm, "(f)"), Err(Error::ResourceExhausted));
}

// Parsing the external representation of a value produced by the printer
// and re-evaluating it as a quoted literal reproduces an equal? value.
#[test]
fn print_parse_round_trip() {
    let cases = [
        "42",
        "-42",
        "10/3",
        "-1/2",
        "#t",
        "#f",
        "#\\a",
        "#\\newline",
        "#\\space",
        "#\\(",
        "\"foo \\\"bar\\\" baz\"",
        "\"back\\\\slash\"",
        "foo",
        "\\x31;2foo",
        "(1 2 3)",
        "(1 2 . 3)",
        "(a (b (c)) d)",
        "#(1 2 3)",
        "#(1 (2 3) \"s\" #\\x)",
        "()",
        "0.5",
        "255.0",
        "3.75",
        "-10.5",
    ];
    for text in cases {
        let mut vm = Vm::new();
        let quoted = format!("(quote {})", text);
        let v = ev(&mut vm, &quoted).unwrap();
        let printed = cell_to_string(&v);
        let reread = parse_text(&printed).unwrap();
        let quoted2 = format!("(quote {})", printed);
        let v2 = ev(&mut vm, &quoted2).unwrap();
        assert!(cell_equal(&v, &reread), "round trip of {} via {}", text, printed);
        assert!(cell_equal(&v, &v2), "re-evaluation of {} via {}", text, printed);
    }
}

// Collection between top-level evaluations must not touch anything
// reachable from the global frame: definitions, captured frames and
// mutable state all survive it.
#[test]
fn collection_preserves_reachable_state() {
    let mut vm = Vm::new();
    ev(&mut vm, "(define x 42)").unwrap();
    ev(
        &mut vm,
        "(define (gen) (let ([n 0]) (lambda () (set! n (+ n 1)) n)))",
    )
    .unwrap();
    ev(&mut vm, "(define tick (gen))").unwrap();
    assert_eq!(ev(&mut vm, "(tick)"), Ok(parse_text("1").unwrap()));
    for _ in 0..10 {
        ev(&mut vm, "'(a b c)").unwrap();
        ev(&mut vm, "\"scratch\"").unwrap();
    }
    assert_eq!(ev(&mut vm, "x"), Ok(parse_text("42").unwrap()));
    assert_eq!(ev(&mut vm, "(tick)"), Ok(parse_text("2").unwrap()));
    assert_eq!(ev(&mut vm, "(tick)"), Ok(parse_text("3").unwrap()));
}

// The reduced form of an exact ratio is canonical: arithmetic that lands
// on an integer yields the integer kind, and printing shows lowest terms.
#[test]
fn rationals_are_reduced() {
    let mut vm = Vm::new();
    assert_eq!(ev(&mut vm, "(/ 10 5)"), Ok(parse_text("2").unwrap()));
    assert_eq!(ev(&mut vm, "(/ 4 6)"), Ok(parse_text("2/3").unwrap()));
    assert_eq!(ev(&mut vm, "(/ -4 6)"), Ok(parse_text("-2/3").unwrap()));
    assert_eq!(ev(&mut vm, "(/ 4 -6)"), Ok(parse_text("-2/3").unwrap()));
    assert_eq!(ev(&mut vm, "(+ 1/3 2/3)"), Ok(parse_text("1").unwrap()));
    assert_eq!(ev(&mut vm, "(* 2/3 3/2)"), Ok(parse_text("1").unwrap()));
    assert_eq!(ev(&mut vm, "(- 1/2 1/3)"), Ok(parse_text("1/6").unwrap()));
}

// Exactness promotion: mixing exact and inexact operands gives an inexact
// result, and conversion round trips where the value is representable.
#[test]
fn exactness_promotion() {
    let mut vm = Vm::new();
    assert_eq!(ev(&mut vm, "(+ 1 0.5)"), Ok(parse_text("1.5").unwrap()));
    assert_eq!(ev(&mut vm, "(* 2 0.25)"), Ok(parse_text("0.5").unwrap()));
    assert_eq!(ev(&mut vm, "(/ 1.0 4)"), Ok(parse_text("0.25").unwrap()));
    assert_eq!(
        ev(&mut vm, "(inexact->exact (exact->inexact 3/4))"),
        Ok(parse_text("3/4").unwrap())
    );
    assert_eq!(
        ev(&mut vm, "(exact->inexact (inexact->exact 2.5))"),
        Ok(parse_text("2.5").unwrap())
    );
}

// The division and modulus edge contracts.
#[test]
fn division_edges() {
    let mut vm = Vm::new();
    assert_eq!(ev(&mut vm, "(modulo 21 4)"), Ok(parse_text("1").unwrap()));
    assert_eq!(ev(&mut vm, "(modulo -21 4)"), Ok(parse_text("3").unwrap()));
    assert_eq!(ev(&mut vm, "(modulo 21 -4)"), Ok(parse_text("-3").unwrap()));
    assert_eq!(ev(&mut vm, "(modulo -21 -4)"), Ok(parse_text("-1").unwrap()));
    assert_eq!(ev(&mut vm, "(quotient -7 2)"), Ok(parse_text("-3").unwrap()));
    assert_eq!(ev(&mut vm, "(remainder -7 2)"), Ok(parse_text("-1").unwrap()));
    assert_eq!(
        ev(&mut vm, "(modulo 10 0)"),
        Err(Error::InvalidSyntax("modulo is undefined for 0".into()))
    );
}

// An escaping closure keeps its defining frame alive after the creating
// call returns, and distinct instantiations do not share it.
#[test]
fn escaping_closures_are_independent() {
    let mut vm = Vm::new();
    ev(&mut vm, "(define (make-adder x) (lambda (y) (+ x y)))").unwrap();
    ev(&mut vm, "(define add-10 (make-adder 10))").unwrap();
    ev(&mut vm, "(define add-20 (make-adder 20))").unwrap();
    assert_eq!(ev(&mut vm, "(add-10 1)"), Ok(parse_text("11").unwrap()));
    assert_eq!(ev(&mut vm, "(add-20 1)"), Ok(parse_text("21").unwrap()));
    assert_eq!(ev(&mut vm, "(add-10 2)"), Ok(parse_text("12").unwrap()));
}

// Unicode-aware string indexing: positions count scalar values.
#[test]
fn unicode_string_indexing() {
    let mut vm = Vm::new();
    assert_eq!(ev(&mut vm, "(string-length \"o🐶o\")"), Ok(parse_text("3").unwrap()));
    assert_eq!(ev(&mut vm, "(string-ref \"o🐶o\" 1)"), Ok(parse_text("#\\🐶").unwrap()));
    assert_eq!(
        ev(&mut vm, "(string-ref \"o🐶o\" 3)"),
        Err(Error::InvalidStringIndex(3, 2))
    );
    assert_eq!(
        ev(&mut vm, "(string-ref \"\" 0)"),
        Err(Error::InvalidStringIndex(0, 0))
    );
}

// Non-tail recursion well within the depth budget completes; the budget is
// comfortably deeper than any fixture needs.
#[test]
fn non_tail_recursion_depth() {
    let mut vm = Vm::new();
    ev(&mut vm, "(define (f n) (if (= n 0) 0 (+ 1 (f (- n 1)))))").unwrap();
    assert_eq!(ev(&mut vm, "(f 800)"), Ok(parse_text("800").unwrap()));
}

// Collection reclaims what nothing reachable holds: a symbol seen only
// inside one evaluation leaves the intern table, and its heap node is
// freed for reuse.
#[test]
fn collection_reclaims_unreachable() {
    let mut vm = Vm::new();
    ev(&mut vm, "'ephemeral-name").unwrap();
    let text: Vec<char> = "ephemeral-name".chars().collect();
    assert!(
        vm.syms.iter().all(|e| e.as_ref() != Some(&text)),
        "the transient symbol should have been reclaimed"
    );
    assert!(
        vm.heap.iter().any(|n| matches!(n, marwood::vm::Node::Free)),
        "the evaluation's scratch nodes should have been freed"
    );
}
