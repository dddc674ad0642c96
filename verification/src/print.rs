//! External representation: the printed form of any value, as the reader
//! accepts it back.  Pairs print as `(a b c)`, improper lists as
//! `(a b . c)`, vectors as `#(a b c)`, strings with escaped quotes and
//! characters by name where one exists.

use vstd::prelude::*;
use vstd::string::*;
use crate::cell::Cell;
use crate::chars::chars_to_string;
use crate::number::Number;
use crate::number::iabs;
use crate::number::pow2_u128;

verus! {

broadcast use vstd::std_specs::vec::axiom_vec_index_decreases;

/// The decimal digit character of `d`.
pub open spec fn dchar(d: nat) -> char {
    if d == 0 {
        '0'
    } else if d == 1 {
        '1'
    } else if d == 2 {
        '2'
    } else if d == 3 {
        '3'
    } else if d == 4 {
        '4'
    } else if d == 5 {
        '5'
    } else if d == 6 {
        '6'
    } else if d == 7 {
        '7'
    } else if d == 8 {
        '8'
    } else {
        '9'
    }
}

/// The decimal digits of `n`, most significant first.
pub open spec fn dec_u(n: nat) -> Seq<char>
    decreases n,
{
    if n < 10 {
        seq![dchar(n)]
    } else {
        dec_u(n / 10).push(dchar(n % 10))
    }
}

/// The decimal form of `n`, with a leading minus sign when negative.
pub open spec fn dec_i(n: int) -> Seq<char> {
    if n < 0 {
        seq!['-'] + dec_u((-n) as nat)
    } else {
        dec_u(n as nat)
    }
}

fn digit_char(d: u128) -> (r: char)
    requires
        d < 10,
    ensures
        r == dchar(d as nat),
{
    if d == 0 {
        '0'
    } else if d == 1 {
        '1'
    } else if d == 2 {
        '2'
    } else if d == 3 {
        '3'
    } else if d == 4 {
        '4'
    } else if d == 5 {
        '5'
    } else if d == 6 {
        '6'
    } else if d == 7 {
        '7'
    } else if d == 8 {
        '8'
    } else {
        '9'
    }
}

/// The decimal digits of `x`.
pub fn u128_to_chars(x: u128) -> (r: Vec<char>)
    ensures
        r@ == dec_u(x as nat),
    decreases x,
{
    if x < 10 {
        let mut v: Vec<char> = Vec::new();
        v.push(digit_char(x));
        proof {
            assert(v@ =~= seq![dchar(x as nat)]);
        }
        v
    } else {
        let mut v = u128_to_chars(x / 10);
        v.push(digit_char(x % 10));
        v
    }
}

/// The decimal form of `x`, signed.
pub fn i128_to_chars(x: i128) -> (r: Vec<char>)
    requires
        x != i128::MIN,
    ensures
        r@ == dec_i(x as int),
{
    if x < 0 {
        let mut v: Vec<char> = Vec::new();
        v.push('-');
        let d = u128_to_chars((-x) as u128);
        let mut i: usize = 0;
        while i < d.len()
            invariant
                i <= d@.len(),
                v@ == seq!['-'] + d@.subrange(0, i as int),
            decreases d@.len() - i,
        {
            v.push(d[i]);
            proof {
                assert(v@ =~= seq!['-'] + d@.subrange(0, i + 1));
            }
            i = i + 1;
        }
        proof {
            assert(d@.subrange(0, d@.len() as int) =~= d@);
        }
        v
    } else {
        u128_to_chars(x as u128)
    }
}

/// Appends all of `src` to `dst`.
fn push_all(dst: &mut Vec<char>, src: &Vec<char>)
    ensures
        final(dst)@ == old(dst)@ + src@,
{
    let mut i: usize = 0;
    while i < src.len()
        invariant
            i <= src@.len(),
            dst@ == old(dst)@ + src@.subrange(0, i as int),
        decreases src@.len() - i,
    {
        dst.push(src[i]);
        proof {
            assert(dst@ =~= old(dst)@ + src@.subrange(0, i + 1));
        }
        i = i + 1;
    }
    proof {
        assert(src@.subrange(0, src@.len() as int) =~= src@);
    }
}

/// Appends the characters of a literal to `dst`.
fn push_str(dst: &mut Vec<char>, s: &str)
    ensures
        final(dst)@ == old(dst)@ + s@,
{
    let v = crate::chars::str_chars(s);
    push_all(dst, &v);
}

/// `5 ^ k` while it fits the wide range.
fn pow5_u128(k: u32) -> (r: Option<u128>)
    ensures
        r matches Some(v) ==> v >= 1,
{
    let mut i: u32 = 0;
    let mut v: u128 = 1;
    while i < k
        invariant
            1 <= v,
        decreases k - i,
    {
        match v.checked_mul(5) {
            Some(nv) => {
                proof {
                    assert(nv >= 1) by (nonlinear_arith)
                        requires
                            nv == v * 5,
                            v >= 1,
                    ;
                }
                v = nv;
                i = i + 1;
            },
            None => {
                return None;
            },
        }
    }
    Some(v)
}


// ---------------------------------------------------------------------------
// The printed form, in specification.  Inexact numbers are left out: their
// printed form is unspecified here, and the printer's contract below is
// conditional on the value holding none.
// ---------------------------------------------------------------------------

/// A tree holding no inexact number.
pub open spec fn cell_no_inexact(c: Cell) -> bool
    decreases c,
{
    match c {
        Cell::Number(n) => !(n is Float),
        Cell::Cons(a, b) => cell_no_inexact(*a) && cell_no_inexact(*b),
        Cell::Vector(v) => forall|i: int|
            0 <= i < v@.len() ==> cell_no_inexact(#[trigger] v@[i]),
        _ => true,
    }
}

/// The hexadecimal digit character of `d`.
pub open spec fn hchar(d: int) -> char {
    if d < 10 {
        dchar(d as nat)
    } else if d == 10 {
        'a'
    } else if d == 11 {
        'b'
    } else if d == 12 {
        'c'
    } else if d == 13 {
        'd'
    } else if d == 14 {
        'e'
    } else {
        'f'
    }
}

/// The hexadecimal digits of `x`, most significant first.
pub open spec fn hex_repr(x: int) -> Seq<char>
    decreases x,
{
    if x < 16 {
        seq![hchar(if x < 0 { 0 } else { x })]
    } else {
        hex_repr(x / 16).push(hchar(x % 16))
    }
}

/// The printed form of an exact number: integers in decimal, ratios as
/// `n/d`.
pub open spec fn num_repr(n: Number) -> Seq<char> {
    match n {
        Number::Int(i) => dec_i(i as int),
        Number::Rational(p, q) => dec_i(p as int) + seq!['/'] + dec_u(iabs(q as int)),
        Number::Float(_) => Seq::empty(),
    }
}

/// The printed form of a character: a name for the characters that have
/// one, else the character after `#\`.
pub open spec fn char_repr(c: char) -> Seq<char> {
    seq!['#', '\\'] + (if c == '\n' {
        seq!['n', 'e', 'w', 'l', 'i', 'n', 'e']
    } else if c == ' ' {
        seq!['s', 'p', 'a', 'c', 'e']
    } else if c == '\t' {
        seq!['t', 'a', 'b']
    } else if c == '\0' {
        seq!['n', 'u', 'l', 'l']
    } else if c == '\u{7}' {
        seq!['a', 'l', 'a', 'r', 'm']
    } else if c == '\u{8}' {
        seq!['b', 'a', 'c', 'k', 's', 'p', 'a', 'c', 'e']
    } else if c == '\u{7f}' {
        seq!['d', 'e', 'l', 'e', 't', 'e']
    } else if c == '\u{1b}' {
        seq!['e', 's', 'c', 'a', 'p', 'e']
    } else if c == '\r' {
        seq!['r', 'e', 't', 'u', 'r', 'n']
    } else {
        seq![c]
    })
}

/// Whether a symbol character may appear bare at its position.
pub open spec fn sym_char_ok(c: char, first: bool) -> bool {
    if first {
        crate::lex::spec_initial_identifier(c) || c == '+' || c == '-'
    } else {
        crate::lex::spec_subsequent_identifier(c)
    }
}

/// The printed form of one symbol character.
pub open spec fn sym_piece(c: char, first: bool) -> Seq<char> {
    if sym_char_ok(c, first) {
        seq![c]
    } else {
        seq!['\\', 'x'] + hex_repr(c as u32 as int) + seq![';']
    }
}

/// The printed form of a symbol's first `i` characters.
pub open spec fn sym_repr_to(s: Seq<char>, i: int) -> Seq<char>
    decreases i,
{
    if i <= 0 {
        Seq::empty()
    } else {
        sym_repr_to(s, i - 1) + sym_piece(s[i - 1], i - 1 == 0)
    }
}

/// The printed form of a string's first `i` characters (escapes applied,
/// quotes not included).
pub open spec fn str_escape_to(s: Seq<char>, i: int) -> Seq<char>
    decreases i,
{
    if i <= 0 {
        Seq::empty()
    } else {
        str_escape_to(s, i - 1) + (if s[i - 1] == '"' || s[i - 1] == '\\' {
            seq!['\\', s[i - 1]]
        } else {
            seq![s[i - 1]]
        })
    }
}

/// The printed form of the first `i` elements of a vector, with the
/// opening `#(`.
pub open spec fn vec_repr_to(v: Vec<Cell>, i: int) -> Seq<char>
    decreases v, i,
    via vec_repr_to_dec
{
    if i <= 0 || i > v@.len() {
        seq!['#', '(']
    } else {
        vec_repr_to(v, i - 1) + (if i - 1 > 0 {
            seq![' ']
        } else {
            Seq::empty()
        }) + cell_repr(v@[i - 1])
    }
}

#[via_fn]
proof fn vec_repr_to_dec(v: Vec<Cell>, i: int) {
    if !(i <= 0 || i > v@.len()) {
        vstd::std_specs::vec::axiom_vec_index_decreases::<Cell>(v, i - 1);
    }
}

/// The historical display form: the empty list prints quoted, and a pair
/// chain prints only the elements reached before a non-pair tail.
pub open spec fn legacy_repr(c: Cell) -> Seq<char>
    decreases c, 1int,
{
    match c {
        Cell::Nil => seq!['\'', '(', ')'],
        Cell::Cons(_, _) => seq!['('] + legacy_items_repr(c),
        _ => cell_repr(c),
    }
}

/// The elements of a pair chain in the display form, stopping at the
/// first non-pair tail.
pub open spec fn legacy_items_repr(c: Cell) -> Seq<char>
    decreases c, 0int,
{
    match c {
        Cell::Cons(a, d) => legacy_repr(*a) + (if (*d) is Cons {
            seq![' '] + legacy_items_repr(*d)
        } else {
            seq![')']
        }),
        _ => seq![')'],
    }
}

/// The external representation of a value without inexact numbers, as the
/// reader accepts it back.
pub open spec fn cell_repr(c: Cell) -> Seq<char>
    decreases c, 1int,
{
    match c {
        Cell::Boolean(b) => if b {
            seq!['#', 't']
        } else {
            seq!['#', 'f']
        },
        Cell::Char(ch) => char_repr(ch),
        Cell::Number(n) => num_repr(n),
        Cell::Symbol(st) => sym_repr_to(st@, st@.len() as int),
        Cell::Str(v) => seq!['"'] + str_escape_to(v@, v@.len() as int) + seq!['"'],
        Cell::Vector(v) => vec_repr_to(v, v@.len() as int) + seq![')'],
        Cell::Cons(_, _) => seq!['('] + pair_repr(c),
        Cell::Nil => seq!['(', ')'],
        Cell::Void => seq!['#', '<', 'v', 'o', 'i', 'd', '>'],
        Cell::Procedure(_) => seq![
            '#',
            '<',
            'p',
            'r',
            'o',
            'c',
            'e',
            'd',
            'u',
            'r',
            'e',
            '>',
        ],
    }
}

/// The elements of a pair chain and the closing parenthesis, with ` . `
/// before a non-empty tail.
pub open spec fn pair_repr(c: Cell) -> Seq<char>
    decreases c, 0int,
{
    match c {
        Cell::Cons(a, d) => cell_repr(*a) + (match *d {
            Cell::Nil => seq![')'],
            Cell::Cons(_, _) => seq![' '] + pair_repr(*d),
            _ => seq![' ', '.', ' '] + cell_repr(*d) + seq![')'],
        }),
        _ => seq![')'],
    }
}

/// The printed form of an inexact number: an exact decimal whenever the
/// wide machine range can carry the conversion, else an opaque marker.
fn float_to_chars(m: i64, e: i32) -> (r: Vec<char>) {
    let mut out: Vec<char> = Vec::new();
    if m == 0 {
        push_str(&mut out, "0.0");
        return out;
    }
    if e >= 0 && e <= 74 {
        let pw = pow2_u128(e as u32);
        let ma: u128 = if m < 0 {
            (-(m as i128)) as u128
        } else {
            m as u128
        };
        match ma.checked_mul(pw) {
            Some(v) => {
                if m < 0 {
                    out.push('-');
                }
                let d = u128_to_chars(v);
                push_all(&mut out, &d);
                push_str(&mut out, ".0");
                return out;
            },
            None => {},
        }
    } else if e < 0 && e >= -74 {
        let k: u32 = (-(e as i64)) as u32;
        match pow5_u128(k) {
            Some(p5) => {
                let ma: u128 = if m < 0 {
                    (-(m as i128)) as u128
                } else {
                    m as u128
                };
                match ma.checked_mul(p5) {
                    Some(v) => {
                        // v / 10^k, printed with the point k digits from
                        // the right
                        if m < 0 {
                            out.push('-');
                        }
                        let d = u128_to_chars(v);
                        if d.len() > k as usize {
                            let cut: usize = d.len() - k as usize;
                            let mut i: usize = 0;
                            while i < d.len()
                                invariant
                                    i <= d@.len(),
                                decreases d@.len() - i,
                            {
                                if i == cut {
                                    out.push('.');
                                }
                                out.push(d[i]);
                                i = i + 1;
                            }
                        } else {
                            push_str(&mut out, "0.");
                            let mut z: usize = d.len();
                            while z < k as usize
                                invariant
                                    z <= k,
                                decreases k - z,
                            {
                                out.push('0');
                                z = z + 1;
                            }
                            push_all(&mut out, &d);
                        }
                        return out;
                    },
                    None => {},
                }
            },
            None => {},
        }
    }
    let mut fb: Vec<char> = Vec::new();
    push_str(&mut fb, "#<inexact>");
    fb
}

/// The printed form of a number: integers in decimal, rationals as `n/d`,
/// inexact numbers in decimal.
pub fn number_to_chars(n: &Number) -> (r: Vec<char>)
    requires
        crate::number::number_wf(*n),
    ensures
        n matches Number::Int(i) ==> r@ == dec_i(i as int),
        n matches Number::Rational(p, q) ==> r@ == dec_i(p as int) + seq!['/'] + dec_u(
            iabs(q as int),
        ),
{
    match n {
        Number::Int(i) => {
            if *i == i64::MIN {
                let mut out: Vec<char> = Vec::new();
                out.push('-');
                let d = u128_to_chars(9223372036854775808u128);
                push_all(&mut out, &d);
                proof {
                    assert(out@ =~= seq!['-'] + dec_u(9223372036854775808nat));
                }
                out
            } else {
                i128_to_chars(*i as i128)
            }
        },
        Number::Rational(p, q) => {
            let mut out = if *p == i64::MIN {
                let mut o: Vec<char> = Vec::new();
                o.push('-');
                let d = u128_to_chars(9223372036854775808u128);
                push_all(&mut o, &d);
                proof {
                    assert(o@ =~= seq!['-'] + dec_u(9223372036854775808nat));
                }
                o
            } else {
                i128_to_chars(*p as i128)
            };
            out.push('/');
            let qa: u128 = *q as u128;
            let d = u128_to_chars(qa);
            push_all(&mut out, &d);
            proof {
                assert(out@ =~= dec_i(p as int) + seq!['/'] + dec_u(iabs(q as int)));
            }
            out
        },
        Number::Float(d) => float_to_chars(d.m, d.e),
    }
}

/// The printed form of a character: `#\x` or a name for the characters
/// that have one.
fn char_to_chars(c: char) -> (r: Vec<char>)
    ensures
        r@ == char_repr(c),
{
    let mut out: Vec<char> = Vec::new();
    out.push('#');
    out.push('\\');
    if c == '\n' {
        push_str(&mut out, "newline");
        proof {
            reveal_strlit("newline");
            assert(out@ =~= char_repr(c));
        }
    } else if c == ' ' {
        push_str(&mut out, "space");
        proof {
            reveal_strlit("space");
            assert(out@ =~= char_repr(c));
        }
    } else if c == '\t' {
        push_str(&mut out, "tab");
        proof {
            reveal_strlit("tab");
            assert(out@ =~= char_repr(c));
        }
    } else if c == '\0' {
        push_str(&mut out, "null");
        proof {
            reveal_strlit("null");
            assert(out@ =~= char_repr(c));
        }
    } else if c == '\u{7}' {
        push_str(&mut out, "alarm");
        proof {
            reveal_strlit("alarm");
            assert(out@ =~= char_repr(c));
        }
    } else if c == '\u{8}' {
        push_str(&mut out, "backspace");
        proof {
            reveal_strlit("backspace");
            assert(out@ =~= char_repr(c));
        }
    } else if c == '\u{7f}' {
        push_str(&mut out, "delete");
        proof {
            reveal_strlit("delete");
            assert(out@ =~= char_repr(c));
        }
    } else if c == '\u{1b}' {
        push_str(&mut out, "escape");
        proof {
            reveal_strlit("escape");
            assert(out@ =~= char_repr(c));
        }
    } else if c == '\r' {
        push_str(&mut out, "return");
        proof {
            reveal_strlit("return");
            assert(out@ =~= char_repr(c));
        }
    } else {
        out.push(c);
        proof {
            assert(out@ =~= char_repr(c));
        }
    }
    out
}

/// The hexadecimal digits of `x`.
fn hex_chars(x: u32) -> (r: Vec<char>)
    ensures
        r@ == hex_repr(x as int),
    decreases x,
{
    let d: u32 = x % 16;
    let hc: char = if d < 10 {
        digit_char(d as u128)
    } else if d == 10 {
        'a'
    } else if d == 11 {
        'b'
    } else if d == 12 {
        'c'
    } else if d == 13 {
        'd'
    } else if d == 14 {
        'e'
    } else {
        'f'
    };
    proof {
        assert(hc == hchar(x as int % 16));
        if x < 16 {
            assert(x as int % 16 == x as int) by (nonlinear_arith)
                requires
                    0 <= x < 16,
            ;
        }
    }
    if x < 16 {
        let mut v: Vec<char> = Vec::new();
        v.push(hc);
        proof {
            assert(v@ =~= hex_repr(x as int));
        }
        v
    } else {
        let mut v = hex_chars(x / 16);
        v.push(hc);
        v
    }
}

/// The printed form of a symbol: its text, with `\xNN;` escapes for any
/// character that could not appear bare at its position.
fn symbol_to_chars(text: &Vec<char>) -> (r: Vec<char>)
    ensures
        r@ == sym_repr_to(text@, text@.len() as int),
{
    let mut out: Vec<char> = Vec::new();
    let mut i: usize = 0;
    while i < text.len()
        invariant
            i <= text@.len(),
            out@ == sym_repr_to(text@, i as int),
        decreases text@.len() - i,
    {
        let c = text[i];
        let ok: bool = if i == 0 {
            crate::lex::is_initial_identifier(c) || c == '+' || c == '-'
        } else {
            crate::lex::is_subsequent_identifier(c)
        };
        proof {
            assert(ok == sym_char_ok(c, i == 0));
        }
        if ok {
            out.push(c);
            proof {
                assert(out@ =~= sym_repr_to(text@, i + 1));
            }
        } else {
            push_str(&mut out, "\\x");
            let h = hex_chars(c as u32);
            push_all(&mut out, &h);
            out.push(';');
            proof {
                reveal_strlit("\\x");
                assert(out@ =~= sym_repr_to(text@, i + 1));
            }
        }
        i = i + 1;
    }
    out
}

/// The printed form of a string: quoted, with `"` and `\` escaped.
fn string_to_chars(text: &Vec<char>) -> (r: Vec<char>)
    ensures
        r@ == seq!['"'] + str_escape_to(text@, text@.len() as int) + seq!['"'],
{
    let mut out: Vec<char> = Vec::new();
    out.push('"');
    proof {
        assert(out@ =~= seq!['"'] + str_escape_to(text@, 0));
    }
    let mut i: usize = 0;
    while i < text.len()
        invariant
            i <= text@.len(),
            out@ == seq!['"'] + str_escape_to(text@, i as int),
        decreases text@.len() - i,
    {
        let c = text[i];
        if c == '"' || c == '\\' {
            out.push('\\');
        }
        out.push(c);
        proof {
            assert(out@ =~= seq!['"'] + str_escape_to(text@, i + 1));
        }
        i = i + 1;
    }
    out.push('"');
    proof {
        assert(out@ =~= seq!['"'] + str_escape_to(text@, text@.len() as int) + seq!['"']);
    }
    out
}

/// The external representation of a value, as the reader accepts it back.
pub fn write_cell(c: &Cell) -> (r: Vec<char>)
    requires
        crate::cell::cell_wf(*c),
    ensures
        cell_no_inexact(*c) ==> r@ == cell_repr(*c),
    decreases *c, 1int,
{
    let mut out: Vec<char> = Vec::new();
    match c {
        Cell::Boolean(b) => {
            if *b {
                push_str(&mut out, "#t");
                proof {
                    reveal_strlit("#t");
                    assert(out@ =~= cell_repr(*c));
                }
            } else {
                push_str(&mut out, "#f");
                proof {
                    reveal_strlit("#f");
                    assert(out@ =~= cell_repr(*c));
                }
            }
        },
        Cell::Char(ch) => {
            let v = char_to_chars(*ch);
            push_all(&mut out, &v);
            proof {
                assert(out@ =~= cell_repr(*c));
            }
        },
        Cell::Number(n) => {
            let v = number_to_chars(n);
            push_all(&mut out, &v);
            proof {
                if cell_no_inexact(*c) {
                    assert(out@ =~= cell_repr(*c));
                }
            }
        },
        Cell::Symbol(s) => {
            let t = crate::chars::str_chars(s.as_str());
            let v = symbol_to_chars(&t);
            push_all(&mut out, &v);
            proof {
                assert(out@ =~= cell_repr(*c));
            }
        },
        Cell::Str(t) => {
            let v = string_to_chars(t);
            push_all(&mut out, &v);
            proof {
                assert(out@ =~= cell_repr(*c));
            }
        },
        Cell::Vector(v) => {
            push_str(&mut out, "#(");
            proof {
                reveal_strlit("#(");
                assert(out@ =~= vec_repr_to(*v, 0));
            }
            let mut i: usize = 0;
            while i < v.len()
                invariant
                    i <= v@.len(),
                    *c is Vector,
                    c->Vector_0 == *v,
                    crate::cell::cell_wf(*c),
                    cell_no_inexact(*c) ==> out@ == vec_repr_to(*v, i as int),
                decreases v@.len() - i,
            {
                if i > 0 {
                    out.push(' ');
                }
                proof {
                    vstd::std_specs::vec::axiom_vec_index_decreases::<Cell>(*v, i as int);
                }
                let w = write_cell(&v[i]);
                push_all(&mut out, &w);
                proof {
                    if cell_no_inexact(*c) {
                        assert(cell_no_inexact(v@[i as int]));
                        assert(out@ =~= vec_repr_to(*v, i + 1));
                    }
                }
                i = i + 1;
            }
            out.push(')');
            proof {
                if cell_no_inexact(*c) {
                    assert(out@ =~= cell_repr(*c));
                }
            }
        },
        Cell::Cons(_, _) => {
            out.push('(');
            write_pair(c, &mut out);
            proof {
                if cell_no_inexact(*c) {
                    assert(out@ =~= cell_repr(*c));
                }
            }
        },
        Cell::Nil => {
            push_str(&mut out, "()");
            proof {
                reveal_strlit("()");
                assert(out@ =~= cell_repr(*c));
            }
        },
        Cell::Void => {
            push_str(&mut out, "#<void>");
            proof {
                reveal_strlit("#<void>");
                assert(out@ =~= cell_repr(*c));
            }
        },
        Cell::Procedure(_) => {
            push_str(&mut out, "#<procedure>");
            proof {
                reveal_strlit("#<procedure>");
                assert(out@ =~= cell_repr(*c));
            }
        },
    }
    out
}

/// Writes the elements of a pair chain and the closing parenthesis.
fn write_pair(c: &Cell, out: &mut Vec<char>)
    requires
        crate::cell::cell_wf(*c),
    ensures
        cell_no_inexact(*c) ==> final(out)@ == old(out)@ + pair_repr(*c),
    decreases *c, 0int,
{
    match c {
        Cell::Cons(a, d) => {
            let w = write_cell(&**a);
            push_all(out, &w);
            match &**d {
                Cell::Nil => {
                    out.push(')');
                    proof {
                        if cell_no_inexact(*c) {
                            assert(out@ =~= old(out)@ + pair_repr(*c));
                        }
                    }
                },
                Cell::Cons(_, _) => {
                    out.push(' ');
                    write_pair(&**d, out);
                    proof {
                        if cell_no_inexact(*c) {
                            assert(out@ =~= old(out)@ + pair_repr(*c));
                        }
                    }
                },
                _ => {
                    push_str(out, " . ");
                    let w2 = write_cell(&**d);
                    push_all(out, &w2);
                    out.push(')');
                    proof {
                        if cell_no_inexact(*c) {
                            reveal_strlit(" . ");
                            assert(out@ =~= old(out)@ + pair_repr(*c));
                        }
                    }
                },
            }
        },
        _ => {
            out.push(')');
            proof {
                assert(out@ =~= old(out)@ + pair_repr(*c));
            }
        },
    }
}

/// The external representation, as text.
pub fn cell_to_string(c: &Cell) -> (r: String)
    requires
        crate::cell::cell_wf(*c),
    ensures
        cell_no_inexact(*c) ==> r@ == cell_repr(*c),
{
    let v = write_cell(c);
    chars_to_string(&v)
}

impl Cell {
    /// The historical display form: like the external representation, but
    /// the empty list prints quoted, and a pair chain prints only the
    /// elements reached before a non-pair tail.
    pub fn to_string(&self) -> (r: String)
        requires
            crate::cell::cell_wf(*self),
        ensures
            cell_no_inexact(*self) ==> r@ == legacy_repr(*self),
    {
        let mut out: Vec<char> = Vec::new();
        legacy_write(self, &mut out);
        chars_to_string(&out)
    }
}

/// The display form used by `Cell::to_string`.
fn legacy_write(c: &Cell, out: &mut Vec<char>)
    requires
        crate::cell::cell_wf(*c),
    ensures
        cell_no_inexact(*c) ==> final(out)@ == old(out)@ + legacy_repr(*c),
    decreases *c, 1int,
{
    match c {
        Cell::Nil => {
            push_str(out, "'()");
            proof {
                reveal_strlit("'()");
                assert(out@ =~= old(out)@ + legacy_repr(*c));
            }
        },
        Cell::Cons(_, _) => {
            out.push('(');
            legacy_items(c, out);
            proof {
                if cell_no_inexact(*c) {
                    assert(out@ =~= old(out)@ + legacy_repr(*c));
                }
            }
        },
        _ => {
            let v = write_cell(c);
            push_all(out, &v);
            proof {
                if cell_no_inexact(*c) {
                    assert(out@ =~= old(out)@ + legacy_repr(*c));
                }
            }
        },
    }
}

/// Writes the elements of a pair chain in the display form, stopping at
/// the first non-pair tail.
fn legacy_items(c: &Cell, out: &mut Vec<char>)
    requires
        crate::cell::cell_wf(*c),
    ensures
        cell_no_inexact(*c) ==> final(out)@ == old(out)@ + legacy_items_repr(*c),
    decreases *c, 0int,
{
    match c {
        Cell::Cons(a, d) => {
            legacy_write(&**a, out);
            match &**d {
                Cell::Cons(_, _) => {
                    out.push(' ');
                    legacy_items(&**d, out);
                    proof {
                        if cell_no_inexact(*c) {
                            assert(out@ =~= old(out)@ + legacy_items_repr(*c));
                        }
                    }
                },
                _ => {
                    out.push(')');
                    proof {
                        if cell_no_inexact(*c) {
                            assert(out@ =~= old(out)@ + legacy_items_repr(*c));
                        }
                    }
                },
            }
        },
        _ => {
            out.push(')');
            proof {
                assert(out@ =~= old(out)@ + legacy_items_repr(*c));
            }
        },
    }
}

/// The numeric value of a decimal digit character.
pub open spec fn dval(c: char) -> nat {
    (c as u32 - 48) as nat
}

/// The value a reader gives a string of decimal digits.
pub open spec fn digits_val(s: Seq<char>) -> nat
    decreases s.len(),
{
    if s.len() == 0 {
        0
    } else {
        digits_val(s.drop_last()) * 10 + dval(s.last())
    }
}

/// Reading back the printed decimal digits of a number gives the number:
/// the numeric kernel of the print/read round trip.  `dec_u` is what
/// `number_to_chars` promises to emit for an exact integer, and
/// `digits_val` is what `parse_number` promises to read from a plain run
/// of digits.
pub proof fn lemma_digits_round_trip(n: nat)
    ensures
        digits_val(dec_u(n)) == n,
    decreases n,
{
    if n < 10 {
        let s = dec_u(n);
        assert(s == seq![dchar(n)]);
        assert(s.len() == 1);
        assert(s.drop_last() =~= Seq::<char>::empty());
        assert(digits_val(s) == digits_val(s.drop_last()) * 10 + dval(s.last()));
        assert(dval(dchar(n)) == n);
    } else {
        lemma_digits_round_trip(n / 10);
        let p = dec_u(n / 10);
        let s = dec_u(n);
        assert(s == p.push(dchar(n % 10)));
        assert(s.drop_last() =~= p);
        assert(s.last() == dchar(n % 10));
        assert(dval(dchar(n % 10)) == n % 10);
        assert(digits_val(s) == (n / 10) * 10 + n % 10);
        assert((n / 10) * 10 + n % 10 == n) by (nonlinear_arith);
    }
}

/// Every character the decimal printer emits is a decimal digit.
pub proof fn lemma_dec_u_digits(n: nat)
    ensures
        forall|i: int| 0 <= i < dec_u(n).len() ==> crate::lex::spec_digit10(#[trigger] dec_u(n)[i]),
    decreases n,
{
    if n < 10 {
    } else {
        lemma_dec_u_digits(n / 10);
        assert forall|i: int|
            0 <= i < dec_u(n).len() implies crate::lex::spec_digit10(#[trigger] dec_u(n)[i]) by {
            if i < dec_u(n / 10).len() {
                assert(dec_u(n)[i] == dec_u(n / 10)[i]);
            } else {
                assert(dec_u(n)[i] == dchar(n % 10));
            }
        }
    }
}

/// On decimal digits, the printer's value function and the reader's agree.
pub proof fn lemma_digits_val_radix10(s: Seq<char>)
    requires
        forall|i: int| 0 <= i < s.len() ==> crate::lex::spec_digit10(#[trigger] s[i]),
    ensures
        digits_val(s) == crate::parse::radix_val(s, 10),
    decreases s.len(),
{
    if s.len() > 0 {
        assert forall|i: int|
            0 <= i < s.drop_last().len() implies crate::lex::spec_digit10(
            #[trigger] s.drop_last()[i],
        ) by {
            assert(s.drop_last()[i] == s[i]);
        }
        lemma_digits_val_radix10(s.drop_last());
    }
}

/// The full round trip for a printed exact integer: the digits that
/// `number_to_chars` promises to emit read back, through `parse_number`'s
/// promised value, as the same number.
pub proof fn lemma_print_read_int(n: nat)
    ensures
        crate::parse::signed_digits(dec_u(n), 10),
        crate::parse::signed_val(dec_u(n), 10) == n,
{
    lemma_dec_u_digits(n);
    lemma_digits_val_radix10(dec_u(n));
    lemma_digits_round_trip(n);
    assert(dec_u(n).len() >= 1);
    assert(crate::lex::spec_digit10(dec_u(n)[0]));
    assert(dec_u(n)[0] != '+' && dec_u(n)[0] != '-');
    assert(crate::parse::all_digits_radix(dec_u(n), 10)) by {
        assert forall|i: int|
            0 <= i < dec_u(n).len() implies crate::parse::spec_digit_ok(
            #[trigger] dec_u(n)[i],
            10,
        ) by {
            assert(crate::lex::spec_digit10(dec_u(n)[i]));
        }
    }
}

} // verus!
