//! The reader: turns scanned tokens back into `Cell` trees.  Numeric
//! literals support the exactness prefixes `#e`/`#i` and the radix
//! prefixes `#b`/`#o`/`#d`/`#x`, composable in either order; symbols may
//! carry `\xNN;` escapes, which denote the escaped character itself.

use vstd::prelude::*;
use vstd::string::*;
use crate::cell::Cell;
use crate::cell::cell_wf;
use crate::chars::char_from_u32;
use crate::chars::chars_to_string;
use crate::chars::str_chars;
use crate::lex;
use crate::lex::Token;
use crate::lex::TokenType;
use crate::number::Number;
use crate::number::number_wf;
use crate::number::norm_dyadic;
use crate::number::dyadic_div;
use crate::number::num_is_zero;
use crate::number::make_rational_wide;
use crate::number::iabs;
use crate::number::is_exact;

verus! {

/// What can go wrong while reading.
#[derive(Debug, PartialEq, Eq)]
pub enum Error {
    /// The scanner rejected the text.
    Lex(lex::Error),
    /// The text ended inside an expression.
    Eof,
    /// A token that cannot start or continue an expression here.
    Unexpected,
    /// A numeric literal that does not parse or does not fit the tower.
    BadNumber,
    /// A character literal with an unknown name.
    BadChar,
}

/// The numeric value of a digit character, in any radix up to sixteen.
pub open spec fn digit_char_val(c: char) -> int {
    if crate::lex::spec_digit10(c) {
        c as u32 - 48
    } else if 'a' as u32 <= c as u32 && c as u32 <= 'f' as u32 {
        c as u32 - 87
    } else if 'A' as u32 <= c as u32 && c as u32 <= 'F' as u32 {
        c as u32 - 55
    } else {
        16
    }
}

/// Whether `c` is a digit of the given radix.
pub open spec fn spec_digit_ok(c: char, radix: int) -> bool {
    digit_char_val(c) < radix
}

/// The value a reader gives a run of digits in the given radix.
pub open spec fn radix_val(s: Seq<char>, radix: int) -> int
    decreases s.len(),
{
    if s.len() == 0 {
        0
    } else {
        radix_val(s.drop_last(), radix) * radix + digit_char_val(s.last())
    }
}

/// Digit values never drive a reading negative.
pub proof fn lemma_radix_val_nonneg(s: Seq<char>, radix: int)
    requires
        radix >= 2,
    ensures
        radix_val(s, radix) >= 0,
    decreases s.len(),
{
    if s.len() > 0 {
        lemma_radix_val_nonneg(s.drop_last(), radix);
        assert(radix_val(s.drop_last(), radix) * radix >= 0) by (nonlinear_arith)
            requires
                radix_val(s.drop_last(), radix) >= 0,
                radix >= 2,
        ;
    }
}

/// A prefix of a digit run reads as at most the whole run.
pub proof fn lemma_radix_val_prefix(s: Seq<char>, i: int, radix: int)
    requires
        radix >= 2,
        0 <= i <= s.len(),
    ensures
        radix_val(s.subrange(0, i), radix) <= radix_val(s, radix),
    decreases s.len(),
{
    if i < s.len() {
        assert(s.drop_last().subrange(0, i) =~= s.subrange(0, i));
        lemma_radix_val_prefix(s.drop_last(), i, radix);
        lemma_radix_val_nonneg(s.drop_last(), radix);
        assert(radix_val(s.drop_last(), radix) * radix >= radix_val(s.drop_last(), radix))
            by (nonlinear_arith)
            requires
                radix_val(s.drop_last(), radix) >= 0,
                radix >= 2,
        ;
    } else {
        assert(s.subrange(0, i) =~= s);
    }
}

/// A non-empty run of digits of the radix.
pub open spec fn all_digits_radix(s: Seq<char>, radix: int) -> bool {
    s.len() >= 1 && forall|i: int| 0 <= i < s.len() ==> spec_digit_ok(#[trigger] s[i], radix)
}

/// An integer literal: digits, optionally signed.
pub open spec fn signed_digits(s: Seq<char>, radix: int) -> bool {
    all_digits_radix(s, radix) || (s.len() >= 2 && (s[0] == '+' || s[0] == '-')
        && all_digits_radix(s.skip(1), radix))
}

/// The signed value of an integer literal.
pub open spec fn signed_val(s: Seq<char>, radix: int) -> int {
    if s.len() >= 1 && s[0] == '-' {
        -radix_val(s.skip(1), radix)
    } else if s.len() >= 1 && s[0] == '+' {
        radix_val(s.skip(1), radix)
    } else {
        radix_val(s, radix)
    }
}

/// Appends one digit to an accumulator, refusing values past the working
/// bound.
fn acc_digit(acc: i128, radix: u32, d: u32) -> (r: Option<i128>)
    requires
        2 <= radix <= 16,
        d < radix,
        0 <= acc,
    ensures
        r matches Some(v) ==> 0 <= v < 0x20_0000_0000_0000_0000_0000,
        r matches Some(v) ==> v == acc * (radix as int) + d,
        acc <= 0x1_0000_0000_0000_0000_0000 ==> r is Some,
{
    if acc > 0x1_0000_0000_0000_0000_0000i128 {
        return None;
    }
    proof {
        assert(0 <= acc * (radix as i128) + (d as i128) < 0x20_0000_0000_0000_0000_0000)
            by (nonlinear_arith)
            requires
                0 <= acc <= 0x1_0000_0000_0000_0000_0000i128,
                2 <= radix <= 16,
                0 <= d < 16,
        ;
    }
    Some(acc * (radix as i128) + (d as i128))
}

/// A character datum is trivially well formed.
proof fn lemma_char_cell_wf(c: char)
    ensures
        cell_wf(Cell::Char(c)),
{
}

/// The digit value of `c` in the given radix.
fn digit_val(c: char, radix: u32) -> (r: Option<u32>)
    requires
        2 <= radix <= 16,
    ensures
        r matches Some(d) ==> d < radix,
        spec_digit_ok(c, radix as int) ==> (r matches Some(d) && d as int == digit_char_val(c)),
{
    let u = c as u32;
    let d: u32 = if u >= 48 && u <= 57 {
        u - 48
    } else if u >= 97 && u <= 102 {
        u - 97 + 10
    } else if u >= 65 && u <= 70 {
        u - 65 + 10
    } else {
        16
    };
    if d < radix {
        Some(d)
    } else {
        None
    }
}

/// `radix ^ k`, while the machine range holds it.
fn radix_pow(radix: u32, k: u32) -> (r: Option<i128>)
    requires
        2 <= radix <= 16,
    ensures
        r matches Some(v) ==> 1 <= v,
        k == 0 ==> (r matches Some(v) && v == 1),
{
    let mut i: u32 = 0;
    let mut v: i128 = 1;
    while i < k
        invariant
            1 <= v,
            2 <= radix <= 16,
            i == 0 ==> v == 1,
            i <= k,
        decreases k - i,
    {
        match v.checked_mul(radix as i128) {
            Some(nv) => {
                proof {
                    assert(nv >= 1) by (nonlinear_arith)
                        requires
                            nv == v * (radix as i128),
                            v >= 1,
                            radix >= 2,
                    ;
                }
                v = nv;
                i = i + 1;
            },
            None => {
                return None;
            },
        }
    }
    Some(v)
}

/// Reads a numeric literal.  The default exactness is exact, unless the
/// literal has a decimal point or an exponent; an explicit `#e`/`#i`
/// overrides that.  The result is always in canonical form; an optionally
/// signed run of digits reads as exactly the integer it spells in the
/// given radix, and an exactness prefix fixes the result's kind.
pub fn parse_number(text: &Vec<char>, radix: u32, exactness: Option<bool>) -> (r: Result<
    Number,
    Error,
>)
    requires
        2 <= radix <= 16,
    ensures
        r matches Ok(n) ==> number_wf(n),
        ((exactness is None || exactness == Some(true)) && signed_digits(text@, radix as int))
            ==> (r matches Ok(n) ==> (n matches Number::Int(v) && v as int == signed_val(
            text@,
            radix as int,
        ))),
        ((exactness is None || exactness == Some(true)) && signed_digits(text@, radix as int)
            && iabs(signed_val(text@, radix as int)) < 0x4000_0000_0000_0000) ==> r is Ok,
        exactness == Some(false) ==> (r matches Ok(n) ==> !is_exact(n)),
        exactness == Some(true) ==> (r matches Ok(n) ==> is_exact(n)),
{
    let ghost plain: bool = (exactness is None || exactness == Some(true)) && signed_digits(
        text@,
        radix as int,
    );
    let ghost bounded: bool = plain && iabs(signed_val(text@, radix as int))
        < 0x4000_0000_0000_0000;
    let n = text.len();
    let mut i: usize = 0;
    let mut neg: bool = false;
    if i < n && (text[i] == '+' || text[i] == '-') {
        neg = text[i] == '-';
        i = i + 1;
    }
    let ghost start: int = i as int;
    proof {
        if plain {
            assert(start == 0 || start == 1);
            if start == 0 {
                // an unsigned literal: its first character is a digit
                assert(spec_digit_ok(text@[0], radix as int));
            } else {
                assert(all_digits_radix(text@.skip(1), radix as int));
            }
            assert(text@.subrange(start, start) =~= Seq::<char>::empty());
        }
    }
    // integer part
    let mut mant: i128 = 0;
    let mut ndig: bool = false;
    while i < n
        invariant
            0 <= mant < 0x20_0000_0000_0000_0000_0000,
            start <= i,
            i <= n,
            n == text@.len(),
            2 <= radix <= 16,
            plain == ((exactness is None || exactness == Some(true)) && signed_digits(
                text@,
                radix as int,
            )),
            bounded == (plain && iabs(signed_val(text@, radix as int)) < 0x4000_0000_0000_0000),
            plain ==> ndig == (i > start),
            plain ==> (start == 0 || start == 1),
            plain ==> (start == 1 ==> text@.len() >= 2 && (text@[0] == '+' || text@[0] == '-')
                && all_digits_radix(text@.skip(1), radix as int)),
            plain ==> (start == 0 ==> all_digits_radix(text@, radix as int)),
            plain ==> mant == radix_val(text@.subrange(start, i as int), radix as int),
        ensures
            plain ==> i == n,
        decreases n - i,
    {
        let ghost pre = mant;
        match digit_val(text[i], radix) {
            Some(d) => {
                proof {
                    if bounded {
                        // the prefix read so far cannot exceed the whole
                        // literal's value, which is within the bound
                        lemma_radix_val_prefix(
                            text@.subrange(start, n as int),
                            i - start,
                            radix as int,
                        );
                        assert(text@.subrange(start, n as int).subrange(0, i - start)
                            =~= text@.subrange(start, i as int));
                        lemma_radix_val_nonneg(text@.subrange(start, i as int), radix as int);
                        lemma_radix_val_nonneg(text@.subrange(start, n as int), radix as int);
                        if start == 0 {
                            assert(text@.subrange(0, n as int) =~= text@);
                            assert(text@[0] != '+' && text@[0] != '-');
                            assert(iabs(signed_val(text@, radix as int)) == radix_val(
                                text@,
                                radix as int,
                            ));
                        } else {
                            assert(text@.subrange(1, n as int) =~= text@.skip(1));
                            assert(iabs(signed_val(text@, radix as int)) == radix_val(
                                text@.skip(1),
                                radix as int,
                            ));
                        }
                        assert(mant < 0x4000_0000_0000_0000);
                    }
                }
                match acc_digit(mant, radix, d) {
                    Some(v) => {
                        mant = v;
                    },
                    None => {
                        proof {
                            if bounded {
                                assert(false);
                            }
                        }
                        return Err(Error::BadNumber);
                    },
                }
                proof {
                    if plain {
                        let s1 = text@.subrange(start, i + 1);
                        assert(s1.drop_last() =~= text@.subrange(start, i as int));
                        assert(s1.last() == text@[i as int]);
                        assert(spec_digit_ok(text@[i as int], radix as int)) by {
                            if start == 1 {
                                assert(text@.skip(1)[i - 1] == text@[i as int]);
                            }
                        };
                        assert(d as int == digit_char_val(text@[i as int]));
                        assert(mant == pre * (radix as int) + d);
                        assert(mant == radix_val(s1, radix as int));
                    }
                }
                ndig = true;
                i = i + 1;
            },
            None => {
                proof {
                    if plain {
                        assert(spec_digit_ok(text@[i as int], radix as int)) by {
                            if start == 1 {
                                assert(text@.skip(1)[i - 1] == text@[i as int]);
                            }
                        };
                        assert(false);
                    }
                }
                break ;
            },
        }
    }
    proof {
        if plain {
            assert(i == n);
            if start == 0 {
                assert(text@.subrange(0, n as int) =~= text@);
            } else {
                assert(text@.subrange(1, n as int) =~= text@.skip(1));
            }
            if bounded {
                lemma_radix_val_nonneg(text@.subrange(start, n as int), radix as int);
                if start == 0 {
                    assert(text@[0] != '+' && text@[0] != '-');
                    assert(iabs(signed_val(text@, radix as int)) == radix_val(
                        text@,
                        radix as int,
                    ));
                } else {
                    assert(iabs(signed_val(text@, radix as int)) == radix_val(
                        text@.skip(1),
                        radix as int,
                    ));
                }
                assert(mant < 0x4000_0000_0000_0000);
            }
        }
    }
    if !ndig {
        return Err(Error::BadNumber);
    }
    // a ratio `p/q`
    if i < n && text[i] == '/' {
        i = i + 1;
        let mut den: i128 = 0;
        let mut ddig: bool = false;
        while i < n
            invariant
                0 <= den < 0x20_0000_0000_0000_0000_0000,
                !plain,
                plain == ((exactness is None || exactness == Some(true)) && signed_digits(
                    text@,
                    radix as int,
                )),
                i <= n,
                n == text@.len(),
                2 <= radix <= 16,
            decreases n - i,
        {
            match digit_val(text[i], radix) {
                Some(d) => {
                    match acc_digit(den, radix, d) {
                        Some(v) => {
                            den = v;
                        },
                        None => {
                            return Err(Error::BadNumber);
                        },
                    }
                    ddig = true;
                    i = i + 1;
                },
                None => {
                    break ;
                },
            }
        }
        if !ddig || i != n || den == 0 {
            return Err(Error::BadNumber);
        }
        let p: i128 = if neg {
            -mant
        } else {
            mant
        };
        let exact = match exactness {
            Some(b) => b,
            None => true,
        };
        match make_rational_wide(p, den) {
            Some(v) => {
                if exact {
                    return Ok(v);
                }
                return inexact_of_ratio(p, den);
            },
            None => {
                return Err(Error::BadNumber);
            },
        }
    }
    // a fraction part
    let mut fdig: u32 = 0;
    let mut saw_point: bool = false;
    if i < n && text[i] == '.' {
        saw_point = true;
        i = i + 1;
        while i < n
            invariant
                0 <= mant < 0x20_0000_0000_0000_0000_0000,
                !plain,
                plain == ((exactness is None || exactness == Some(true)) && signed_digits(
                    text@,
                    radix as int,
                )),
                i <= n,
                n == text@.len(),
                2 <= radix <= 16,
                fdig <= 64,
            decreases n - i,
        {
            match digit_val(text[i], radix) {
                Some(d) => {
                    if fdig >= 64 {
                        return Err(Error::BadNumber);
                    }
                    match acc_digit(mant, radix, d) {
                        Some(v) => {
                            mant = v;
                        },
                        None => {
                            return Err(Error::BadNumber);
                        },
                    }
                    fdig = fdig + 1;
                    i = i + 1;
                },
                None => {
                    break ;
                },
            }
        }
    }
    // a decimal exponent
    let mut saw_exp: bool = false;
    let mut exp_neg: bool = false;
    let mut expv: u32 = 0;
    if radix == 10 && i < n && (text[i] == 'e' || text[i] == 'E') {
        saw_exp = true;
        i = i + 1;
        if i < n && (text[i] == '+' || text[i] == '-') {
            exp_neg = text[i] == '-';
            i = i + 1;
        }
        let mut edig: bool = false;
        while i < n
            invariant
                expv <= 1000,
                !plain,
                plain == ((exactness is None || exactness == Some(true)) && signed_digits(
                    text@,
                    radix as int,
                )),
                i <= n,
                n == text@.len(),
            decreases n - i,
        {
            match digit_val(text[i], 10) {
                Some(d) => {
                    if expv > 30 {
                        return Err(Error::BadNumber);
                    }
                    expv = expv * 10 + d;
                    edig = true;
                    i = i + 1;
                },
                None => {
                    break ;
                },
            }
        }
        if !edig {
            return Err(Error::BadNumber);
        }
    }
    if i != n {
        return Err(Error::BadNumber);
    }
    // assemble the exact ratio mant * radix^-fdig * 10^exp
    let mut num: i128 = if neg {
        -mant
    } else {
        mant
    };
    let mut den: i128 = match radix_pow(radix, fdig) {
        Some(v) => v,
        None => {
            return Err(Error::BadNumber);
        },
    };
    if saw_exp {
        match radix_pow(10, expv) {
            Some(scale) => {
                if exp_neg {
                    match den.checked_mul(scale) {
                        Some(v) => {
                            proof {
                                assert(v >= 1) by (nonlinear_arith)
                                    requires
                                        v == den * scale,
                                        den >= 1,
                                        scale >= 1,
                                ;
                            }
                            den = v;
                        },
                        None => {
                            return Err(Error::BadNumber);
                        },
                    }
                } else {
                    match num.checked_mul(scale) {
                        Some(v) => {
                            if v == i128::MIN {
                                return Err(Error::BadNumber);
                            }
                            num = v;
                        },
                        None => {
                            return Err(Error::BadNumber);
                        },
                    }
                }
            },
            None => {
                return Err(Error::BadNumber);
            },
        }
    }
    let exact = match exactness {
        Some(b) => b,
        None => !(saw_point || saw_exp),
    };
    if exact {
        match make_rational_wide(num, den) {
            Some(v) => {
                proof {
                    if plain {
                        assert(num as int == if neg { -(mant as int) } else { mant as int });
                        assert(den == 1);
                        vstd::arithmetic::div_mod::lemma_mod_multiples_basic(
                            iabs(num as int) as int,
                            1,
                        );
                        assert(crate::number::divides(1, iabs(num as int)));
                        assert(iabs(1int) == 1);
                        assert(v is Int);
                        assert(v matches Number::Int(x) && x * 1 == num * 1);
                        assert(v matches Number::Int(x) && x as int == signed_val(
                            text@,
                            radix as int,
                        ));
                    }
                }
                Ok(v)
            },
            None => {
                proof {
                    if bounded {
                        crate::number::lemma_small_reduced_fits(num as int, 1);
                        assert(false);
                    }
                }
                Err(Error::BadNumber)
            },
        }
    } else {
        inexact_of_ratio(num, den)
    }
}

/// The inexact number nearest `p / q` within the tower's precision.
fn inexact_of_ratio(p: i128, q: i128) -> (r: Result<Number, Error>)
    requires
        1 <= q,
        p != i128::MIN,
    ensures
        r matches Ok(n) ==> number_wf(n),
        r matches Ok(n) ==> !is_exact(n),
{
    let da = match norm_dyadic(p, 0) {
        Some(d) => d,
        None => {
            return Err(Error::BadNumber);
        },
    };
    let db = match norm_dyadic(q, 0) {
        Some(d) => d,
        None => {
            return Err(Error::BadNumber);
        },
    };
    if db.m == 0 {
        return Err(Error::BadNumber);
    }
    match dyadic_div(da, db) {
        Some(d) => Ok(Number::Float(d)),
        None => Err(Error::BadNumber),
    }
}

/// Decodes the text of a character literal (without its `#\` opening).
fn decode_char_name(t: &Vec<char>, from: usize) -> (r: Result<char, Error>)
    requires
        from <= t@.len(),
{
    let n = t.len();
    if n - from == 1 {
        return Ok(t[from]);
    }
    if n - from == 0 {
        return Err(Error::BadChar);
    }
    if char_name_is(t, from, "newline") {
        return Ok('\n');
    }
    if char_name_is(t, from, "space") {
        return Ok(' ');
    }
    if char_name_is(t, from, "tab") {
        return Ok('\t');
    }
    if char_name_is(t, from, "null") {
        return Ok('\0');
    }
    if char_name_is(t, from, "alarm") {
        return Ok('\u{7}');
    }
    if char_name_is(t, from, "backspace") {
        return Ok('\u{8}');
    }
    if char_name_is(t, from, "delete") {
        return Ok('\u{7f}');
    }
    if char_name_is(t, from, "escape") {
        return Ok('\u{1b}');
    }
    if char_name_is(t, from, "return") {
        return Ok('\r');
    }
    if t[from] == 'x' {
        let mut u: u32 = 0;
        let mut i: usize = from + 1;
        while i < n
            invariant
                from < i <= n,
                n == t@.len(),
            decreases n - i,
        {
            match digit_val(t[i], 16) {
                Some(d) => {
                    if u > 0x10_0000 {
                        return Err(Error::BadChar);
                    }
                    u = u * 16 + d;
                    i = i + 1;
                },
                None => {
                    return Err(Error::BadChar);
                },
            }
        }
        match char_from_u32(u) {
            Some(c) => {
                return Ok(c);
            },
            None => {
                return Err(Error::BadChar);
            },
        }
    }
    Err(Error::BadChar)
}

/// Whether the characters of `t` from `from` on spell `name`.
fn char_name_is(t: &Vec<char>, from: usize, name: &str) -> (r: bool)
    requires
        from <= t@.len(),
{
    let cs = str_chars(name);
    let tn: usize = t.len();
    if tn - from != cs.len() {
        return false;
    }
    let mut i: usize = 0;
    while i < cs.len()
        invariant
            i <= cs@.len(),
            tn == t@.len(),
            from <= tn,
            tn - from == cs@.len(),
        decreases cs@.len() - i,
    {
        if t[from + i] != cs[i] {
            return false;
        }
        i = i + 1;
    }
    true
}

/// Decodes a string literal's body (between the quotes).
fn decode_string_body(t: &Vec<char>, from: usize, to: usize) -> (r: Vec<char>)
    requires
        from <= to <= t@.len(),
{
    let mut out: Vec<char> = Vec::new();
    let mut i: usize = from;
    while i < to
        invariant
            from <= i <= to,
            to <= t@.len(),
        decreases to - i,
    {
        let c = t[i];
        if c == '\\' && i + 1 < to {
            let e = t[i + 1];
            let d: char = if e == 'n' {
                '\n'
            } else if e == 't' {
                '\t'
            } else if e == 'r' {
                '\r'
            } else if e == '0' {
                '\0'
            } else {
                e
            };
            out.push(d);
            i = i + 2;
        } else {
            out.push(c);
            i = i + 1;
        }
    }
    out
}

/// Decodes a symbol's text, resolving `\xNN;` escapes to the characters
/// they stand for.
fn decode_symbol_text(t: &Vec<char>) -> (r: Result<Vec<char>, Error>) {
    let n = t.len();
    let mut out: Vec<char> = Vec::new();
    let mut i: usize = 0;
    while i < n
        invariant
            i <= n,
            n == t@.len(),
        decreases n - i,
    {
        let c = t[i];
        if c == '\\' {
            if n - i < 2 || t[i + 1] != 'x' {
                return Err(Error::Unexpected);
            }
            let mut u: u32 = 0;
            let mut j: usize = i + 2;
            while j < n && t[j] != ';'
                invariant
                    i + 2 <= j <= n,
                    n == t@.len(),
                    u <= 0x100_000f,
                decreases n - j,
            {
                match digit_val(t[j], 16) {
                    Some(d) => {
                        if u > 0x10_0000 {
                            return Err(Error::BadChar);
                        }
                        u = u * 16 + d;
                    },
                    None => {
                        return Err(Error::Unexpected);
                    },
                }
                j = j + 1;
            }
            if j >= n {
                return Err(Error::Unexpected);
            }
            match char_from_u32(u) {
                Some(c2) => {
                    out.push(c2);
                },
                None => {
                    return Err(Error::BadChar);
                },
            }
            i = j + 1;
        } else {
            out.push(c);
            i = i + 1;
        }
    }
    Ok(out)
}

/// Builds a (possibly improper) list of the items with the given tail.
fn build_list(items: Vec<Cell>, tail: Cell) -> (r: Cell)
    requires
        cell_wf(tail),
        forall|i: int| 0 <= i < items@.len() ==> cell_wf(#[trigger] items@[i]),
    ensures
        cell_wf(r),
{
    let mut v = items;
    let mut r = tail;
    while v.len() > 0
        invariant
            cell_wf(r),
            forall|i: int| 0 <= i < v@.len() ==> cell_wf(#[trigger] v@[i]),
        decreases v.len(),
    {
        let last = v.pop().unwrap();
        r = Cell::Cons(Box::new(last), Box::new(r));
    }
    r
}

/// Extracts the characters of a token's span.
fn span_chars(cs: &Vec<char>, a: usize, b: usize) -> (r: Vec<char>)
    requires
        a <= b <= cs@.len(),
    ensures
        r@ == cs@.subrange(a as int, b as int),
{
    let mut out: Vec<char> = Vec::new();
    let mut i: usize = a;
    while i < b
        invariant
            a <= i <= b,
            b <= cs@.len(),
            out@ == cs@.subrange(a as int, i as int),
        decreases b - i,
    {
        out.push(cs[i]);
        proof {
            assert(out@ =~= cs@.subrange(a as int, i + 1));
        }
        i = i + 1;
    }
    out
}

/// Reads one expression starting at token `i`.  On success the returned
/// index lies past the expression, and the tree is well formed.
fn parse_expr(cs: &Vec<char>, toks: &Vec<Token>, i: usize) -> (r: Result<(Cell, usize), Error>)
    requires
        forall|k: int| 0 <= k < toks@.len() ==> crate::lex::token_wf(cs@, #[trigger] toks@[k]),
    ensures
        r matches Ok(p) ==> cell_wf(p.0) && i < p.1 <= toks@.len(),
    decreases toks@.len() - i, 1int,
{
    proof {
        reveal_with_fuel(cell_wf, 4);
    }
    if i >= toks.len() {
        return Err(Error::Eof);
    }
    let a = toks[i].span.0;
    let b = toks[i].span.1;
    match toks[i].token_type {
        TokenType::True => {
            let c = Cell::Boolean(true);
            proof {
                assert(cell_wf(c));
            }
            Ok((c, i + 1))
        },
        TokenType::False => {
            let c = Cell::Boolean(false);
            proof {
                assert(cell_wf(c));
            }
            Ok((c, i + 1))
        },
        TokenType::Number => {
            let t = span_chars(cs, a, b);
            // a bare sign scans as a number but names a symbol
            if t.len() == 1 && (t[0] == '+' || t[0] == '-') {
                let s = chars_to_string(&t);
                let c = Cell::Symbol(s);
                proof {
                    assert(cell_wf(c));
                }
                return Ok((c, i + 1));
            }
            match parse_number(&t, 10, None) {
                Ok(n) => {
                    let c = Cell::Number(n);
                    proof {
                        assert(cell_wf(c));
                    }
                    Ok((c, i + 1))
                },
                Err(e) => Err(e),
            }
        },
        TokenType::NumberPrefix => parse_prefixed_number(cs, toks, i),
        TokenType::Symbol => {
            let t = span_chars(cs, a, b);
            match decode_symbol_text(&t) {
                Ok(body) => {
                    let s = chars_to_string(&body);
                    let c = Cell::Symbol(s);
                    proof {
                        assert(cell_wf(c));
                    }
                    Ok((c, i + 1))
                },
                Err(e) => Err(e),
            }
        },
        TokenType::Char => {
            let t = span_chars(cs, a, b);
            match decode_char_name(&t, 2) {
                Ok(ch) => {
                    let c = Cell::Char(ch);
                    proof {
                        lemma_char_cell_wf(ch);
                        assert(cell_wf(c));
                    }
                    Ok((c, i + 1))
                },
                Err(e) => Err(e),
            }
        },
        TokenType::Str => {
            let body = decode_string_body(cs, a + 1, b - 1);
            let c = Cell::Str(body);
            proof {
                assert(cell_wf(c));
            }
            Ok((c, i + 1))
        },
        TokenType::SingleQuote => {
            match parse_expr(cs, toks, i + 1) {
                Ok((inner, j)) => {
                    let q = Cell::Symbol(String::from_str("quote"));
                    let rest = Cell::Cons(Box::new(inner), Box::new(Cell::Nil));
                    proof {
                        assert(cell_wf(Cell::Nil));
                        assert(cell_wf(q));
                        assert(cell_wf(rest));
                    }
                    let whole = Cell::Cons(Box::new(q), Box::new(rest));
                    proof {
                        assert(cell_wf(whole));
                    }
                    Ok((whole, j))
                },
                Err(e) => Err(e),
            }
        },
        TokenType::LeftParen => {
            let mut items: Vec<Cell> = Vec::new();
            let mut j: usize = i + 1;
            loop
                invariant
                    i < j <= toks@.len(),
                    forall|k: int|
                        0 <= k < toks@.len() ==> crate::lex::token_wf(cs@, #[trigger] toks@[k]),
                    forall|k: int| 0 <= k < items@.len() ==> cell_wf(#[trigger] items@[k]),
                decreases toks@.len() - j,
            {
                if j >= toks.len() {
                    return Err(Error::Eof);
                }
                match toks[j].token_type {
                    TokenType::RightParen => {
                        return Ok((build_list(items, Cell::Nil), j + 1));
                    },
                    TokenType::Dot => {
                        if items.len() == 0 {
                            return Err(Error::Unexpected);
                        }
                        match parse_expr(cs, toks, j + 1) {
                            Ok((tail, j2)) => {
                                if j2 < toks.len() && matches!(
                                    toks[j2].token_type,
                                    TokenType::RightParen,
                                ) {
                                    return Ok((build_list(items, tail), j2 + 1));
                                }
                                return Err(Error::Unexpected);
                            },
                            Err(e) => {
                                return Err(e);
                            },
                        }
                    },
                    _ => {
                        match parse_expr(cs, toks, j) {
                            Ok((item, j2)) => {
                                items.push(item);
                                j = j2;
                            },
                            Err(e) => {
                                return Err(e);
                            },
                        }
                    },
                }
            }
        },
        TokenType::HashParen => {
            let mut items: Vec<Cell> = Vec::new();
            let mut j: usize = i + 1;
            loop
                invariant
                    i < j <= toks@.len(),
                    forall|k: int|
                        0 <= k < toks@.len() ==> crate::lex::token_wf(cs@, #[trigger] toks@[k]),
                    forall|k: int| 0 <= k < items@.len() ==> cell_wf(#[trigger] items@[k]),
                decreases toks@.len() - j,
            {
                if j >= toks.len() {
                    return Err(Error::Eof);
                }
                match toks[j].token_type {
                    TokenType::RightParen => {
                        return Ok((Cell::Vector(items), j + 1));
                    },
                    _ => {
                        match parse_expr(cs, toks, j) {
                            Ok((item, j2)) => {
                                items.push(item);
                                j = j2;
                            },
                            Err(e) => {
                                return Err(e);
                            },
                        }
                    },
                }
            }
        },
        _ => Err(Error::Unexpected),
    }
}

/// Reads a number that follows one or more `#` prefixes.
fn parse_prefixed_number(cs: &Vec<char>, toks: &Vec<Token>, i: usize) -> (r: Result<
    (Cell, usize),
    Error,
>)
    requires
        forall|k: int| 0 <= k < toks@.len() ==> crate::lex::token_wf(cs@, #[trigger] toks@[k]),
        i < toks@.len(),
        toks@[i as int].token_type is NumberPrefix,
    ensures
        r matches Ok(p) ==> cell_wf(p.0) && i < p.1 <= toks@.len(),
    decreases toks@.len() - i, 0int,
{
    let mut radix: u32 = 10;
    let mut exactness: Option<bool> = None;
    let mut j: usize = i;
    while j < toks.len() && matches!(toks[j].token_type, TokenType::NumberPrefix)
        invariant
            i <= j <= toks@.len(),
            forall|k: int| 0 <= k < toks@.len() ==> crate::lex::token_wf(cs@, #[trigger] toks@[k]),
            2 <= radix <= 16,
        decreases toks@.len() - j,
    {
        let a = toks[j].span.0;
        let c = cs[a + 1];
        if c == 'e' {
            exactness = Some(true);
        } else if c == 'i' {
            exactness = Some(false);
        } else if c == 'b' {
            radix = 2;
        } else if c == 'o' {
            radix = 8;
        } else if c == 'd' {
            radix = 10;
        } else if c == 'x' {
            radix = 16;
        }
        j = j + 1;
    }
    if j >= toks.len() {
        return Err(Error::Eof);
    }
    let tt = &toks[j].token_type;
    if matches!(tt, TokenType::Number) || matches!(tt, TokenType::Symbol) {
        let t = span_chars(cs, toks[j].span.0, toks[j].span.1);
        match parse_number(&t, radix, exactness) {
            Ok(n) => Ok((Cell::Number(n), j + 1)),
            Err(e) => Err(e),
        }
    } else {
        Err(Error::BadNumber)
    }
}

/// Reads the first expression of the text.
pub fn parse_text(text: &str) -> (r: Result<Cell, Error>)
    ensures
        r matches Ok(c) ==> cell_wf(c),
{
    match lex::scan(text) {
        Ok(toks) => {
            let cs = str_chars(text);
            match parse_expr(&cs, &toks, 0) {
                Ok((c, _)) => Ok(c),
                Err(e) => Err(e),
            }
        },
        Err(e) => Err(Error::Lex(e)),
    }
}

} // verus!
