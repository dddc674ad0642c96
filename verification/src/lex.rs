//! The scanner: splits source text into spans, each tagged with the kind of
//! token it holds.  Spans count Unicode scalar values, and slicing a span
//! back out of the original text never splits a character.

use vstd::prelude::*;
use vstd::string::*;
use crate::chars::alphabetic_of;
use crate::chars::char_is_alphabetic;
use crate::chars::str_chars;

verus! {

/// The kind of a scanned span.
#[derive(Clone, Debug, PartialEq, Eq)]
pub enum TokenType {
    Char,
    Dot,
    False,
    HashParen,
    LeftParen,
    Number,
    NumberPrefix,
    RightParen,
    SingleQuote,
    Str,
    Symbol,
    True,
    WhiteSpace,
}

/// A span of the scanned text paired with its kind.  The `span` field holds
/// the start and end position in characters of the original text.
#[derive(Debug, PartialEq, Eq)]
pub struct Token {
    pub span: (usize, usize),
    pub token_type: TokenType,
}

impl Token {
    pub fn new(span: (usize, usize), token_type: TokenType) -> (r: Token)
        ensures
            r.span == span,
            r.token_type == token_type,
    {
        Token { span, token_type }
    }

    /// Extracts this token's span from the originally scanned text.
    pub fn span<'a, 'b>(&'a self, text: &'b str) -> (r: &'b str)
        requires
            self.span.0 <= self.span.1,
            self.span.1 <= text@.len(),
        ensures
            r@ == text@.subrange(self.span.0 as int, self.span.1 as int),
    {
        text.substring_char(self.span.0, self.span.1)
    }
}

/// The kind of error the scanner can meet.
#[derive(Clone, Debug, PartialEq, Eq)]
pub enum Error {
    UnexpectedToken(char),
}

pub open spec fn spec_digit10(c: char) -> bool {
    '0' as u32 <= c as u32 && c as u32 <= '9' as u32
}

pub open spec fn spec_digit16(c: char) -> bool {
    spec_digit10(c) || ('a' as u32 <= c as u32 && c as u32 <= 'f' as u32) || ('A' as u32 <= c
        as u32 && c as u32 <= 'F' as u32)
}

pub open spec fn spec_initial_identifier(c: char) -> bool {
    alphabetic_of(c) || c == '!' || c == '$' || c == '%' || c == '&' || c == '*' || c == '/' || c
        == ':' || c == '<' || c == '=' || c == '>' || c == '?' || c == '^' || c == '_' || c == '~'
}

pub open spec fn spec_special_subsequent(c: char) -> bool {
    c == '+' || c == '-' || c == '.' || c == '@'
}

pub open spec fn spec_subsequent_identifier(c: char) -> bool {
    spec_initial_identifier(c) || spec_digit10(c) || spec_special_subsequent(c)
}

pub open spec fn spec_initial_number(c: char) -> bool {
    spec_digit10(c) || c == '+' || c == '-'
}

pub open spec fn spec_subsequent_number(c: char) -> bool {
    spec_digit10(c) || spec_digit16(c) || c == '.' || c == '/'
}

/// The whitespace the scanner skips: spaces, tabs and line endings, the
/// concrete set of the Scheme grammar.
pub open spec fn spec_scheme_whitespace(c: char) -> bool {
    c == ' ' || c == '\t' || c == '\n' || c == '\r' || c == '\u{b}' || c == '\u{c}'
}

fn is_scheme_whitespace(c: char) -> (r: bool)
    ensures
        r == spec_scheme_whitespace(c),
{
    c == ' ' || c == '\t' || c == '\n' || c == '\r' || c == '\u{b}' || c == '\u{c}'
}

fn is_digit10(c: char) -> (r: bool)
    ensures
        r == spec_digit10(c),
{
    c as u32 >= '0' as u32 && c as u32 <= '9' as u32
}

fn is_initial_number(c: char) -> (r: bool)
    ensures
        r == spec_initial_number(c),
{
    is_digit10(c) || c == '+' || c == '-'
}

fn is_subsequent_number(c: char) -> (r: bool)
    ensures
        r == spec_subsequent_number(c),
{
    is_digit10(c) || (c as u32 >= 'a' as u32 && c as u32 <= 'f' as u32) || (c as u32 >= 'A'
        as u32 && c as u32 <= 'F' as u32) || c == '.' || c == '/'
}

pub(crate) fn is_initial_identifier(c: char) -> (r: bool)
    ensures
        r == spec_initial_identifier(c),
{
    char_is_alphabetic(c) || c == '!' || c == '$' || c == '%' || c == '&' || c == '*' || c == '/'
        || c == ':' || c == '<' || c == '=' || c == '>' || c == '?' || c == '^' || c == '_' || c
        == '~'
}

fn is_special_subsequent(c: char) -> (r: bool)
    ensures
        r == spec_special_subsequent(c),
{
    c == '+' || c == '-' || c == '.' || c == '@'
}

pub(crate) fn is_subsequent_identifier(c: char) -> (r: bool)
    ensures
        r == spec_subsequent_identifier(c),
{
    is_initial_identifier(c) || is_digit10(c) || is_special_subsequent(c)
}

/// What it means for a token to describe the scanned text: its span is a
/// non-empty range of the text, and the text there starts as the kind says.
pub open spec fn token_wf(t: Seq<char>, tok: Token) -> bool {
    let a = tok.span.0 as int;
    let b = tok.span.1 as int;
    &&& a < b
    &&& b <= t.len()
    &&& match tok.token_type {
        TokenType::LeftParen => b == a + 1 && (t[a] == '(' || t[a] == '[' || t[a] == '{'),
        TokenType::RightParen => b == a + 1 && (t[a] == ')' || t[a] == ']' || t[a] == '}'),
        TokenType::SingleQuote => b == a + 1 && t[a] == '\'',
        TokenType::True => b == a + 2 && t[a] == '#' && t[a + 1] == 't',
        TokenType::False => b == a + 2 && t[a] == '#' && t[a + 1] == 'f',
        TokenType::HashParen => b == a + 2 && t[a] == '#' && t[a + 1] == '(',
        TokenType::NumberPrefix => b == a + 2 && t[a] == '#' && (t[a + 1] == 'e' || t[a + 1]
            == 'i' || t[a + 1] == 'b' || t[a + 1] == 'o' || t[a + 1] == 'd' || t[a + 1] == 'x'),
        TokenType::Dot => b == a + 1 && t[a] == '.',
        TokenType::Number => spec_initial_number(t[a]) && (forall|k: int|
            a < k < b ==> spec_subsequent_number(#[trigger] t[k])),
        TokenType::Symbol => spec_initial_identifier(t[a]) || t[a] == '\\' || t[a] == '.',
        TokenType::Char => b >= a + 3 && t[a] == '#' && t[a + 1] == '\\',
        TokenType::Str => b >= a + 2 && t[a] == '"' && t[b - 1] == '"',
        TokenType::WhiteSpace => false,
    }
}

/// The token's kind is the one the character starting it dictates.
pub open spec fn starts_kind(t: Seq<char>, tok: Token) -> bool {
    let a = tok.span.0 as int;
    let c = t[a];
    if c == '(' || c == '[' || c == '{' {
        tok.token_type is LeftParen
    } else if c == ')' || c == ']' || c == '}' {
        tok.token_type is RightParen
    } else if c == '\'' {
        tok.token_type is SingleQuote
    } else if c == '#' {
        a + 1 < t.len() && (if t[a + 1] == 't' {
            tok.token_type is True
        } else if t[a + 1] == 'f' {
            tok.token_type is False
        } else if t[a + 1] == '(' {
            tok.token_type is HashParen
        } else if t[a + 1] == 'e' || t[a + 1] == 'i' || t[a + 1] == 'b' || t[a + 1] == 'o' || t[a
            + 1] == 'd' || t[a + 1] == 'x' {
            tok.token_type is NumberPrefix
        } else if t[a + 1] == '\\' {
            tok.token_type is Char
        } else {
            false
        })
    } else if c == '.' {
        (tok.token_type is Dot && tok.span.1 == tok.span.0 + 1) || (tok.token_type is Symbol
            && tok.span.1 > tok.span.0 + 1)
    } else if c == '"' {
        tok.token_type is Str
    } else if spec_initial_number(c) {
        tok.token_type is Number
    } else if c == '\\' || spec_initial_identifier(c) {
        tok.token_type is Symbol
    } else {
        false
    }
}

/// The token runs as far as its kind's grammar allows: the character after
/// it cannot extend it.
pub open spec fn token_maximal(t: Seq<char>, tok: Token) -> bool {
    let a = tok.span.0 as int;
    let b = tok.span.1 as int;
    match tok.token_type {
        TokenType::Number => b == t.len() || !spec_subsequent_number(t[b]),
        TokenType::Dot => b == t.len() || !spec_subsequent_identifier(t[b]),
        TokenType::Symbol => b == t.len() || !spec_subsequent_identifier(t[b]),
        _ => true,
    }
}

fn scan_simple_token(cs: &Vec<char>, pos: usize) -> (r: (Token, usize))
    requires
        pos < cs@.len(),
        cs@[pos as int] == '(' || cs@[pos as int] == ')' || cs@[pos as int] == '['
            || cs@[pos as int] == ']' || cs@[pos as int] == '{' || cs@[pos as int] == '}'
            || cs@[pos as int] == '\'',
    ensures
        token_wf(cs@, r.0),
        starts_kind(cs@, r.0),
        token_maximal(cs@, r.0),
        r.0.span.0 == pos,
        r.0.span.1 == r.1,
        pos < r.1 <= cs@.len(),
{
    let n: usize = cs.len();
    let c = cs[pos];
    let tt = if c == '(' || c == '[' || c == '{' {
        TokenType::LeftParen
    } else if c == ')' || c == ']' || c == '}' {
        TokenType::RightParen
    } else {
        TokenType::SingleQuote
    };
    (Token::new((pos, pos + 1), tt), pos + 1)
}

fn scan_dot(cs: &Vec<char>, pos: usize) -> (r: (Token, usize))
    requires
        pos < cs@.len(),
        cs@[pos as int] == '.',
    ensures
        token_wf(cs@, r.0),
        starts_kind(cs@, r.0),
        token_maximal(cs@, r.0),
        r.0.span.0 == pos,
        r.0.span.1 == r.1,
        pos < r.1 <= cs@.len(),
        r.1 == run_ident_end(cs@, pos + 1),
        r.0.token_type == (if r.1 == pos + 1 {
            TokenType::Dot
        } else {
            TokenType::Symbol
        }),
{
    let n: usize = cs.len();
    let mut end: usize = pos + 1;
    while end < cs.len() && is_subsequent_identifier(cs[end])
        invariant
            pos < end <= cs@.len(),
            cs@[pos as int] == '.',
            forall|k: int| pos < k < end ==> spec_subsequent_identifier(#[trigger] cs@[k]),
        decreases cs@.len() - end,
    {
        end = end + 1;
    }
    proof {
        lemma_run_ident_unique(cs@, pos + 1, end as int);
    }
    if end - pos == 1 {
        (Token::new((pos, end), TokenType::Dot), end)
    } else {
        (Token::new((pos, end), TokenType::Symbol), end)
    }
}

fn scan_symbol(cs: &Vec<char>, pos: usize) -> (r: (Token, usize))
    requires
        pos < cs@.len(),
        spec_initial_identifier(cs@[pos as int]) || cs@[pos as int] == '\\',
        cs@[pos as int] != '(' && cs@[pos as int] != ')' && cs@[pos as int] != '['
            && cs@[pos as int] != ']' && cs@[pos as int] != '{' && cs@[pos as int] != '}',
        cs@[pos as int] != '\'' && cs@[pos as int] != '#' && cs@[pos as int] != '.'
            && cs@[pos as int] != '"',
        !spec_initial_number(cs@[pos as int]),
    ensures
        token_wf(cs@, r.0),
        starts_kind(cs@, r.0),
        token_maximal(cs@, r.0),
        r.0.span.0 == pos,
        r.0.span.1 == r.1,
        pos < r.1 <= cs@.len(),
        r.1 == sym_token_end(cs@, pos as int, pos as int),
        r.0.token_type is Symbol,
{
    let n: usize = cs.len();
    let mut end: usize = pos;
    let mut stopped: bool = false;
    while end < cs.len() && !stopped
        invariant
            pos <= end <= cs@.len(),
            spec_initial_identifier(cs@[pos as int]) || cs@[pos as int] == '\\',
            stopped ==> pos < end && (end == cs@.len() || !spec_subsequent_identifier(
                cs@[end as int],
            )),
            sym_token_end(cs@, pos as int, pos as int) == (if stopped {
                end as int
            } else {
                sym_token_end(cs@, pos as int, end as int)
            }),
        decreases cs@.len() - end + (if stopped { 0int } else { 1int }),
    {
        let ghost estart: int = end as int;
        let c = cs[end];
        if c == '\\' {
            // a hex escape of the form `\xNN;`
            end = end + 1;
            while end < cs.len() && cs[end] != ';'
                invariant
                    pos < end <= cs@.len(),
                    estart < end,
                    forall|k: int| estart + 1 <= k < end ==> (#[trigger] cs@[k]) != ';',
                decreases cs@.len() - end,
            {
                end = end + 1;
            }
            proof {
                lemma_run_semi_unique(cs@, estart + 1, end as int);
            }
            if end < cs.len() {
                end = end + 1;
            }
        } else if end == pos || is_subsequent_identifier(c) {
            end = end + 1;
        } else {
            stopped = true;
        }
    }
    proof {
        if !stopped {
            assert(end == cs@.len());
        }
    }
    (Token::new((pos, end), TokenType::Symbol), end)
}

fn scan_number(cs: &Vec<char>, pos: usize) -> (r: (Token, usize))
    requires
        pos < cs@.len(),
        spec_initial_number(cs@[pos as int]),
    ensures
        token_wf(cs@, r.0),
        starts_kind(cs@, r.0),
        token_maximal(cs@, r.0),
        r.0.span.0 == pos,
        r.0.span.1 == r.1,
        pos < r.1 <= cs@.len(),
        r.1 == run_num_end(cs@, pos + 1),
        r.0.token_type is Number,
{
    let n: usize = cs.len();
    let mut end: usize = pos + 1;
    while end < cs.len() && is_subsequent_number(cs[end])
        invariant
            pos < end <= cs@.len(),
            spec_initial_number(cs@[pos as int]),
            forall|k: int| pos < k < end ==> spec_subsequent_number(#[trigger] cs@[k]),
        decreases cs@.len() - end,
    {
        end = end + 1;
    }
    proof {
        lemma_run_num_unique(cs@, pos + 1, end as int);
    }
    (Token::new((pos, end), TokenType::Number), end)
}

fn scan_hash_token(cs: &Vec<char>, pos: usize) -> (r: Result<(Token, usize), Error>)
    requires
        pos < cs@.len(),
        cs@[pos as int] == '#',
    ensures
        r matches Ok(t) ==> token_wf(cs@, t.0) && starts_kind(cs@, t.0) && token_maximal(
            cs@,
            t.0,
        ) && t.0.span.0 == pos && t.0.span.1 == t.1 && pos < t.1 <= cs@.len(),
        r matches Err(e) ==> e == Error::UnexpectedToken('#'),
        (r is Err) <==> (pos + 1 >= cs@.len() || !(cs@[pos + 1] == 't' || cs@[pos + 1] == 'f'
            || cs@[pos + 1] == '(' || cs@[pos + 1] == 'e' || cs@[pos + 1] == 'i' || cs@[pos + 1]
            == 'b' || cs@[pos + 1] == 'o' || cs@[pos + 1] == 'd' || cs@[pos + 1] == 'x'
            || cs@[pos + 1] == '\\') || (cs@[pos + 1] == '\\' && pos + 2 >= cs@.len())),
        r matches Ok(t) ==> t.0.token_type == (if cs@[pos + 1] == 't' {
            TokenType::True
        } else if cs@[pos + 1] == 'f' {
            TokenType::False
        } else if cs@[pos + 1] == '(' {
            TokenType::HashParen
        } else if cs@[pos + 1] == '\\' {
            TokenType::Char
        } else {
            TokenType::NumberPrefix
        }),
        r matches Ok(t) ==> t.1 == (if cs@[pos + 1] == '\\' {
            char_token_end(cs@, pos as int)
        } else {
            pos + 2
        }),
{
    let n: usize = cs.len();
    if n - pos < 2 {
        return Err(Error::UnexpectedToken('#'));
    }
    let c = cs[pos + 1];
    if c == 't' {
        Ok((Token::new((pos, pos + 2), TokenType::True), pos + 2))
    } else if c == 'f' {
        Ok((Token::new((pos, pos + 2), TokenType::False), pos + 2))
    } else if c == '(' {
        Ok((Token::new((pos, pos + 2), TokenType::HashParen), pos + 2))
    } else if c == 'e' || c == 'i' || c == 'b' || c == 'o' || c == 'd' || c == 'x' {
        Ok((Token::new((pos, pos + 2), TokenType::NumberPrefix), pos + 2))
    } else if c == '\\' {
        if n - pos < 3 {
            return Err(Error::UnexpectedToken('#'));
        }
        let first = cs[pos + 2];
        let mut end: usize = pos + 3;
        if char_is_alphabetic(first) {
            // a named or alphabetic character, e.g. `#\newline`
            while end < cs.len() && (char_is_alphabetic(cs[end]) || is_digit10(cs[end]))
                invariant
                    pos + 3 <= end <= cs@.len(),
                    forall|k: int|
                        pos + 3 <= k < end ==> (alphabetic_of(#[trigger] cs@[k]) || spec_digit10(
                            cs@[k],
                        )),
                decreases cs@.len() - end,
            {
                end = end + 1;
            }
            proof {
                lemma_run_alnum_unique(cs@, pos + 3, end as int);
            }
        }
        Ok((Token::new((pos, end), TokenType::Char), end))
    } else {
        Err(Error::UnexpectedToken('#'))
    }
}

fn scan_string(cs: &Vec<char>, pos: usize) -> (r: Result<(Token, usize), Error>)
    requires
        pos < cs@.len(),
        cs@[pos as int] == '"',
    ensures
        r matches Ok(t) ==> token_wf(cs@, t.0) && starts_kind(cs@, t.0) && token_maximal(
            cs@,
            t.0,
        ) && t.0.span.0 == pos && t.0.span.1 == t.1 && pos < t.1 <= cs@.len(),
        r matches Ok(t) ==> (str_token_end(cs@, pos + 1) matches Some(e) && t.1 == e
            && t.0.token_type is Str),
        (r is Err) <==> (str_token_end(cs@, pos + 1) is None),
        r matches Err(e) ==> e == Error::UnexpectedToken('"'),
{
    let n: usize = cs.len();
    let mut end: usize = pos + 1;
    while end < cs.len()
        invariant
            pos < end <= cs@.len(),
            n == cs@.len(),
            cs@[pos as int] == '"',
            str_token_end(cs@, pos + 1) == str_token_end(cs@, end as int),
        decreases cs@.len() - end,
    {
        let c = cs[end];
        if c == '"' {
            return Ok((Token::new((pos, end + 1), TokenType::Str), end + 1));
        } else if c == '\\' {
            if n - end < 2 {
                return Err(Error::UnexpectedToken('"'));
            }
            end = end + 2;
        } else {
            end = end + 1;
        }
    }
    Err(Error::UnexpectedToken('"'))
}

/// Position `p` lies inside one of the tokens.
pub open spec fn covered(tokens: Seq<Token>, p: int) -> bool {
    exists|i: int|
        0 <= i < tokens.len() && (((#[trigger] tokens[i]).span.0 as int) <= p < (
        tokens[i].span.1 as int))
}

proof fn lemma_covered_push(s: Seq<Token>, t: Token, p: int)
    requires
        covered(s, p) || (t.span.0 as int <= p < t.span.1 as int),
    ensures
        covered(s.push(t), p),
{
    if covered(s, p) {
        let i = choose|i: int|
            0 <= i < s.len() && (((#[trigger] s[i]).span.0 as int) <= p < (s[i].span.1 as int));
        assert(s.push(t)[i] == s[i]);
    } else {
        assert(s.push(t)[s.len() as int] == t);
    }
}

/// The scanner's loop invariant: everything already emitted is well
/// formed, kind-correct, maximal, ordered, covers the consumed text up to
/// whitespace, and together with the rest of the text yields `scan_spec`.
pub open spec fn scan_state(t: Seq<char>, tokens: Seq<Token>, pos: int) -> bool {
    &&& forall|i: int| 0 <= i < tokens.len() ==> token_wf(t, #[trigger] tokens[i])
    &&& forall|i: int| 0 <= i < tokens.len() ==> starts_kind(t, #[trigger] tokens[i])
    &&& forall|i: int| 0 <= i < tokens.len() ==> token_maximal(t, #[trigger] tokens[i])
    &&& forall|i: int| 0 <= i < tokens.len() ==> ((#[trigger] tokens[i]).span.1 as int) <= pos
    &&& forall|i: int, j: int|
        0 <= i < j < tokens.len() ==> (#[trigger] tokens[i]).span.1 <= (
        #[trigger] tokens[j]).span.0
    &&& forall|p: int|
        0 <= p < pos ==> (covered(tokens, p) || spec_scheme_whitespace(#[trigger] t[p]))
    &&& match scan_spec(t, pos) {
        Ok(s) => scan_spec(t, 0) matches Ok(s0) && s0 == tokens + s,
        Err(e) => scan_spec(t, 0) == Err::<Seq<Token>, Error>(e),
    }
}

/// Emitting one more token keeps the scanner's invariant.
proof fn lemma_scan_state_push(t: Seq<char>, tokens: Seq<Token>, pos: int, tok: Token, next: int)
    requires
        scan_state(t, tokens, pos),
        0 <= pos < next <= t.len(),
        token_wf(t, tok),
        starts_kind(t, tok),
        token_maximal(t, tok),
        tok.span.0 == pos,
        tok.span.1 == next,
        scan_spec(t, pos) == cons_tok(tok, scan_spec(t, next)),
    ensures
        scan_state(t, tokens.push(tok), next),
{
    let nt = tokens.push(tok);
    assert forall|i: int| 0 <= i < nt.len() implies token_wf(t, #[trigger] nt[i]) by {
        if i < tokens.len() {
            assert(nt[i] == tokens[i]);
        }
    }
    assert forall|i: int| 0 <= i < nt.len() implies starts_kind(t, #[trigger] nt[i]) by {
        if i < tokens.len() {
            assert(nt[i] == tokens[i]);
        }
    }
    assert forall|i: int| 0 <= i < nt.len() implies token_maximal(t, #[trigger] nt[i]) by {
        if i < tokens.len() {
            assert(nt[i] == tokens[i]);
        }
    }
    assert forall|i: int| 0 <= i < nt.len() implies ((#[trigger] nt[i]).span.1 as int)
        <= next by {
        if i < tokens.len() {
            assert(nt[i] == tokens[i]);
        }
    }
    assert forall|i: int, j: int|
        0 <= i < j < nt.len() implies (#[trigger] nt[i]).span.1 <= (#[trigger] nt[j]).span.0 by {
        if j < tokens.len() {
            assert(nt[i] == tokens[i] && nt[j] == tokens[j]);
        } else {
            assert(nt[i] == tokens[i] && nt[j] == tok);
        }
    }
    assert forall|p: int|
        0 <= p < next implies (covered(nt, p) || spec_scheme_whitespace(#[trigger] t[p])) by {
        if p < pos {
            if covered(tokens, p) {
                lemma_covered_push(tokens, tok, p);
            }
        } else {
            lemma_covered_push(tokens, tok, p);
        }
    }
    match scan_spec(t, next) {
        Ok(s2) => {
            assert(tokens + (seq![tok] + s2) =~= nt + s2);
        },
        _ => {},
    }
}

/// Skipping a whitespace character keeps the scanner's invariant.
proof fn lemma_scan_state_ws(t: Seq<char>, tokens: Seq<Token>, pos: int)
    requires
        scan_state(t, tokens, pos),
        0 <= pos < t.len(),
        spec_scheme_whitespace(t[pos]),
        !(t[pos] == '(' || t[pos] == '[' || t[pos] == '{' || t[pos] == ')' || t[pos] == ']'
            || t[pos] == '}' || t[pos] == '\'' || t[pos] == '#' || t[pos] == '.' || t[pos]
            == '"'),
        !spec_initial_number(t[pos]),
        !(t[pos] == '\\' || spec_initial_identifier(t[pos])),
    ensures
        scan_state(t, tokens, pos + 1),
{
    assert(scan_spec(t, pos) == scan_spec(t, pos + 1));
}

/// Scans the text into tokens.  The result is exactly `scan_spec` of the
/// text: tokens in text order, each well formed, of the kind its first
/// character dictates and running as far as its grammar allows, with only
/// whitespace between them; failure happens exactly where no token can
/// start, and reports that character.
#[verifier::rlimit(100)]
pub fn scan(text: &str) -> (r: Result<Vec<Token>, Error>)
    ensures
        r matches Ok(tokens) ==> (scan_spec(text@, 0) matches Ok(s) && tokens@ == s),
        r matches Err(e) ==> scan_spec(text@, 0) == Err::<Seq<Token>, Error>(e),
        (r is Ok) <==> (scan_spec(text@, 0) is Ok),
        r matches Ok(tokens) ==> {
            &&& forall|i: int|
                0 <= i < tokens@.len() ==> token_wf(text@, #[trigger] tokens@[i])
            &&& forall|i: int|
                0 <= i < tokens@.len() ==> starts_kind(text@, #[trigger] tokens@[i])
            &&& forall|i: int|
                0 <= i < tokens@.len() ==> token_maximal(text@, #[trigger] tokens@[i])
            &&& forall|i: int, j: int|
                0 <= i < j < tokens@.len() ==> (#[trigger] tokens@[i]).span.1 <= (
                #[trigger] tokens@[j]).span.0
            &&& forall|p: int|
                0 <= p < text@.len() ==> (covered(tokens@, p) || spec_scheme_whitespace(
                    #[trigger] text@[p],
                ))
        },
        r matches Err(e) ==> (e matches Error::UnexpectedToken(c2) && exists|p: int|
            0 <= p < text@.len() && text@[p] == c2),
{
    let cs = str_chars(text);
    let mut tokens: Vec<Token> = Vec::new();
    let mut pos: usize = 0;
    proof {
        match scan_spec(text@, 0) {
            Ok(s) => {
                assert(Seq::<Token>::empty() + s =~= s);
            },
            _ => {},
        }
        assert(scan_state(text@, tokens@, 0));
    }
    while pos < cs.len()
        invariant
            cs@ == text@,
            pos <= cs@.len(),
            scan_state(text@, tokens@, pos as int),
        decreases cs@.len() - pos,
    {
        let c = cs[pos];
        if c == '(' || c == ')' || c == '[' || c == ']' || c == '{' || c == '}' || c == '\'' {
            let (tok, next) = scan_simple_token(&cs, pos);
            proof {
                assert(scan_spec(text@, pos as int) == cons_tok(
                    tok,
                    scan_spec(text@, next as int),
                ));
                lemma_scan_state_push(text@, tokens@, pos as int, tok, next as int);
            }
            tokens.push(tok);
            pos = next;
        } else if c == '#' {
            match scan_hash_token(&cs, pos) {
                Ok((tok, next)) => {
                    proof {
                        assert(scan_spec(text@, pos as int) == cons_tok(
                            tok,
                            scan_spec(text@, next as int),
                        ));
                        lemma_scan_state_push(text@, tokens@, pos as int, tok, next as int);
                    }
                    tokens.push(tok);
                    pos = next;
                },
                Err(e) => {
                    proof {
                        assert(scan_spec(text@, pos as int) == Err::<Seq<Token>, Error>(e));
                    }
                    return Err(e);
                },
            }
        } else if c == '.' {
            let (tok, next) = scan_dot(&cs, pos);
            proof {
                assert(scan_spec(text@, pos as int) == cons_tok(
                    tok,
                    scan_spec(text@, next as int),
                ));
                lemma_scan_state_push(text@, tokens@, pos as int, tok, next as int);
            }
            tokens.push(tok);
            pos = next;
        } else if c == '"' {
            match scan_string(&cs, pos) {
                Ok((tok, next)) => {
                    proof {
                        assert(scan_spec(text@, pos as int) == cons_tok(
                            tok,
                            scan_spec(text@, next as int),
                        ));
                        lemma_scan_state_push(text@, tokens@, pos as int, tok, next as int);
                    }
                    tokens.push(tok);
                    pos = next;
                },
                Err(e) => {
                    proof {
                        assert(scan_spec(text@, pos as int) == Err::<Seq<Token>, Error>(e));
                    }
                    return Err(e);
                },
            }
        } else if is_initial_number(c) {
            let (tok, next) = scan_number(&cs, pos);
            proof {
                assert(scan_spec(text@, pos as int) == cons_tok(
                    tok,
                    scan_spec(text@, next as int),
                ));
                lemma_scan_state_push(text@, tokens@, pos as int, tok, next as int);
            }
            tokens.push(tok);
            pos = next;
        } else if c == '\\' || is_initial_identifier(c) {
            let (tok, next) = scan_symbol(&cs, pos);
            proof {
                assert(scan_spec(text@, pos as int) == cons_tok(
                    tok,
                    scan_spec(text@, next as int),
                ));
                lemma_scan_state_push(text@, tokens@, pos as int, tok, next as int);
            }
            tokens.push(tok);
            pos = next;
        } else if is_scheme_whitespace(c) {
            proof {
                lemma_scan_state_ws(text@, tokens@, pos as int);
            }
            pos = pos + 1;
        } else {
            proof {
                assert(scan_spec(text@, pos as int) == Err::<Seq<Token>, Error>(
                    Error::UnexpectedToken(c),
                ));
            }
            return Err(Error::UnexpectedToken(c));
        }
    }
    proof {
        assert(scan_spec(text@, pos as int) == Ok::<Seq<Token>, Error>(Seq::empty()));
        match scan_spec(text@, 0) {
            Ok(s0) => {
                assert(tokens@ + Seq::<Token>::empty() =~= tokens@);
            },
            _ => {},
        }
    }
    Ok(tokens)
}

// ---------------------------------------------------------------------------
// The scanner, in specification: where each kind of run ends, and the exact
// token sequence (or error) of a text.  `scan` above returns precisely this.
// ---------------------------------------------------------------------------

/// The end of the run of subsequent-number characters starting at `p`.
pub open spec fn run_num_end(t: Seq<char>, p: int) -> int
    decreases t.len() - p,
{
    if p < 0 || p >= t.len() || !spec_subsequent_number(t[p]) {
        p
    } else {
        run_num_end(t, p + 1)
    }
}

/// The end of the run of subsequent-identifier characters starting at `p`.
pub open spec fn run_ident_end(t: Seq<char>, p: int) -> int
    decreases t.len() - p,
{
    if p < 0 || p >= t.len() || !spec_subsequent_identifier(t[p]) {
        p
    } else {
        run_ident_end(t, p + 1)
    }
}

/// The end of the run of non-semicolon characters starting at `p`.
pub open spec fn run_semi_end(t: Seq<char>, p: int) -> int
    decreases t.len() - p,
{
    if p < 0 || p >= t.len() || t[p] == ';' {
        p
    } else {
        run_semi_end(t, p + 1)
    }
}

/// The end of the run of alphabetic-or-digit characters starting at `p`.
pub open spec fn run_alnum_end(t: Seq<char>, p: int) -> int
    decreases t.len() - p,
{
    if p < 0 || p >= t.len() || !(alphabetic_of(t[p]) || spec_digit10(t[p])) {
        p
    } else {
        run_alnum_end(t, p + 1)
    }
}

pub proof fn lemma_run_num_bounds(t: Seq<char>, p: int)
    requires
        0 <= p <= t.len(),
    ensures
        p <= run_num_end(t, p) <= t.len(),
    decreases t.len() - p,
{
    if !(p >= t.len() || !spec_subsequent_number(t[p])) {
        lemma_run_num_bounds(t, p + 1);
    }
}

pub proof fn lemma_run_num_unique(t: Seq<char>, p: int, e: int)
    requires
        0 <= p <= e <= t.len(),
        forall|k: int| p <= k < e ==> spec_subsequent_number(#[trigger] t[k]),
        e == t.len() || !spec_subsequent_number(t[e]),
    ensures
        run_num_end(t, p) == e,
    decreases e - p,
{
    if p < e {
        lemma_run_num_unique(t, p + 1, e);
    }
}

pub proof fn lemma_run_ident_bounds(t: Seq<char>, p: int)
    requires
        0 <= p <= t.len(),
    ensures
        p <= run_ident_end(t, p) <= t.len(),
    decreases t.len() - p,
{
    if !(p >= t.len() || !spec_subsequent_identifier(t[p])) {
        lemma_run_ident_bounds(t, p + 1);
    }
}

pub proof fn lemma_run_ident_unique(t: Seq<char>, p: int, e: int)
    requires
        0 <= p <= e <= t.len(),
        forall|k: int| p <= k < e ==> spec_subsequent_identifier(#[trigger] t[k]),
        e == t.len() || !spec_subsequent_identifier(t[e]),
    ensures
        run_ident_end(t, p) == e,
    decreases e - p,
{
    if p < e {
        lemma_run_ident_unique(t, p + 1, e);
    }
}

pub proof fn lemma_run_semi_bounds(t: Seq<char>, p: int)
    requires
        0 <= p <= t.len(),
    ensures
        p <= run_semi_end(t, p) <= t.len(),
    decreases t.len() - p,
{
    if !(p >= t.len() || t[p] == ';') {
        lemma_run_semi_bounds(t, p + 1);
    }
}

pub proof fn lemma_run_semi_unique(t: Seq<char>, p: int, e: int)
    requires
        0 <= p <= e <= t.len(),
        forall|k: int| p <= k < e ==> (#[trigger] t[k]) != ';',
        e == t.len() || t[e] == ';',
    ensures
        run_semi_end(t, p) == e,
    decreases e - p,
{
    if p < e {
        lemma_run_semi_unique(t, p + 1, e);
    }
}

pub proof fn lemma_run_alnum_bounds(t: Seq<char>, p: int)
    requires
        0 <= p <= t.len(),
    ensures
        p <= run_alnum_end(t, p) <= t.len(),
    decreases t.len() - p,
{
    if !(p >= t.len() || !(alphabetic_of(t[p]) || spec_digit10(t[p]))) {
        lemma_run_alnum_bounds(t, p + 1);
    }
}

pub proof fn lemma_run_alnum_unique(t: Seq<char>, p: int, e: int)
    requires
        0 <= p <= e <= t.len(),
        forall|k: int| p <= k < e ==> (alphabetic_of(#[trigger] t[k]) || spec_digit10(t[k])),
        e == t.len() || !(alphabetic_of(t[e]) || spec_digit10(t[e])),
    ensures
        run_alnum_end(t, p) == e,
    decreases e - p,
{
    if p < e {
        lemma_run_alnum_unique(t, p + 1, e);
    }
}

/// The end of a symbol token that started at `p`, scanning from `cur`:
/// runs of subsequent-identifier characters and `\xNN;` escape groups, the
/// first character taken unconditionally.
pub open spec fn sym_token_end(t: Seq<char>, p: int, cur: int) -> int
    decreases t.len() - cur,
    via sym_token_end_dec
{
    if cur < 0 || cur >= t.len() {
        cur
    } else if t[cur] == '\\' {
        if run_semi_end(t, cur + 1) < t.len() {
            sym_token_end(t, p, run_semi_end(t, cur + 1) + 1)
        } else {
            run_semi_end(t, cur + 1)
        }
    } else if cur == p || spec_subsequent_identifier(t[cur]) {
        sym_token_end(t, p, cur + 1)
    } else {
        cur
    }
}

#[via_fn]
proof fn sym_token_end_dec(t: Seq<char>, p: int, cur: int) {
    if 0 <= cur < t.len() && t[cur] == '\\' {
        lemma_run_semi_bounds(t, cur + 1);
    }
}

pub proof fn lemma_sym_end_bounds(t: Seq<char>, p: int, cur: int)
    requires
        0 <= cur <= t.len(),
    ensures
        cur <= sym_token_end(t, p, cur) <= t.len(),
    decreases t.len() - cur,
{
    if cur < t.len() {
        if t[cur] == '\\' {
            lemma_run_semi_bounds(t, cur + 1);
            if run_semi_end(t, cur + 1) < t.len() {
                lemma_sym_end_bounds(t, p, run_semi_end(t, cur + 1) + 1);
            }
        } else if cur == p || spec_subsequent_identifier(t[cur]) {
            lemma_sym_end_bounds(t, p, cur + 1);
        }
    }
}

/// A symbol token is never empty: its end lies past its start.
pub proof fn lemma_sym_end_strict(t: Seq<char>, p: int)
    requires
        0 <= p < t.len(),
    ensures
        sym_token_end(t, p, p) > p,
{
    if t[p] == '\\' {
        lemma_run_semi_bounds(t, p + 1);
        if run_semi_end(t, p + 1) < t.len() {
            lemma_sym_end_bounds(t, p, run_semi_end(t, p + 1) + 1);
        }
    } else {
        lemma_sym_end_bounds(t, p, p + 1);
    }
}

/// Where a string token whose body starts at `e` ends (one past the
/// closing quote), or nothing if the text ends inside it.
pub open spec fn str_token_end(t: Seq<char>, e: int) -> Option<int>
    decreases t.len() - e,
{
    if e < 0 || e >= t.len() {
        None
    } else if t[e] == '"' {
        Some(e + 1)
    } else if t[e] == '\\' {
        if t.len() - e < 2 {
            None
        } else {
            str_token_end(t, e + 2)
        }
    } else {
        str_token_end(t, e + 1)
    }
}

pub proof fn lemma_str_end_bounds(t: Seq<char>, e: int)
    requires
        0 <= e,
    ensures
        str_token_end(t, e) matches Some(x) ==> e < x <= t.len(),
    decreases t.len() - e,
{
    if e < t.len() && t[e] != '"' {
        if t[e] == '\\' {
            if t.len() - e >= 2 {
                lemma_str_end_bounds(t, e + 2);
            }
        } else {
            lemma_str_end_bounds(t, e + 1);
        }
    }
}

/// The end of a character token `#\...` starting at `p`: the character
/// after the backslash, extended by a name when it is alphabetic.
pub open spec fn char_token_end(t: Seq<char>, p: int) -> int {
    if alphabetic_of(t[p + 2]) {
        run_alnum_end(t, p + 3)
    } else {
        p + 3
    }
}

/// Prepends a token to a scan result.
pub open spec fn cons_tok(tok: Token, r: Result<Seq<Token>, Error>) -> Result<Seq<Token>, Error> {
    match r {
        Ok(s) => Ok(seq![tok] + s),
        Err(e) => Err(e),
    }
}

/// The tokens of the text from position `pos` on — the scanner's whole
/// behavior, including exactly when it fails and with which character.
pub open spec fn scan_spec(t: Seq<char>, pos: int) -> Result<Seq<Token>, Error>
    decreases t.len() - pos,
    via scan_spec_dec
{
    if pos < 0 || pos >= t.len() {
        Ok(Seq::empty())
    } else {
        let c = t[pos];
        if c == '(' || c == '[' || c == '{' {
            cons_tok(
                Token { span: (pos as usize, (pos + 1) as usize), token_type: TokenType::LeftParen },
                scan_spec(t, pos + 1),
            )
        } else if c == ')' || c == ']' || c == '}' {
            cons_tok(
                Token {
                    span: (pos as usize, (pos + 1) as usize),
                    token_type: TokenType::RightParen,
                },
                scan_spec(t, pos + 1),
            )
        } else if c == '\'' {
            cons_tok(
                Token {
                    span: (pos as usize, (pos + 1) as usize),
                    token_type: TokenType::SingleQuote,
                },
                scan_spec(t, pos + 1),
            )
        } else if c == '#' {
            if pos + 1 >= t.len() {
                Err(Error::UnexpectedToken('#'))
            } else if t[pos + 1] == 't' {
                cons_tok(
                    Token { span: (pos as usize, (pos + 2) as usize), token_type: TokenType::True },
                    scan_spec(t, pos + 2),
                )
            } else if t[pos + 1] == 'f' {
                cons_tok(
                    Token {
                        span: (pos as usize, (pos + 2) as usize),
                        token_type: TokenType::False,
                    },
                    scan_spec(t, pos + 2),
                )
            } else if t[pos + 1] == '(' {
                cons_tok(
                    Token {
                        span: (pos as usize, (pos + 2) as usize),
                        token_type: TokenType::HashParen,
                    },
                    scan_spec(t, pos + 2),
                )
            } else if t[pos + 1] == 'e' || t[pos + 1] == 'i' || t[pos + 1] == 'b' || t[pos + 1]
                == 'o' || t[pos + 1] == 'd' || t[pos + 1] == 'x' {
                cons_tok(
                    Token {
                        span: (pos as usize, (pos + 2) as usize),
                        token_type: TokenType::NumberPrefix,
                    },
                    scan_spec(t, pos + 2),
                )
            } else if t[pos + 1] == '\\' {
                if pos + 2 >= t.len() {
                    Err(Error::UnexpectedToken('#'))
                } else {
                    cons_tok(
                        Token {
                            span: (pos as usize, char_token_end(t, pos) as usize),
                            token_type: TokenType::Char,
                        },
                        scan_spec(t, char_token_end(t, pos)),
                    )
                }
            } else {
                Err(Error::UnexpectedToken('#'))
            }
        } else if c == '.' {
            if run_ident_end(t, pos + 1) == pos + 1 {
                cons_tok(
                    Token { span: (pos as usize, (pos + 1) as usize), token_type: TokenType::Dot },
                    scan_spec(t, pos + 1),
                )
            } else {
                cons_tok(
                    Token {
                        span: (pos as usize, run_ident_end(t, pos + 1) as usize),
                        token_type: TokenType::Symbol,
                    },
                    scan_spec(t, run_ident_end(t, pos + 1)),
                )
            }
        } else if c == '"' {
            match str_token_end(t, pos + 1) {
                Some(e) => cons_tok(
                    Token { span: (pos as usize, e as usize), token_type: TokenType::Str },
                    scan_spec(t, e),
                ),
                None => Err(Error::UnexpectedToken('"')),
            }
        } else if spec_initial_number(c) {
            cons_tok(
                Token {
                    span: (pos as usize, run_num_end(t, pos + 1) as usize),
                    token_type: TokenType::Number,
                },
                scan_spec(t, run_num_end(t, pos + 1)),
            )
        } else if c == '\\' || spec_initial_identifier(c) {
            cons_tok(
                Token {
                    span: (pos as usize, sym_token_end(t, pos, pos) as usize),
                    token_type: TokenType::Symbol,
                },
                scan_spec(t, sym_token_end(t, pos, pos)),
            )
        } else if spec_scheme_whitespace(c) {
            scan_spec(t, pos + 1)
        } else {
            Err(Error::UnexpectedToken(c))
        }
    }
}

#[via_fn]
proof fn scan_spec_dec(t: Seq<char>, pos: int) {
    if 0 <= pos < t.len() {
        lemma_run_num_bounds(t, pos + 1);
        lemma_run_ident_bounds(t, pos + 1);
        if pos + 3 <= t.len() {
            lemma_run_alnum_bounds(t, pos + 3);
        }
        lemma_str_end_bounds(t, pos + 1);
        lemma_sym_end_bounds(t, pos, pos);
        lemma_sym_end_strict(t, pos);
    }
}

} // verus!
