//! The textual grammar of lambda terms.
//!
//! A variable is an identifier; application is left-associative
//! juxtaposition of two or more terms; an abstraction is written
//! `λ<name>.<body>` (equivalently with a backslash) and extends as far
//! right as possible; parentheses group. Whitespace separates terms.
//!
//! The parser is recursive descent over the characters, carrying a fuel
//! that bounds nesting; the fuel equals the input length, which nesting
//! cannot exceed, since every descent consumes a character.

use vstd::prelude::*;

use vstd::string::StrSliceExecFns;

use crate::ast::BareTerm;
use crate::ast::BareView;

verus! {

/// A syntax error, with the position (in characters) where it was found.
#[derive(Clone, Copy, PartialEq, Eq, Structural, Debug)]
pub struct ParseError {
    pub at: usize,
}

/// Whether `c` separates tokens.
pub open spec fn is_ws(c: char) -> bool {
    c == ' ' || c == '\t' || c == '\n' || c == '\r'
}

/// Whether `c` may start an identifier.
pub open spec fn is_ident_start(c: char) -> bool {
    (65 <= c as u32 <= 90) || (97 <= c as u32 <= 122) || c as u32 == 95
}

/// Whether `c` may continue an identifier.
pub open spec fn is_ident_char(c: char) -> bool {
    is_ident_start(c) || (48 <= c as u32 <= 57)
}

/// Whether `c` introduces an abstraction.
pub open spec fn is_lambda(c: char) -> bool {
    c == '\u{3bb}' || c == '\\'
}

/// Whether a term can begin at `c`.
pub open spec fn starts_term(c: char) -> bool {
    is_ident_start(c) || c == '(' || is_lambda(c)
}

/// The first position at or after `i` that does not hold whitespace.
pub open spec fn skip_ws(s: Seq<char>, i: int) -> int
    recommends
        0 <= i <= s.len(),
    decreases s.len() - i,
{
    if i < s.len() && is_ws(s[i]) {
        skip_ws(s, i + 1)
    } else {
        i
    }
}

/// The end of the identifier-character run beginning at `i`.
pub open spec fn scan_ident(s: Seq<char>, i: int) -> int
    recommends
        0 <= i <= s.len(),
    decreases s.len() - i,
{
    if i < s.len() && is_ident_char(s[i]) {
        scan_ident(s, i + 1)
    } else {
        i
    }
}

/// Parses one term at position `i`: an identifier, a parenthesised
/// expression, or an abstraction; on a syntax error, the position where
/// it was found.
pub open spec fn s_parse_term(s: Seq<char>, i: int, fuel: nat) -> Result<(BareView, int), int>
    decreases fuel, 0int,
{
    let j = skip_ws(s, i);
    if j >= s.len() {
        Result::Err(j)
    } else if is_ident_start(s[j]) {
        let k = scan_ident(s, j);
        Result::Ok((BareView::Var(s.subrange(j, k)), k))
    } else if s[j] == '(' {
        if fuel == 0 {
            Result::Err(j)
        } else {
            match s_parse_expr(s, j + 1, (fuel - 1) as nat) {
                Result::Ok((t, k)) => {
                    let m = skip_ws(s, k);
                    if m < s.len() && s[m] == ')' {
                        Result::Ok((t, m + 1))
                    } else {
                        Result::Err(m)
                    }
                },
                Result::Err(p) => Result::Err(p),
            }
        }
    } else if is_lambda(s[j]) {
        let j2 = skip_ws(s, j + 1);
        if j2 >= s.len() || !is_ident_start(s[j2]) {
            Result::Err(j2)
        } else {
            let k = scan_ident(s, j2);
            let j3 = skip_ws(s, k);
            if j3 >= s.len() || s[j3] != '.' {
                Result::Err(j3)
            } else if fuel == 0 {
                Result::Err(j3)
            } else {
                match s_parse_expr(s, j3 + 1, (fuel - 1) as nat) {
                    Result::Ok((b, m)) => Result::Ok(
                        (BareView::Abs(s.subrange(j2, k), Box::new(b)), m),
                    ),
                    Result::Err(p) => Result::Err(p),
                }
            }
        }
    } else {
        Result::Err(j)
    }
}

/// Extends `acc` with further juxtaposed terms, applying left to right.
pub open spec fn s_parse_rest(acc: BareView, s: Seq<char>, i: int, fuel: nat) -> Result<
    (BareView, int),
    int,
>
    decreases fuel, 1int,
{
    let j = skip_ws(s, i);
    if j < s.len() && starts_term(s[j]) {
        if fuel == 0 {
            Result::Err(j)
        } else {
            match s_parse_term(s, j, fuel) {
                Result::Ok((t, k)) => s_parse_rest(
                    BareView::App(Box::new(acc), Box::new(t)),
                    s,
                    k,
                    (fuel - 1) as nat,
                ),
                Result::Err(p) => Result::Err(p),
            }
        }
    } else {
        Result::Ok((acc, j))
    }
}

/// Parses an expression at position `i`: one or more juxtaposed terms.
pub open spec fn s_parse_expr(s: Seq<char>, i: int, fuel: nat) -> Result<(BareView, int), int>
    decreases fuel, 2int,
{
    match s_parse_term(s, i, fuel) {
        Result::Ok((t, j)) => s_parse_rest(t, s, j, fuel),
        Result::Err(p) => Result::Err(p),
    }
}

/// Parses a whole input: an expression followed by nothing but
/// whitespace; on a syntax error, the position where it was found.
pub open spec fn s_parse(s: Seq<char>) -> Result<BareView, int> {
    match s_parse_expr(s, 0, s.len()) {
        Result::Ok((t, j)) => if j == s.len() {
            Result::Ok(t)
        } else {
            Result::Err(j)
        },
        Result::Err(p) => Result::Err(p),
    }
}

/// Whether `c` separates tokens.
fn is_ws_char(c: char) -> (r: bool)
    ensures
        r == is_ws(c),
{
    c == ' ' || c == '\t' || c == '\n' || c == '\r'
}

/// Whether `c` may start an identifier.
fn is_ident_start_char(c: char) -> (r: bool)
    ensures
        r == is_ident_start(c),
{
    let u = c as u32;
    (65 <= u && u <= 90) || (97 <= u && u <= 122) || u == 95
}

/// Whether `c` may continue an identifier.
fn is_ident_char_char(c: char) -> (r: bool)
    ensures
        r == is_ident_char(c),
{
    let u = c as u32;
    is_ident_start_char(c) || (48 <= u && u <= 57)
}

/// Whether `c` introduces an abstraction.
fn is_lambda_char(c: char) -> (r: bool)
    ensures
        r == is_lambda(c),
{
    c == '\u{3bb}' || c == '\\'
}

/// Whether a term can begin at `c`.
fn starts_term_char(c: char) -> (r: bool)
    ensures
        r == starts_term(c),
{
    is_ident_start_char(c) || c == '(' || is_lambda_char(c)
}

/// The first position at or after `i` that does not hold whitespace.
fn skip_ws_at(v: &Vec<char>, i: usize) -> (r: usize)
    requires
        i <= v@.len(),
    ensures
        r == skip_ws(v@, i as int),
        i <= r <= v@.len(),
    decreases v@.len() - i,
{
    if i < v.len() && is_ws_char(v[i]) {
        skip_ws_at(v, i + 1)
    } else {
        i
    }
}

/// The end of the identifier-character run beginning at `i`.
fn scan_ident_at(v: &Vec<char>, i: usize) -> (r: usize)
    requires
        i <= v@.len(),
    ensures
        r == scan_ident(v@, i as int),
        i <= r <= v@.len(),
    decreases v@.len() - i,
{
    if i < v.len() && is_ident_char_char(v[i]) {
        scan_ident_at(v, i + 1)
    } else {
        i
    }
}

/// The characters of `s` from `from` to `to`, as a string.
fn ident_of(s: &str, from: usize, to: usize) -> (r: String)
    requires
        from <= to <= s@.len(),
    ensures
        r@ == s@.subrange(from as int, to as int),
{
    s.substring_char(from, to).to_owned()
}

/// Parses one term at position `i`.
fn parse_term_at(src: &str, v: &Vec<char>, i: usize, fuel: usize) -> (r: Result<
    (BareTerm, usize),
    ParseError,
>)
    requires
        src@ == v@,
        i <= v@.len(),
    ensures
        match r {
            Result::Ok(p) => s_parse_term(v@, i as int, fuel as nat) == Result::<
                (BareView, int),
                int,
            >::Ok((p.0@, p.1 as int)) && p.1 <= v@.len(),
            Result::Err(e) => s_parse_term(v@, i as int, fuel as nat) == Result::<
                (BareView, int),
                int,
            >::Err(e.at as int),
        },
    decreases fuel, 0int,
{
    let j = skip_ws_at(v, i);
    if j >= v.len() {
        return Result::Err(ParseError { at: j });
    }
    let c = v[j];
    if is_ident_start_char(c) {
        let k = scan_ident_at(v, j);
        let name = ident_of(src, j, k);
        Result::Ok((BareTerm::Var(name), k))
    } else if c == '(' {
        if fuel == 0 {
            return Result::Err(ParseError { at: j });
        }
        match parse_expr_at(src, v, j + 1, fuel - 1) {
            Result::Ok((t, k)) => {
                let m = skip_ws_at(v, k);
                if m < v.len() && v[m] == ')' {
                    Result::Ok((t, m + 1))
                } else {
                    Result::Err(ParseError { at: m })
                }
            },
            Result::Err(e) => Result::Err(e),
        }
    } else if is_lambda_char(c) {
        let j2 = skip_ws_at(v, j + 1);
        if j2 >= v.len() || !is_ident_start_char(v[j2]) {
            return Result::Err(ParseError { at: j2 });
        }
        let k = scan_ident_at(v, j2);
        let name = ident_of(src, j2, k);
        let j3 = skip_ws_at(v, k);
        if j3 >= v.len() || v[j3] != '.' {
            return Result::Err(ParseError { at: j3 });
        }
        if fuel == 0 {
            return Result::Err(ParseError { at: j3 });
        }
        match parse_expr_at(src, v, j3 + 1, fuel - 1) {
            Result::Ok((b, m)) => Result::Ok((BareTerm::Abs(name, Box::new(b)), m)),
            Result::Err(e) => Result::Err(e),
        }
    } else {
        Result::Err(ParseError { at: j })
    }
}

/// Extends `acc` with further juxtaposed terms, applying left to right.
fn parse_rest_at(acc: BareTerm, src: &str, v: &Vec<char>, i: usize, fuel: usize) -> (r: Result<
    (BareTerm, usize),
    ParseError,
>)
    requires
        src@ == v@,
        i <= v@.len(),
    ensures
        match r {
            Result::Ok(p) => s_parse_rest(acc@, v@, i as int, fuel as nat) == Result::<
                (BareView, int),
                int,
            >::Ok((p.0@, p.1 as int)) && p.1 <= v@.len(),
            Result::Err(e) => s_parse_rest(acc@, v@, i as int, fuel as nat) == Result::<
                (BareView, int),
                int,
            >::Err(e.at as int),
        },
    decreases fuel, 1int,
{
    let j = skip_ws_at(v, i);
    if j < v.len() && starts_term_char(v[j]) {
        if fuel == 0 {
            return Result::Err(ParseError { at: j });
        }
        match parse_term_at(src, v, j, fuel) {
            Result::Ok((t, k)) => {
                let lhs = Box::new(acc);
                let rhs = Box::new(t);
                let joined = BareTerm::App(lhs, rhs);
                parse_rest_at(joined, src, v, k, fuel - 1)
            },
            Result::Err(e) => Result::Err(e),
        }
    } else {
        Result::Ok((acc, j))
    }
}

/// Parses an expression at position `i`: one or more juxtaposed terms.
fn parse_expr_at(src: &str, v: &Vec<char>, i: usize, fuel: usize) -> (r: Result<
    (BareTerm, usize),
    ParseError,
>)
    requires
        src@ == v@,
        i <= v@.len(),
    ensures
        match r {
            Result::Ok(p) => s_parse_expr(v@, i as int, fuel as nat) == Result::<
                (BareView, int),
                int,
            >::Ok((p.0@, p.1 as int)) && p.1 <= v@.len(),
            Result::Err(e) => s_parse_expr(v@, i as int, fuel as nat) == Result::<
                (BareView, int),
                int,
            >::Err(e.at as int),
        },
    decreases fuel, 2int,
{
    match parse_term_at(src, v, i, fuel) {
        Result::Ok((t, j)) => parse_rest_at(t, src, v, j, fuel),
        Result::Err(e) => Result::Err(e),
    }
}

/// Parses a textual lambda term into a bare-identifier term, or reports
/// the position of a syntax error.
pub fn parse(source: &str) -> (r: Result<BareTerm, ParseError>)
    ensures
        match r {
            Result::Ok(t) => s_parse(source@) == Result::<BareView, int>::Ok(t@),
            Result::Err(e) => s_parse(source@) == Result::<BareView, int>::Err(e.at as int),
        },
{
    let owned = source.to_owned();
    let v = crate::names::chars_of(&owned);
    match parse_expr_at(owned.as_str(), &v, 0, v.len()) {
        Result::Ok((t, j)) => {
            if j == v.len() {
                Result::Ok(t)
            } else {
                Result::Err(ParseError { at: j })
            }
        },
        Result::Err(e) => Result::Err(e),
    }
}

} // verus!
