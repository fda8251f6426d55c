//! Lexical analysis: turns the source text into a flat token sequence.
//!
//! The scan runs left to right.  A letter or operator character starts an
//! identifier, which extends over alphanumeric and operator characters; a
//! decimal digit starts a non-negative integer literal; `(`, `)` and `.`
//! each produce their dedicated token; every other character is skipped.
//! The character that ends an identifier or number run is consumed with
//! the run: it still yields its token when it is `(`, `)` or `.`, and is
//! dropped otherwise.  The lexer is total: no input is rejected.

use vstd::prelude::*;
use vstd::string::StrSliceExecFns;
use vstd::string::StringExecFns;

verus! {

/// A lexical token.  Boolean tokens are part of the token alphabet but the
/// scanner itself never produces them; the parser treats the identifiers
/// that denote booleans.
#[derive(Debug, PartialEq)]
pub enum Token {
    Ident(String),
    Bool(bool),
    Number(i32),
    OpenPar,
    ClosePar,
    Period,
}

/// The mathematical image of a [`Token`]: identifier names become
/// character sequences.
pub enum SpecToken {
    Ident(Seq<char>),
    Bool(bool),
    Number(i32),
    OpenPar,
    ClosePar,
    Period,
}

impl View for Token {
    type V = SpecToken;

    open spec fn view(&self) -> SpecToken {
        match self {
            Token::Ident(s) => SpecToken::Ident(s@),
            Token::Bool(b) => SpecToken::Bool(*b),
            Token::Number(n) => SpecToken::Number(*n),
            Token::OpenPar => SpecToken::OpenPar,
            Token::ClosePar => SpecToken::ClosePar,
            Token::Period => SpecToken::Period,
        }
    }
}

/// The token images of a token sequence.
pub open spec fn view_tokens(ts: Seq<Token>) -> Seq<SpecToken> {
    ts.map_values(|t: Token| t@)
}

/// The eight operator characters; runs of them form operator identifiers.
pub open spec fn is_op_char(c: char) -> bool {
    c == '=' || c == '!' || c == '<' || c == '>' || c == '+' || c == '-' || c == '*' || c == '/'
}

/// ASCII letters.
pub open spec fn is_letter(c: char) -> bool {
    (65 <= c as u32 && c as u32 <= 90) || (97 <= c as u32 && c as u32 <= 122)
}

/// ASCII decimal digits.
pub open spec fn is_digit(c: char) -> bool {
    48 <= c as u32 && c as u32 <= 57
}

/// Characters that may continue an identifier run.
pub open spec fn is_ident_char(c: char) -> bool {
    is_letter(c) || is_digit(c) || is_op_char(c)
}

/// First position at or after `i` that cannot continue an identifier run.
pub open spec fn ident_run_end(s: Seq<char>, i: int) -> int
    decreases s.len() - i,
{
    if 0 <= i < s.len() && is_ident_char(s[i]) {
        ident_run_end(s, i + 1)
    } else {
        i
    }
}

/// First position at or after `i` that is not a decimal digit.
pub open spec fn digit_run_end(s: Seq<char>, i: int) -> int
    decreases s.len() - i,
{
    if 0 <= i < s.len() && is_digit(s[i]) {
        digit_run_end(s, i + 1)
    } else {
        i
    }
}

/// The token, if any, produced by the delimiter character that ends a run.
pub open spec fn delim_token(c: char) -> Seq<SpecToken> {
    if c == '(' {
        seq![SpecToken::OpenPar]
    } else if c == ')' {
        seq![SpecToken::ClosePar]
    } else if c == '.' {
        seq![SpecToken::Period]
    } else {
        Seq::empty()
    }
}

/// Numeric value of a digit character.
pub open spec fn digit_val(c: char) -> u32 {
    (c as u32 - 48) as u32
}

/// Value of a digit run, accumulated left to right with wrap-around
/// modulo 2^32, as 32-bit accumulation gives.
pub open spec fn digits_val(s: Seq<char>) -> u32
    decreases s.len(),
{
    if s.len() == 0 {
        0u32
    } else {
        ((10 * digits_val(s.drop_last()) as int + digit_val(s.last()) as int) % 0x1_0000_0000) as u32
    }
}

/// Reinterpretation of a 32-bit accumulator as a signed literal value.
pub open spec fn wrap_i32(v: u32) -> i32 {
    if v < 0x8000_0000 {
        v as i32
    } else {
        (v as int - 0x1_0000_0000) as i32
    }
}

/// The tokens of the suffix of `s` that starts at position `i`.
pub open spec fn spec_tokens_from(s: Seq<char>, i: int) -> Seq<SpecToken>
    decreases s.len() - i,
        via spec_tokens_from_decreases
{
    if i < 0 || i >= s.len() {
        Seq::empty()
    } else {
        let c = s[i];
        if is_letter(c) || is_op_char(c) {
            let j = ident_run_end(s, i + 1);
            let tok = SpecToken::Ident(s.subrange(i, j));
            if j >= s.len() {
                seq![tok]
            } else {
                seq![tok] + delim_token(s[j]) + spec_tokens_from(s, j + 1)
            }
        } else if is_digit(c) {
            let j = digit_run_end(s, i + 1);
            let tok = SpecToken::Number(wrap_i32(digits_val(s.subrange(i, j))));
            if j >= s.len() {
                seq![tok]
            } else {
                seq![tok] + delim_token(s[j]) + spec_tokens_from(s, j + 1)
            }
        } else if c == '(' {
            seq![SpecToken::OpenPar] + spec_tokens_from(s, i + 1)
        } else if c == ')' {
            seq![SpecToken::ClosePar] + spec_tokens_from(s, i + 1)
        } else if c == '.' {
            seq![SpecToken::Period] + spec_tokens_from(s, i + 1)
        } else {
            spec_tokens_from(s, i + 1)
        }
    }
}

#[via_fn]
proof fn spec_tokens_from_decreases(s: Seq<char>, i: int) {
    if 0 <= i < s.len() {
        lemma_ident_run_end_bounds(s, i + 1);
        lemma_digit_run_end_bounds(s, i + 1);
    }
}

/// The token sequence of the whole source text.
pub open spec fn spec_tokens(s: Seq<char>) -> Seq<SpecToken> {
    spec_tokens_from(s, 0)
}

pub proof fn lemma_ident_run_end_bounds(s: Seq<char>, i: int)
    requires
        0 <= i <= s.len(),
    ensures
        i <= ident_run_end(s, i) <= s.len(),
    decreases s.len() - i,
{
    if i < s.len() && is_ident_char(s[i]) {
        lemma_ident_run_end_bounds(s, i + 1);
    }
}

pub proof fn lemma_digit_run_end_bounds(s: Seq<char>, i: int)
    requires
        0 <= i <= s.len(),
    ensures
        i <= digit_run_end(s, i) <= s.len(),
    decreases s.len() - i,
{
    if i < s.len() && is_digit(s[i]) {
        lemma_digit_run_end_bounds(s, i + 1);
    }
}

proof fn lemma_ident_run_end_at(s: Seq<char>, a: int, j: int)
    requires
        0 <= a <= j <= s.len(),
        forall|k: int| a <= k < j ==> is_ident_char(s[k]),
        j == s.len() || !is_ident_char(s[j]),
    ensures
        ident_run_end(s, a) == j,
    decreases j - a,
{
    if a < j {
        lemma_ident_run_end_at(s, a + 1, j);
    }
}

proof fn lemma_digit_run_end_at(s: Seq<char>, a: int, j: int)
    requires
        0 <= a <= j <= s.len(),
        forall|k: int| a <= k < j ==> is_digit(s[k]),
        j == s.len() || !is_digit(s[j]),
    ensures
        digit_run_end(s, a) == j,
    decreases j - a,
{
    if a < j {
        lemma_digit_run_end_at(s, a + 1, j);
    }
}

fn is_operator(c: char) -> (r: bool)
    ensures
        r == is_op_char(c),
{
    c == '=' || c == '!' || c == '<' || c == '>' || c == '+' || c == '-' || c == '*' || c == '/'
}

fn is_ascii_letter(c: char) -> (r: bool)
    ensures
        r == is_letter(c),
{
    let v = c as u32;
    (65 <= v && v <= 90) || (97 <= v && v <= 122)
}

fn is_ascii_digit_char(c: char) -> (r: bool)
    ensures
        r == is_digit(c),
{
    let v = c as u32;
    48 <= v && v <= 57
}

/// Pushes the token of a run-ending delimiter, if it produces one.
fn push_delim(token_list: &mut Vec<Token>, b: char)
    ensures
        view_tokens(final(token_list)@) =~= view_tokens(old(token_list)@) + delim_token(b),
{
    if b == '(' {
        token_list.push(Token::OpenPar);
    } else if b == ')' {
        token_list.push(Token::ClosePar);
    } else if b == '.' {
        token_list.push(Token::Period);
    }
}

/// Turns the source text into its token sequence.
pub fn tokenize(src: &str) -> (r: Vec<Token>)
    ensures
        view_tokens(r@) == spec_tokens(src@),
{
    let n: usize = src.unicode_len();
    let mut token_list: Vec<Token> = Vec::new();
    let mut i: usize = 0;
    while i < n
        invariant
            n == src@.len(),
            i <= n,
            spec_tokens(src@) =~= view_tokens(token_list@) + spec_tokens_from(src@, i as int),
        decreases n - i,
    {
        let ghost s = src@;
        let ghost i0 = i as int;
        let c = src.get_char(i);
        if is_ascii_letter(c) || is_operator(c) {
            let mut j: usize = i + 1;
            while j < n && is_ident_continue(src, j)
                invariant
                    n == src@.len(),
                    i + 1 <= j <= n,
                    forall|k: int| i + 1 <= k < j ==> is_ident_char(src@[k]),
                decreases n - j,
            {
                j = j + 1;
            }
            proof {
                lemma_ident_run_end_at(s, i0 + 1, j as int);
            }
            let name = src.substring_char(i, j);
            token_list.push(Token::Ident(name.to_owned()));
            if j < n {
                let b = src.get_char(j);
                push_delim(&mut token_list, b);
                i = j + 1;
            } else {
                i = j;
            }
        } else if is_ascii_digit_char(c) {
            let mut v: u32 = (c as u32) - 48;
            let mut j: usize = i + 1;
            proof {
                assert(s.subrange(i0, i0 + 1).drop_last() =~= Seq::<char>::empty());
                assert(s.subrange(i0, i0 + 1).last() == c);
                assert(digits_val(Seq::<char>::empty()) == 0) by {
                    reveal_with_fuel(digits_val, 1);
                }
                assert(digits_val(s.subrange(i0, i0 + 1)) == digit_val(c));
            }
            while j < n && is_digit_at(src, j)
                invariant
                    n == src@.len(),
                    i + 1 <= j <= n,
                    i < n,
                    is_digit(src@[i as int]),
                    forall|k: int| i + 1 <= k < j ==> is_digit(src@[k]),
                    v == digits_val(src@.subrange(i as int, j as int)),
                decreases n - j,
            {
                let d = (src.get_char(j) as u32) - 48;
                let ghost jj = j as int;
                let next: u64 = (10u64 * (v as u64) + (d as u64)) % 0x1_0000_0000;
                proof {
                    assert(src@.subrange(i as int, jj + 1).drop_last() =~= src@.subrange(
                        i as int,
                        jj,
                    ));
                    assert(src@.subrange(i as int, jj + 1).last() == src@[jj]);
                }
                v = next as u32;
                j = j + 1;
            }
            proof {
                lemma_digit_run_end_at(s, i0 + 1, j as int);
            }
            let num: i32 = if v < 0x8000_0000 {
                v as i32
            } else {
                ((v as i64) - 0x1_0000_0000i64) as i32
            };
            token_list.push(Token::Number(num));
            if j < n {
                let b = src.get_char(j);
                push_delim(&mut token_list, b);
                i = j + 1;
            } else {
                i = j;
            }
        } else if c == '(' {
            token_list.push(Token::OpenPar);
            i = i + 1;
        } else if c == ')' {
            token_list.push(Token::ClosePar);
            i = i + 1;
        } else if c == '.' {
            token_list.push(Token::Period);
            i = i + 1;
        } else {
            i = i + 1;
        }
    }
    token_list
}

fn is_ident_continue(src: &str, j: usize) -> (r: bool)
    requires
        j < src@.len(),
    ensures
        r == is_ident_char(src@[j as int]),
{
    let c = src.get_char(j);
    is_ascii_letter(c) || is_ascii_digit_char(c) || is_operator(c)
}

fn is_digit_at(src: &str, j: usize) -> (r: bool)
    requires
        j < src@.len(),
    ensures
        r == is_digit(src@[j as int]),
{
    is_ascii_digit_char(src.get_char(j))
}

} // verus!
