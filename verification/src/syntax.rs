//! Tokens and syntax trees of unit expressions.
//!
//! Grammar, from loosest to tightest binding:
//! ```text
//! expr     ::= product (('+' | '-') product)*
//! product  ::= power (('*' | '/' | 'per' | '|') power | <juxtaposition> power)*
//! power    ::= unary (('^' | '**') unary)?
//! unary    ::= ('-' | 'per') unary | atom
//! atom     ::= NUMBER | '~' NAME '(' expr ')' | NAME '(' args? ')' | NAME | '(' expr ')'
//! args     ::= expr (',' expr)*
//! ```
//! A juxtaposed operand starts with a number, a name other than `per`, `(`
//! or `~`.  A call's `(` follows its name directly.
use vstd::prelude::*;

use crate::text::is_ws;
use crate::text::is_whitespace;

verus! {

/// The kind of a token.
#[derive(Debug, Clone, Copy, PartialEq, Eq, Structural)]
pub enum Kind {
    /// A unit, function or variable name.
    Name,
    /// A decimal number literal.
    Dec,
    /// A hexadecimal literal (the token covers the digits after `0x`).
    Hex,
    /// `+`
    Plus,
    /// `-`
    Minus,
    /// `*`
    Star,
    /// `^` or `**`
    Pow,
    /// `/`
    Slash,
    /// `|`
    Pipe,
    /// `(`
    LParen,
    /// `)`
    RParen,
    /// `,`
    Comma,
    /// `~`
    Tilde,
}

/// A token: its kind and the range `start..end` of its text in the source.
#[derive(Debug, Clone, Copy, PartialEq, Eq, Structural)]
pub struct Token {
    /// What the token is.
    pub kind: Kind,
    /// Index of the first character.
    pub start: usize,
    /// Index after the last character.
    pub end: usize,
}

/// Whether `c` is an operator character.
pub open spec fn is_op_char(c: char) -> bool {
    c == '+' || c == '-' || c == '*' || c == '/' || c == '|' || c == '^' || c == '(' || c == ')'
        || c == ',' || c == '~'
}

/// Whether `c` is an ASCII digit.
pub open spec fn is_digit(c: char) -> bool {
    '0' <= c <= '9'
}

/// Whether `c` is an ASCII hexadecimal digit.
pub open spec fn is_hex_digit(c: char) -> bool {
    ('0' <= c <= '9') || ('a' <= c <= 'f') || ('A' <= c <= 'F')
}

/// Whether `c` can be part of a name: anything but whitespace and operators.
pub open spec fn is_name_char(c: char) -> bool {
    !is_ws(c) && !is_op_char(c)
}

/// The end of the run of digits starting at `i`.
pub open spec fn digits_end(s: Seq<char>, i: int) -> int
    decreases s.len() - i,
{
    if 0 <= i < s.len() && is_digit(s[i]) {
        digits_end(s, i + 1)
    } else {
        i
    }
}

/// The end of the run of hexadecimal digits starting at `i`.
pub open spec fn hex_end(s: Seq<char>, i: int) -> int
    decreases s.len() - i,
{
    if 0 <= i < s.len() && is_hex_digit(s[i]) {
        hex_end(s, i + 1)
    } else {
        i
    }
}

/// The end of the run of name characters starting at `i`.
pub open spec fn name_end(s: Seq<char>, i: int) -> int
    decreases s.len() - i,
{
    if 0 <= i < s.len() && is_name_char(s[i]) {
        name_end(s, i + 1)
    } else {
        i
    }
}

/// Whether a number starts at `i`: a digit, or `.` before a digit.
pub open spec fn number_starts(s: Seq<char>, i: int) -> bool {
    0 <= i < s.len() && (is_digit(s[i]) || (s[i] == '.' && i + 1 < s.len() && is_digit(s[i + 1])))
}

/// Whether a hexadecimal literal `0x...` starts at `i`.
pub open spec fn hex_starts(s: Seq<char>, i: int) -> bool {
    0 <= i && i + 2 < s.len() && s[i] == '0' && (s[i + 1] == 'x' || s[i + 1] == 'X') && is_hex_digit(
        s[i + 2],
    )
}

/// The end of a decimal literal starting at `i`: digits, an optional
/// fraction, and an optional exponent `e`/`E`, sign, digits (only taken when
/// a digit follows).
pub open spec fn decimal_end(s: Seq<char>, i: int) -> int {
    let a = digits_end(s, i);
    let b = if 0 <= a < s.len() && s[a] == '.' {
        digits_end(s, a + 1)
    } else {
        a
    };
    if 0 <= b < s.len() && (s[b] == 'e' || s[b] == 'E') {
        let c = if b + 1 < s.len() && (s[b + 1] == '+' || s[b + 1] == '-') {
            b + 2
        } else {
            b + 1
        };
        if c < s.len() && is_digit(s[c]) {
            digits_end(s, c)
        } else {
            b
        }
    } else {
        b
    }
}

/// The single-character operator token for `c`, if `c` is one.
pub open spec fn op_kind(c: char) -> Option<Kind> {
    if c == '+' {
        Some(Kind::Plus)
    } else if c == '-' {
        Some(Kind::Minus)
    } else if c == '*' {
        Some(Kind::Star)
    } else if c == '^' {
        Some(Kind::Pow)
    } else if c == '/' {
        Some(Kind::Slash)
    } else if c == '|' {
        Some(Kind::Pipe)
    } else if c == '(' {
        Some(Kind::LParen)
    } else if c == ')' {
        Some(Kind::RParen)
    } else if c == ',' {
        Some(Kind::Comma)
    } else if c == '~' {
        Some(Kind::Tilde)
    } else {
        None
    }
}

/// The token starting at `i` (which is not whitespace).
pub open spec fn token_at(s: Seq<char>, i: int) -> Token {
    if s[i] == '*' && i + 1 < s.len() && s[i + 1] == '*' {
        Token { kind: Kind::Pow, start: i as usize, end: (i + 2) as usize }
    } else if op_kind(s[i]) is Some {
        Token { kind: op_kind(s[i])->0, start: i as usize, end: (i + 1) as usize }
    } else if hex_starts(s, i) {
        Token { kind: Kind::Hex, start: (i + 2) as usize, end: hex_end(s, i + 2) as usize }
    } else if number_starts(s, i) {
        Token { kind: Kind::Dec, start: i as usize, end: decimal_end(s, i) as usize }
    } else {
        Token { kind: Kind::Name, start: i as usize, end: name_end(s, i) as usize }
    }
}

/// The tokens of `s[i..]`.
pub open spec fn lex_from(s: Seq<char>, i: int) -> Seq<Token>
    decreases s.len() - i,
{
    if i < 0 || i >= s.len() {
        Seq::empty()
    } else if is_ws(s[i]) {
        lex_from(s, i + 1)
    } else {
        let t = token_at(s, i);
        if t.end > i && t.end <= s.len() {
            seq![t] + lex_from(s, t.end as int)
        } else {
            Seq::empty()
        }
    }
}

/// The tokens of `s`.
pub open spec fn lex(s: Seq<char>) -> Seq<Token> {
    lex_from(s, 0)
}

/// The text of token `t` in `s`.
pub open spec fn token_text(s: Seq<char>, t: Token) -> Seq<char> {
    s.subrange(t.start as int, t.end as int)
}

proof fn lemma_digits_end(s: Seq<char>, i: int)
    requires
        0 <= i <= s.len(),
    ensures
        i <= digits_end(s, i) <= s.len(),
    decreases s.len() - i,
{
    if i < s.len() && is_digit(s[i]) {
        lemma_digits_end(s, i + 1);
    }
}

proof fn lemma_hex_end(s: Seq<char>, i: int)
    requires
        0 <= i <= s.len(),
    ensures
        i <= hex_end(s, i) <= s.len(),
    decreases s.len() - i,
{
    if i < s.len() && is_hex_digit(s[i]) {
        lemma_hex_end(s, i + 1);
    }
}

proof fn lemma_name_end(s: Seq<char>, i: int)
    requires
        0 <= i <= s.len(),
    ensures
        i <= name_end(s, i) <= s.len(),
    decreases s.len() - i,
{
    if i < s.len() && is_name_char(s[i]) {
        lemma_name_end(s, i + 1);
    }
}

proof fn lemma_decimal_end(s: Seq<char>, i: int)
    requires
        number_starts(s, i),
    ensures
        i < decimal_end(s, i) <= s.len(),
{
    lemma_digits_end(s, i);
    let a = digits_end(s, i);
    if is_digit(s[i]) {
        lemma_digits_end(s, i + 1);
    }
    if 0 <= a < s.len() && s[a] == '.' {
        lemma_digits_end(s, a + 1);
        if a == i {
            lemma_digits_end(s, i + 2);
        }
    }
    let b = if 0 <= a < s.len() && s[a] == '.' {
        digits_end(s, a + 1)
    } else {
        a
    };
    assert(i < b <= s.len());
    if 0 <= b < s.len() && (s[b] == 'e' || s[b] == 'E') {
        let c = if b + 1 < s.len() && (s[b + 1] == '+' || s[b + 1] == '-') {
            b + 2
        } else {
            b + 1
        };
        if c < s.len() && is_digit(s[c]) {
            lemma_digits_end(s, c);
        }
    }
}

fn is_digit_char(c: char) -> (b: bool)
    ensures
        b == is_digit(c),
{
    '0' <= c && c <= '9'
}

fn is_hex_char(c: char) -> (b: bool)
    ensures
        b == is_hex_digit(c),
{
    ('0' <= c && c <= '9') || ('a' <= c && c <= 'f') || ('A' <= c && c <= 'F')
}

fn scan_digits(s: &Vec<char>, i: usize) -> (j: usize)
    requires
        i <= s@.len(),
    ensures
        j as int == digits_end(s@, i as int),
        i <= j <= s@.len(),
{
    let mut j = i;
    proof {
        lemma_digits_end(s@, i as int);
    }
    while j < s.len() && is_digit_char(s[j])
        invariant
            i <= j <= s@.len(),
            digits_end(s@, j as int) == digits_end(s@, i as int),
        decreases s@.len() - j,
    {
        j = j + 1;
    }
    j
}

fn scan_hex(s: &Vec<char>, i: usize) -> (j: usize)
    requires
        i <= s@.len(),
    ensures
        j as int == hex_end(s@, i as int),
        i <= j <= s@.len(),
{
    let mut j = i;
    proof {
        lemma_hex_end(s@, i as int);
    }
    while j < s.len() && is_hex_char(s[j])
        invariant
            i <= j <= s@.len(),
            hex_end(s@, j as int) == hex_end(s@, i as int),
        decreases s@.len() - j,
    {
        j = j + 1;
    }
    j
}

fn is_op(c: char) -> (b: bool)
    ensures
        b == is_op_char(c),
{
    c == '+' || c == '-' || c == '*' || c == '/' || c == '|' || c == '^' || c == '(' || c == ')'
        || c == ',' || c == '~'
}

fn scan_name(s: &Vec<char>, i: usize) -> (j: usize)
    requires
        i <= s@.len(),
    ensures
        j as int == name_end(s@, i as int),
        i <= j <= s@.len(),
{
    let mut j = i;
    proof {
        lemma_name_end(s@, i as int);
    }
    while j < s.len() && !is_whitespace(s[j]) && !is_op(s[j])
        invariant
            i <= j <= s@.len(),
            name_end(s@, j as int) == name_end(s@, i as int),
        decreases s@.len() - j,
    {
        j = j + 1;
    }
    j
}

fn scan_decimal(s: &Vec<char>, i: usize) -> (j: usize)
    requires
        i <= s@.len(),
    ensures
        j as int == decimal_end(s@, i as int),
        i <= j <= s@.len(),
{
    let a = scan_digits(s, i);
    let b = if a < s.len() && s[a] == '.' {
        scan_digits(s, a + 1)
    } else {
        a
    };
    if b < s.len() && (s[b] == 'e' || s[b] == 'E') {
        let c = if b + 1 < s.len() && (s[b + 1] == '+' || s[b + 1] == '-') {
            b + 2
        } else {
            b + 1
        };
        if c < s.len() && is_digit_char(s[c]) {
            scan_digits(s, c)
        } else {
            b
        }
    } else {
        b
    }
}

fn op_token(c: char) -> (k: Option<Kind>)
    ensures
        k == op_kind(c),
{
    if c == '+' {
        Some(Kind::Plus)
    } else if c == '-' {
        Some(Kind::Minus)
    } else if c == '*' {
        Some(Kind::Star)
    } else if c == '^' {
        Some(Kind::Pow)
    } else if c == '/' {
        Some(Kind::Slash)
    } else if c == '|' {
        Some(Kind::Pipe)
    } else if c == '(' {
        Some(Kind::LParen)
    } else if c == ')' {
        Some(Kind::RParen)
    } else if c == ',' {
        Some(Kind::Comma)
    } else if c == '~' {
        Some(Kind::Tilde)
    } else {
        None
    }
}

fn next_token(s: &Vec<char>, i: usize) -> (t: Token)
    requires
        i < s@.len(),
        !is_ws(s@[i as int]),
    ensures
        t == token_at(s@, i as int),
        i < t.end <= s@.len(),
        t.start <= t.end,
{
    let n = s.len();
    let c = s[i];
    if c == '*' && n - i > 1 && s[i + 1] == '*' {
        return Token { kind: Kind::Pow, start: i, end: i + 2 };
    }
    match op_token(c) {
        Some(k) => {
            return Token { kind: k, start: i, end: i + 1 };
        },
        None => {},
    }
    if c == '0' && n - i > 2 && (s[i + 1] == 'x' || s[i + 1] == 'X') && is_hex_char(s[i + 2]) {
        let e = scan_hex(s, i + 2);
        return Token { kind: Kind::Hex, start: i + 2, end: e };
    }
    if is_digit_char(c) || (c == '.' && n - i > 1 && is_digit_char(s[i + 1])) {
        let e = scan_decimal(s, i);
        proof {
            lemma_decimal_end(s@, i as int);
        }
        return Token { kind: Kind::Dec, start: i, end: e };
    }
    let e = scan_name(s, i);
    proof {
        assert(is_name_char(c));
        lemma_name_end(s@, i + 1);
    }
    Token { kind: Kind::Name, start: i, end: e }
}

/// Splits `s` into tokens (see [`lex`]).
pub fn tokenize(s: &Vec<char>) -> (r: Vec<Token>)
    ensures
        r@ == lex(s@),
{
    let mut out: Vec<Token> = Vec::new();
    let mut i: usize = 0;
    while i < s.len()
        invariant
            i <= s@.len(),
            lex(s@) == out@ + lex_from(s@, i as int),
        decreases s@.len() - i,
    {
        if is_whitespace(s[i]) {
            i = i + 1;
        } else {
            let t = next_token(s, i);
            proof {
                assert(out@ + (seq![t] + lex_from(s@, t.end as int)) =~= out@.push(t) + lex_from(s@, t.end as int));
            }
            out.push(t);
            i = t.end;
        }
    }
    proof {
        assert(out@ + Seq::<Token>::empty() =~= out@);
    }
    out
}

} // verus!

verus! {

/// How deeply parentheses, calls and `~` may nest.
pub const MAX_NESTING: usize = 256;

/// A parsed expression.  Leaves refer to tokens by index.
#[derive(Debug)]
pub enum Expr {
    /// A number literal (token index).
    Num(usize),
    /// A name (token index).
    Name(usize),
    /// A function call `name(args)` (token index of the name).
    Call(usize, Box<ExprList>),
    /// An inverse call `~name(arg)` (token index of the name).
    Inverse(usize, Box<Expr>),
    /// `-x`
    Neg(Box<Expr>),
    /// `per x`: the reciprocal.
    Per(Box<Expr>),
    /// `x ^ y`
    Pow(Box<Expr>, Box<Expr>),
    /// `x * y`
    Mul(Box<Expr>, Box<Expr>),
    /// `x / y` or `x per y`
    Div(Box<Expr>, Box<Expr>),
    /// `x | y`: division of dimensionless numbers.
    NumDiv(Box<Expr>, Box<Expr>),
    /// `x y`: multiplication by juxtaposition.
    Juxt(Box<Expr>, Box<Expr>),
    /// `x + y`
    Add(Box<Expr>, Box<Expr>),
    /// `x - y`
    Sub(Box<Expr>, Box<Expr>),
}

/// The arguments of a call.
#[derive(Debug)]
pub enum ExprList {
    /// No more arguments.
    Nil,
    /// An argument and the rest.
    Cons(Box<Expr>, Box<ExprList>),
}

/// Token `i` exists and has kind `k`.
pub open spec fn kind_at(t: Seq<Token>, i: int, k: Kind) -> bool {
    0 <= i < t.len() && t[i].kind == k
}

/// Token `i` is the name `per`.
pub open spec fn is_per(s: Seq<char>, t: Seq<Token>, i: int) -> bool {
    kind_at(t, i, Kind::Name) && t[i].start <= t[i].end <= s.len() && token_text(s, t[i])
        == "per"@
}

/// Token `i` can begin a juxtaposed operand.
pub open spec fn starts_operand(s: Seq<char>, t: Seq<Token>, i: int) -> bool {
    0 <= i < t.len() && (t[i].kind == Kind::Dec || t[i].kind == Kind::Hex || t[i].kind
        == Kind::LParen || t[i].kind == Kind::Tilde || (t[i].kind == Kind::Name && !is_per(s, t, i)))
}

/// `expr` at token `i`: the expression and the index after it.
pub open spec fn p_expr(s: Seq<char>, t: Seq<Token>, i: int, f: nat) -> Option<(Expr, int)>
    decreases f, t.len() - i, 6nat,
{
    match p_product(s, t, i, f) {
        Some((a, j)) => if i < j <= t.len() {
            p_add_rest(s, t, j, f, a)
        } else {
            None
        },
        None => None,
    }
}

/// The `('+' | '-') product` repetitions after `acc`.
pub open spec fn p_add_rest(s: Seq<char>, t: Seq<Token>, i: int, f: nat, acc: Expr) -> Option<
    (Expr, int),
>
    decreases f, t.len() - i, 5nat,
{
    if kind_at(t, i, Kind::Plus) || kind_at(t, i, Kind::Minus) {
        match p_product(s, t, i + 1, f) {
            Some((b, j)) => if i < j <= t.len() {
                let e = if t[i].kind == Kind::Plus {
                    Expr::Add(Box::new(acc), Box::new(b))
                } else {
                    Expr::Sub(Box::new(acc), Box::new(b))
                };
                p_add_rest(s, t, j, f, e)
            } else {
                None
            },
            None => None,
        }
    } else {
        Some((acc, i))
    }
}

/// `product` at token `i`.
pub open spec fn p_product(s: Seq<char>, t: Seq<Token>, i: int, f: nat) -> Option<(Expr, int)>
    decreases f, t.len() - i, 4nat,
{
    match p_power(s, t, i, f) {
        Some((a, j)) => if i < j <= t.len() {
            p_mul_rest(s, t, j, f, a)
        } else {
            None
        },
        None => None,
    }
}

/// The multiplicative repetitions after `acc`.
pub open spec fn p_mul_rest(s: Seq<char>, t: Seq<Token>, i: int, f: nat, acc: Expr) -> Option<
    (Expr, int),
>
    decreases f, t.len() - i, 3nat,
{
    if kind_at(t, i, Kind::Star) || kind_at(t, i, Kind::Slash) || kind_at(t, i, Kind::Pipe)
        || is_per(s, t, i) {
        match p_power(s, t, i + 1, f) {
            Some((b, j)) => if i < j <= t.len() {
                let e = if t[i].kind == Kind::Star {
                    Expr::Mul(Box::new(acc), Box::new(b))
                } else if t[i].kind == Kind::Pipe {
                    Expr::NumDiv(Box::new(acc), Box::new(b))
                } else {
                    Expr::Div(Box::new(acc), Box::new(b))
                };
                p_mul_rest(s, t, j, f, e)
            } else {
                None
            },
            None => None,
        }
    } else if starts_operand(s, t, i) {
        match p_power(s, t, i, f) {
            Some((b, j)) => if i < j <= t.len() {
                p_mul_rest(s, t, j, f, Expr::Juxt(Box::new(acc), Box::new(b)))
            } else {
                None
            },
            None => None,
        }
    } else {
        Some((acc, i))
    }
}

/// `power` at token `i`.
pub open spec fn p_power(s: Seq<char>, t: Seq<Token>, i: int, f: nat) -> Option<(Expr, int)>
    decreases f, t.len() - i, 2nat,
{
    match p_unary(s, t, i, f) {
        Some((a, j)) => if i <= j && kind_at(t, j, Kind::Pow) {
            match p_unary(s, t, j + 1, f) {
                Some((b, k)) => Some((Expr::Pow(Box::new(a), Box::new(b)), k)),
                None => None,
            }
        } else {
            Some((a, j))
        },
        None => None,
    }
}

/// `unary` at token `i`.
pub open spec fn p_unary(s: Seq<char>, t: Seq<Token>, i: int, f: nat) -> Option<(Expr, int)>
    decreases f, t.len() - i, 1nat,
{
    if kind_at(t, i, Kind::Minus) {
        match p_unary(s, t, i + 1, f) {
            Some((a, j)) => Some((Expr::Neg(Box::new(a)), j)),
            None => None,
        }
    } else if is_per(s, t, i) {
        match p_unary(s, t, i + 1, f) {
            Some((a, j)) => Some((Expr::Per(Box::new(a)), j)),
            None => None,
        }
    } else {
        p_atom(s, t, i, f)
    }
}

/// `atom` at token `i`.
pub open spec fn p_atom(s: Seq<char>, t: Seq<Token>, i: int, f: nat) -> Option<(Expr, int)>
    decreases f, t.len() - i, 0nat,
{
    if kind_at(t, i, Kind::Dec) || kind_at(t, i, Kind::Hex) {
        Some((Expr::Num(i as usize), i + 1))
    } else if kind_at(t, i, Kind::Tilde) {
        if f > 0 && kind_at(t, i + 1, Kind::Name) && kind_at(t, i + 2, Kind::LParen) {
            match p_expr(s, t, i + 3, (f - 1) as nat) {
                Some((e, j)) => if kind_at(t, j, Kind::RParen) {
                    Some((Expr::Inverse((i + 1) as usize, Box::new(e)), j + 1))
                } else {
                    None
                },
                None => None,
            }
        } else {
            None
        }
    } else if kind_at(t, i, Kind::Name) {
        if kind_at(t, i + 1, Kind::LParen) && t[i].end == t[i + 1].start {
            if kind_at(t, i + 2, Kind::RParen) {
                Some((Expr::Call(i as usize, Box::new(ExprList::Nil)), i + 3))
            } else if f > 0 {
                match p_args(s, t, i + 2, (f - 1) as nat) {
                    Some((l, j)) => if kind_at(t, j, Kind::RParen) {
                        Some((Expr::Call(i as usize, Box::new(l)), j + 1))
                    } else {
                        None
                    },
                    None => None,
                }
            } else {
                None
            }
        } else {
            Some((Expr::Name(i as usize), i + 1))
        }
    } else if kind_at(t, i, Kind::LParen) {
        if f > 0 {
            match p_expr(s, t, i + 1, (f - 1) as nat) {
                Some((e, j)) => if kind_at(t, j, Kind::RParen) {
                    Some((e, j + 1))
                } else {
                    None
                },
                None => None,
            }
        } else {
            None
        }
    } else {
        None
    }
}

/// `args` at token `i`.
pub open spec fn p_args(s: Seq<char>, t: Seq<Token>, i: int, f: nat) -> Option<(ExprList, int)>
    decreases f, t.len() - i, 8nat,
{
    match p_expr(s, t, i, f) {
        Some((e, j)) => if i < j <= t.len() {
            match p_args_rest(s, t, j, f) {
                Some((l, k)) => Some((ExprList::Cons(Box::new(e), Box::new(l)), k)),
                None => None,
            }
        } else {
            None
        },
        None => None,
    }
}

/// The `',' expr` repetitions of an argument list.
pub open spec fn p_args_rest(s: Seq<char>, t: Seq<Token>, i: int, f: nat) -> Option<
    (ExprList, int),
>
    decreases f, t.len() - i, 8nat,
{
    if kind_at(t, i, Kind::Comma) {
        match p_expr(s, t, i + 1, f) {
            Some((e, j)) => if i < j <= t.len() {
                match p_args_rest(s, t, j, f) {
                    Some((l, k)) => Some((ExprList::Cons(Box::new(e), Box::new(l)), k)),
                    None => None,
                }
            } else {
                None
            },
            None => None,
        }
    } else {
        Some((ExprList::Nil, i))
    }
}

/// The expression that the tokens `t` of `s` spell, when they spell one
/// completely.
pub open spec fn parse_tokens(s: Seq<char>, t: Seq<Token>) -> Option<Expr> {
    match p_expr(s, t, 0, MAX_NESTING as nat) {
        Some((e, j)) => if j == t.len() {
            Some(e)
        } else {
            None
        },
        None => None,
    }
}


/// In a product, `per` between two operands divides exactly as `/` does:
/// the operand after it becomes the divisor of everything before it, and
/// the product goes on from there.
pub proof fn lemma_per_divides(s: Seq<char>, t: Seq<Token>, i: int, f: nat, acc: Expr, b: Expr, j: int)
    requires
        is_per(s, t, i) || kind_at(t, i, Kind::Slash),
        p_power(s, t, i + 1, f) == Some((b, j)),
        i < j <= t.len(),
    ensures
        p_mul_rest(s, t, i, f, acc) == p_mul_rest(s, t, j, f, Expr::Div(Box::new(acc), Box::new(b))),
{
}

} // verus!

verus! {

fn kind_is(t: &Vec<Token>, i: usize, k: Kind) -> (b: bool)
    ensures
        b == kind_at(t@, i as int, k),
        t@.len() <= usize::MAX,
{
    i < t.len() && t[i].kind == k
}

fn per_at(s: &Vec<char>, t: &Vec<Token>, i: usize) -> (b: bool)
    ensures
        b == is_per(s@, t@, i as int),
        t@.len() <= usize::MAX,
{
    if !kind_is(t, i, Kind::Name) {
        return false;
    }
    let tok = t[i];
    if !(tok.start <= tok.end && tok.end <= s.len()) {
        return false;
    }
    if tok.end - tok.start != 3 {
        proof {
            reveal_strlit("per");
            assert(token_text(s@, tok).len() == tok.end - tok.start);
        }
        return false;
    }
    proof {
        reveal_strlit("per");
    }
    let b = s[tok.start] == 'p' && s[tok.start + 1] == 'e' && s[tok.start + 2] == 'r';
    proof {
        let txt = token_text(s@, tok);
        if b {
            assert(txt =~= "per"@);
        } else {
            assert(txt[0] != 'p' || txt[1] != 'e' || txt[2] != 'r');
        }
    }
    b
}

fn operand_at(s: &Vec<char>, t: &Vec<Token>, i: usize) -> (b: bool)
    ensures
        b == starts_operand(s@, t@, i as int),
        t@.len() <= usize::MAX,
{
    if i >= t.len() {
        return false;
    }
    let k = t[i].kind;
    k == Kind::Dec || k == Kind::Hex || k == Kind::LParen || k == Kind::Tilde || (k == Kind::Name
        && !per_at(s, t, i))
}

fn parse_expr(s: &Vec<char>, t: &Vec<Token>, i: usize, f: usize) -> (r: Option<(Expr, usize)>)
    ensures
        match r {
            Some((e, j)) => p_expr(s@, t@, i as int, f as nat) == Some((e, j as int)),
            None => p_expr(s@, t@, i as int, f as nat) is None,
        },
    decreases f, t@.len() - i, 6int,
{
    match parse_product(s, t, i, f) {
        Some((a, j)) => if i < j && j <= t.len() {
            parse_add_rest(s, t, j, f, a)
        } else {
            None
        },
        None => None,
    }
}

fn parse_add_rest(s: &Vec<char>, t: &Vec<Token>, i: usize, f: usize, acc: Expr) -> (r: Option<
    (Expr, usize),
>)
    ensures
        match r {
            Some((e, j)) => p_add_rest(s@, t@, i as int, f as nat, acc) == Some((e, j as int)),
            None => p_add_rest(s@, t@, i as int, f as nat, acc) is None,
        },
    decreases f, t@.len() - i, 5int,
{
    if kind_is(t, i, Kind::Plus) || kind_is(t, i, Kind::Minus) {
        match parse_product(s, t, i + 1, f) {
            Some((b, j)) => if i < j && j <= t.len() {
                let e = if t[i].kind == Kind::Plus {
                    Expr::Add(Box::new(acc), Box::new(b))
                } else {
                    Expr::Sub(Box::new(acc), Box::new(b))
                };
                parse_add_rest(s, t, j, f, e)
            } else {
                None
            },
            None => None,
        }
    } else {
        Some((acc, i))
    }
}

fn parse_product(s: &Vec<char>, t: &Vec<Token>, i: usize, f: usize) -> (r: Option<(Expr, usize)>)
    ensures
        match r {
            Some((e, j)) => p_product(s@, t@, i as int, f as nat) == Some((e, j as int)),
            None => p_product(s@, t@, i as int, f as nat) is None,
        },
    decreases f, t@.len() - i, 4int,
{
    match parse_power(s, t, i, f) {
        Some((a, j)) => if i < j && j <= t.len() {
            parse_mul_rest(s, t, j, f, a)
        } else {
            None
        },
        None => None,
    }
}

fn parse_mul_rest(s: &Vec<char>, t: &Vec<Token>, i: usize, f: usize, acc: Expr) -> (r: Option<
    (Expr, usize),
>)
    ensures
        match r {
            Some((e, j)) => p_mul_rest(s@, t@, i as int, f as nat, acc) == Some((e, j as int)),
            None => p_mul_rest(s@, t@, i as int, f as nat, acc) is None,
        },
    decreases f, t@.len() - i, 3int,
{
    if kind_is(t, i, Kind::Star) || kind_is(t, i, Kind::Slash) || kind_is(t, i, Kind::Pipe)
        || per_at(s, t, i) {
        match parse_power(s, t, i + 1, f) {
            Some((b, j)) => if i < j && j <= t.len() {
                let e = if t[i].kind == Kind::Star {
                    Expr::Mul(Box::new(acc), Box::new(b))
                } else if t[i].kind == Kind::Pipe {
                    Expr::NumDiv(Box::new(acc), Box::new(b))
                } else {
                    Expr::Div(Box::new(acc), Box::new(b))
                };
                parse_mul_rest(s, t, j, f, e)
            } else {
                None
            },
            None => None,
        }
    } else if operand_at(s, t, i) {
        match parse_power(s, t, i, f) {
            Some((b, j)) => if i < j && j <= t.len() {
                parse_mul_rest(s, t, j, f, Expr::Juxt(Box::new(acc), Box::new(b)))
            } else {
                None
            },
            None => None,
        }
    } else {
        Some((acc, i))
    }
}

fn parse_power(s: &Vec<char>, t: &Vec<Token>, i: usize, f: usize) -> (r: Option<(Expr, usize)>)
    ensures
        match r {
            Some((e, j)) => p_power(s@, t@, i as int, f as nat) == Some((e, j as int)),
            None => p_power(s@, t@, i as int, f as nat) is None,
        },
    decreases f, t@.len() - i, 2int,
{
    match parse_unary(s, t, i, f) {
        Some((a, j)) => if i <= j && kind_is(t, j, Kind::Pow) {
            match parse_unary(s, t, j + 1, f) {
                Some((b, k)) => Some((Expr::Pow(Box::new(a), Box::new(b)), k)),
                None => None,
            }
        } else {
            Some((a, j))
        },
        None => None,
    }
}

fn parse_unary(s: &Vec<char>, t: &Vec<Token>, i: usize, f: usize) -> (r: Option<(Expr, usize)>)
    ensures
        match r {
            Some((e, j)) => p_unary(s@, t@, i as int, f as nat) == Some((e, j as int)),
            None => p_unary(s@, t@, i as int, f as nat) is None,
        },
    decreases f, t@.len() - i, 1int,
{
    if kind_is(t, i, Kind::Minus) {
        match parse_unary(s, t, i + 1, f) {
            Some((a, j)) => Some((Expr::Neg(Box::new(a)), j)),
            None => None,
        }
    } else if per_at(s, t, i) {
        match parse_unary(s, t, i + 1, f) {
            Some((a, j)) => Some((Expr::Per(Box::new(a)), j)),
            None => None,
        }
    } else {
        parse_atom(s, t, i, f)
    }
}

fn parse_atom(s: &Vec<char>, t: &Vec<Token>, i: usize, f: usize) -> (r: Option<(Expr, usize)>)
    ensures
        match r {
            Some((e, j)) => p_atom(s@, t@, i as int, f as nat) == Some((e, j as int)),
            None => p_atom(s@, t@, i as int, f as nat) is None,
        },
    decreases f, t@.len() - i, 0int,
{
    if kind_is(t, i, Kind::Dec) || kind_is(t, i, Kind::Hex) {
        Some((Expr::Num(i), i + 1))
    } else if kind_is(t, i, Kind::Tilde) {
        if f > 0 && kind_is(t, i + 1, Kind::Name) && kind_is(t, i + 2, Kind::LParen) {
            match parse_expr(s, t, i + 3, f - 1) {
                Some((e, j)) => if kind_is(t, j, Kind::RParen) {
                    Some((Expr::Inverse(i + 1, Box::new(e)), j + 1))
                } else {
                    None
                },
                None => None,
            }
        } else {
            None
        }
    } else if kind_is(t, i, Kind::Name) {
        if kind_is(t, i + 1, Kind::LParen) && t[i].end == t[i + 1].start {
            if kind_is(t, i + 2, Kind::RParen) {
                Some((Expr::Call(i, Box::new(ExprList::Nil)), i + 3))
            } else if f > 0 {
                match parse_args(s, t, i + 2, f - 1) {
                    Some((l, j)) => if kind_is(t, j, Kind::RParen) {
                        Some((Expr::Call(i, Box::new(l)), j + 1))
                    } else {
                        None
                    },
                    None => None,
                }
            } else {
                None
            }
        } else {
            Some((Expr::Name(i), i + 1))
        }
    } else if kind_is(t, i, Kind::LParen) {
        if f > 0 {
            match parse_expr(s, t, i + 1, f - 1) {
                Some((e, j)) => if kind_is(t, j, Kind::RParen) {
                    Some((e, j + 1))
                } else {
                    None
                },
                None => None,
            }
        } else {
            None
        }
    } else {
        None
    }
}

fn parse_args(s: &Vec<char>, t: &Vec<Token>, i: usize, f: usize) -> (r: Option<(ExprList, usize)>)
    ensures
        match r {
            Some((l, j)) => p_args(s@, t@, i as int, f as nat) == Some((l, j as int)),
            None => p_args(s@, t@, i as int, f as nat) is None,
        },
    decreases f, t@.len() - i, 8int,
{
    match parse_expr(s, t, i, f) {
        Some((e, j)) => if i < j && j <= t.len() {
            match parse_args_rest(s, t, j, f) {
                Some((l, k)) => Some((ExprList::Cons(Box::new(e), Box::new(l)), k)),
                None => None,
            }
        } else {
            None
        },
        None => None,
    }
}

fn parse_args_rest(s: &Vec<char>, t: &Vec<Token>, i: usize, f: usize) -> (r: Option<
    (ExprList, usize),
>)
    ensures
        match r {
            Some((l, j)) => p_args_rest(s@, t@, i as int, f as nat) == Some((l, j as int)),
            None => p_args_rest(s@, t@, i as int, f as nat) is None,
        },
    decreases f, t@.len() - i, 8int,
{
    if kind_is(t, i, Kind::Comma) {
        match parse_expr(s, t, i + 1, f) {
            Some((e, j)) => if i < j && j <= t.len() {
                match parse_args_rest(s, t, j, f) {
                    Some((l, k)) => Some((ExprList::Cons(Box::new(e), Box::new(l)), k)),
                    None => None,
                }
            } else {
                None
            },
            None => None,
        }
    } else {
        Some((ExprList::Nil, i))
    }
}

/// Parses the tokens `t` of `s` as one complete expression.
pub fn parse_token_list(s: &Vec<char>, t: &Vec<Token>) -> (r: Option<Expr>)
    ensures
        r == parse_tokens(s@, t@),
{
    match parse_expr(s, t, 0, MAX_NESTING) {
        Some((e, j)) => if j == t.len() {
            Some(e)
        } else {
            None
        },
        None => None,
    }
}

} // verus!

verus! {

/// The number of nodes of an expression.
pub open spec fn expr_size(e: Expr) -> nat
    decreases e, 0nat,
{
    match e {
        Expr::Num(_) => 1,
        Expr::Name(_) => 1,
        Expr::Call(_, l) => 1 + list_size(*l),
        Expr::Inverse(_, a) => 1 + expr_size(*a),
        Expr::Neg(a) => 1 + expr_size(*a),
        Expr::Per(a) => 1 + expr_size(*a),
        Expr::Pow(a, b) => 1 + expr_size(*a) + expr_size(*b),
        Expr::Mul(a, b) => 1 + expr_size(*a) + expr_size(*b),
        Expr::Div(a, b) => 1 + expr_size(*a) + expr_size(*b),
        Expr::NumDiv(a, b) => 1 + expr_size(*a) + expr_size(*b),
        Expr::Juxt(a, b) => 1 + expr_size(*a) + expr_size(*b),
        Expr::Add(a, b) => 1 + expr_size(*a) + expr_size(*b),
        Expr::Sub(a, b) => 1 + expr_size(*a) + expr_size(*b),
    }
}

/// The number of nodes of an argument list.
pub open spec fn list_size(l: ExprList) -> nat
    decreases l, 0nat,
{
    match l {
        ExprList::Nil => 1,
        ExprList::Cons(e, r) => 1 + expr_size(*e) + list_size(*r),
    }
}

} // verus!
