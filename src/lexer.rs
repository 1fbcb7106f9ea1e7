//! The lexer: source text to tokens, each taken as the longest match at its place.
use crate::execution::token_valid;
use crate::number::{
    big_parse_decimal, canon, digits_value, is_digit, is_signed_decimal, ratio_new,
    ratio_parts, signed_decimal_value,
};
use crate::strings::{from_string, string_value};
use crate::token::Token;
use vstd::prelude::*;
use vstd::utf8::encode_utf8;
use vstd::string::StrSliceExecFns;
use vstd::string::StringSliceAdditionalSpecFns;

verus! {

/// A token as the specifications see it.
pub enum Lexeme {
    Ident(Seq<char>),
    AssignVar(Seq<char>),
    AssignFn(Seq<char>, nat),
    AssignIter(Seq<char>, nat),
    Arg(nat),
    Num(int, int),
    Simple(char),
    Approx,
    Bad,
}

pub open spec fn is_alpha(c: char) -> bool {
    ('a' <= c && c <= 'z') || ('A' <= c && c <= 'Z')
}

pub open spec fn is_alnum(c: char) -> bool {
    is_alpha(c) || is_digit(c)
}

pub open spec fn is_space(c: char) -> bool {
    c == ' ' || c == '\t' || c == '\n' || c == '\x0c' || c == '\r'
}

/// The characters that stand alone as one token.
pub open spec fn is_simple(c: char) -> bool {
    c == '-' || c == '+' || c == '*' || c == '/' || c == '~' || c == '\\' || c == '^' || c == '_'
        || c == '?' || c == '=' || c == '#' || c == ':' || c == '>' || c == '<' || c == '!'
        || c == '%' || c == '&'
}

/// End of the identifier whose characters after the first start at `k`: letters and
/// digits, and `-` or `_` each followed by a letter or digit.
pub open spec fn ident_end(s: Seq<char>, k: int) -> int
    decreases s.len() - k,
{
    if k >= s.len() {
        k
    } else if is_alnum(s[k]) {
        ident_end(s, k + 1)
    } else if (s[k] == '-' || s[k] == '_') && k + 1 < s.len() && is_alnum(s[k + 1]) {
        ident_end(s, k + 2)
    } else {
        k
    }
}

/// End of the run of decimal digits that starts at `k`.
pub open spec fn digits_end(s: Seq<char>, k: int) -> int
    decreases s.len() - k,
{
    if k < s.len() && is_digit(s[k]) {
        digits_end(s, k + 1)
    } else {
        k
    }
}

/// End of a string literal's body that starts at `k`, just past the closing quote,
/// if the literal is well formed.
pub open spec fn string_end(s: Seq<char>, k: int) -> Option<int>
    decreases s.len() - k,
{
    if k >= s.len() {
        None
    } else if s[k] == '"' {
        Some(k + 1)
    } else if s[k] != '\\' {
        string_end(s, k + 1)
    } else if k + 1 < s.len() && (s[k + 1] == 'n' || s[k + 1] == 'r' || s[k + 1] == 't' || s[k
        + 1] == '\\' || s[k + 1] == '"') {
        string_end(s, k + 2)
    } else if k + 2 < s.len() && is_hex(s[k + 1]) && is_hex(s[k + 2]) {
        string_end(s, k + 3)
    } else {
        None
    }
}

pub open spec fn is_hex(c: char) -> bool {
    is_digit(c) || ('a' <= c && c <= 'f') || ('A' <= c && c <= 'F')
}

/// Index of the end of the line that `k` is on.
pub open spec fn line_end(s: Seq<char>, k: int) -> int
    decreases s.len() - k,
{
    if k < s.len() && s[k] != '\n' {
        line_end(s, k + 1)
    } else {
        k
    }
}

/// A number literal over `[i, e)`: an optional sign, digits, and optionally `/` and
/// digits; its denominator is not zero.
pub open spec fn number_lexeme(s: Seq<char>, i: int, e: int, slash: int) -> Lexeme {
    let num = signed_decimal_value(s.subrange(i, slash));
    let den: int = if slash < e {
        digits_value(s.subrange(slash + 1, e)) as int
    } else {
        1
    };
    if den == 0 {
        Lexeme::Bad
    } else {
        Lexeme::Num(canon(num, den).0, canon(num, den).1)
    }
}

/// The token that starts at `i` (not a blank nor a comment) and where it ends.
pub open spec fn next_lexeme(s: Seq<char>, i: int) -> (Lexeme, int) {
    let c = s[i];
    if is_alpha(c) {
        let e = ident_end(s, i + 1);
        let name = s.subrange(i, e);
        if e + 1 < s.len() && (s[e] == '|' || s[e] == '@') && is_digit(s[e + 1]) {
            let d = digits_end(s, e + 1);
            let n = digits_value(s.subrange(e + 1, d));
            if n > usize::MAX {
                (Lexeme::Bad, d)
            } else if s[e] == '|' {
                (Lexeme::AssignFn(name, n), d)
            } else {
                (Lexeme::AssignIter(name, n), d)
            }
        } else {
            (Lexeme::Ident(name), e)
        }
    } else if c == '=' && i + 1 < s.len() && is_alpha(s[i + 1]) {
        let e = ident_end(s, i + 2);
        (Lexeme::AssignVar(s.subrange(i + 1, e)), e)
    } else if c == '$' && i + 1 < s.len() && is_digit(s[i + 1]) {
        let d = digits_end(s, i + 1);
        let n = digits_value(s.subrange(i + 1, d));
        if n > usize::MAX {
            (Lexeme::Bad, d)
        } else {
            (Lexeme::Arg(n), d)
        }
    } else if is_digit(c) || ((c == '-' || c == '+') && i + 1 < s.len() && is_digit(s[i + 1])) {
        let first = if is_digit(c) {
            i
        } else {
            i + 1
        };
        let slash = digits_end(s, first);
        if slash + 1 < s.len() && s[slash] == '/' && is_digit(s[slash + 1]) {
            let e = digits_end(s, slash + 1);
            (number_lexeme(s, i, e, slash), e)
        } else {
            (number_lexeme(s, i, slash, slash), slash)
        }
    } else if c == '"' {
        match string_end(s, i + 1) {
            Some(e) => (
                Lexeme::Num(string_value(encode_utf8(s.subrange(i, e))) as int, 1),
                e,
            ),
            None => (Lexeme::Bad, i + 1),
        }
    } else if c == '[' && i + 1 < s.len() && s[i + 1] == ']' {
        (Lexeme::Approx, i + 2)
    } else if is_simple(c) {
        (Lexeme::Simple(c), i + 1)
    } else {
        (Lexeme::Bad, i + 1)
    }
}

/// The tokens of `s` from `i` on: blanks are skipped, and `;` starts a comment that
/// runs to the end of the line.
pub open spec fn lexemes(s: Seq<char>, i: int) -> Seq<Lexeme>
    decreases s.len() - i,
{
    if i >= s.len() {
        seq![]
    } else if is_space(s[i]) {
        lexemes(s, i + 1)
    } else if s[i] == ';' {
        let e = line_end(s, i);
        if i < e <= s.len() {
            lexemes(s, e)
        } else {
            seq![]
        }
    } else {
        let (l, e) = next_lexeme(s, i);
        if i < e <= s.len() {
            seq![l] + lexemes(s, e)
        } else {
            seq![]
        }
    }
}

/// The token that stands for a lexeme.
pub open spec fn token_is(t: Token, l: Lexeme) -> bool {
    match l {
        Lexeme::Ident(name) => t is Identifier && t->Identifier_0@ == name,
        Lexeme::AssignVar(name) => t is AssignVariable && t->AssignVariable_0@ == name,
        Lexeme::AssignFn(name, n) => t is AssignFunction && t->AssignFunction_0@ == name
            && t->AssignFunction_1 == n,
        Lexeme::AssignIter(name, n) => t is AssignIterative && t->AssignIterative_0@ == name
            && t->AssignIterative_1 == n,
        Lexeme::Arg(n) => t is Argument && t->Argument_0 == n,
        Lexeme::Num(n, d) => t is Number && ratio_parts(t->Number_0) == (n, d),
        Lexeme::Approx => t is Approx,
        Lexeme::Bad => t is Error,
        Lexeme::Simple(c) => t == simple_token(c),
    }
}

pub open spec fn simple_token(c: char) -> Token {
    if c == '-' {
        Token::Minus
    } else if c == '+' {
        Token::Plus
    } else if c == '*' {
        Token::Times
    } else if c == '/' {
        Token::Divide
    } else if c == '~' {
        Token::PositiveMinus
    } else if c == '\\' {
        Token::IntegerDiv
    } else if c == '^' {
        Token::Exp
    } else if c == '_' {
        Token::ExpMod
    } else if c == '?' {
        Token::If
    } else if c == '=' {
        Token::Return
    } else if c == '#' {
        Token::Partial
    } else if c == ':' {
        Token::Print
    } else if c == '>' {
        Token::Flush
    } else if c == '<' {
        Token::Duplicate
    } else if c == '!' {
        Token::Drop
    } else if c == '%' {
        Token::Empty
    } else {
        Token::Format
    }
}

/// The tokens `ts` stand for the lexemes `ls`, one for one.
pub open spec fn tokens_match(ts: Seq<Token>, ls: Seq<Lexeme>) -> bool {
    ts.len() == ls.len() && forall|k: int| 0 <= k < ts.len() ==> token_is(#[trigger] ts[k], ls[k])
}

proof fn lemma_ident_end(s: Seq<char>, k: int)
    requires
        0 <= k <= s.len(),
    ensures
        k <= ident_end(s, k) <= s.len(),
    decreases s.len() - k,
{
    if k < s.len() {
        if is_alnum(s[k]) {
            lemma_ident_end(s, k + 1);
        } else if (s[k] == '-' || s[k] == '_') && k + 1 < s.len() && is_alnum(s[k + 1]) {
            lemma_ident_end(s, k + 2);
        }
    }
}

proof fn lemma_digits_end(s: Seq<char>, k: int)
    requires
        0 <= k <= s.len(),
    ensures
        k <= digits_end(s, k) <= s.len(),
        forall|m: int| k <= m < digits_end(s, k) ==> is_digit(#[trigger] s[m]),
    decreases s.len() - k,
{
    if k < s.len() && is_digit(s[k]) {
        lemma_digits_end(s, k + 1);
    }
}

proof fn lemma_string_end(s: Seq<char>, k: int)
    requires
        0 <= k <= s.len(),
    ensures
        string_end(s, k) is Some ==> k < string_end(s, k)->0 <= s.len(),
    decreases s.len() - k,
{
    if k < s.len() && s[k] != '"' {
        if s[k] != '\\' {
            lemma_string_end(s, k + 1);
        } else if k + 1 < s.len() && (s[k + 1] == 'n' || s[k + 1] == 'r' || s[k + 1] == 't' || s[k
            + 1] == '\\' || s[k + 1] == '"') {
            lemma_string_end(s, k + 2);
        } else if k + 2 < s.len() && is_hex(s[k + 1]) && is_hex(s[k + 2]) {
            lemma_string_end(s, k + 3);
        }
    }
}

proof fn lemma_line_end(s: Seq<char>, k: int)
    requires
        0 <= k <= s.len(),
    ensures
        k <= line_end(s, k) <= s.len(),
    decreases s.len() - k,
{
    if k < s.len() && s[k] != '\n' {
        lemma_line_end(s, k + 1);
    }
}

proof fn lemma_digits_value_grows(s: Seq<char>, a: int, b: int)
    requires
        0 <= a <= b <= s.len(),
        forall|m: int| 0 <= m < s.len() ==> is_digit(#[trigger] s[m]),
    ensures
        digits_value(s.subrange(0, a)) <= digits_value(s.subrange(0, b)),
    decreases b - a,
{
    if a < b {
        lemma_digits_value_grows(s, a, b - 1);
        assert(s.subrange(0, b).drop_last() =~= s.subrange(0, b - 1));
    }
}

/// The characters of a string.
fn chars_of(line: &str) -> (r: Vec<char>)
    ensures
        r@ == line@,
{
    let n = line.unicode_len();
    let mut v: Vec<char> = Vec::new();
    let mut i: usize = 0;
    while i < n
        invariant
            n == line@.len(),
            i <= n,
            v@ == line@.subrange(0, i as int),
        decreases n - i,
    {
        let c = line.get_char(i);
        v.push(c);
        i = i + 1;
        assert(v@ =~= line@.subrange(0, i as int));
    }
    assert(line@.subrange(0, n as int) =~= line@);
    v
}

fn is_alpha_char(c: char) -> (r: bool)
    ensures
        r == is_alpha(c),
{
    ('a' <= c && c <= 'z') || ('A' <= c && c <= 'Z')
}

fn is_digit_char(c: char) -> (r: bool)
    ensures
        r == is_digit(c),
{
    '0' <= c && c <= '9'
}

fn is_alnum_char(c: char) -> (r: bool)
    ensures
        r == is_alnum(c),
{
    is_alpha_char(c) || is_digit_char(c)
}

fn is_hex_char(c: char) -> (r: bool)
    ensures
        r == is_hex(c),
{
    is_digit_char(c) || ('a' <= c && c <= 'f') || ('A' <= c && c <= 'F')
}

fn ident_end_at(s: &Vec<char>, k: usize) -> (r: usize)
    requires
        k <= s@.len(),
    ensures
        r == ident_end(s@, k as int),
{
    let mut j = k;
    while j < s.len()
        invariant
            k <= j <= s@.len(),
            ident_end(s@, j as int) == ident_end(s@, k as int),
        decreases s@.len() - j,
    {
        if is_alnum_char(s[j]) {
            j = j + 1;
        } else if (s[j] == '-' || s[j] == '_') && j + 1 < s.len() && is_alnum_char(s[j + 1]) {
            j = j + 2;
        } else {
            return j;
        }
    }
    j
}

fn digits_end_at(s: &Vec<char>, k: usize) -> (r: usize)
    requires
        k <= s@.len(),
    ensures
        r == digits_end(s@, k as int),
{
    let mut j = k;
    while j < s.len() && is_digit_char(s[j])
        invariant
            k <= j <= s@.len(),
            digits_end(s@, j as int) == digits_end(s@, k as int),
        decreases s@.len() - j,
    {
        j = j + 1;
    }
    j
}

fn string_end_at(s: &Vec<char>, k: usize) -> (r: Option<usize>)
    requires
        k <= s@.len(),
    ensures
        match r {
            Some(e) => string_end(s@, k as int) == Some(e as int),
            None => string_end(s@, k as int) is None,
        },
{
    let mut j = k;
    while j < s.len()
        invariant
            k <= j <= s@.len(),
            string_end(s@, j as int) == string_end(s@, k as int),
        decreases s@.len() - j,
    {
        let c = s[j];
        if c == '"' {
            return Some(j + 1);
        } else if c != '\\' {
            j = j + 1;
        } else if j + 1 < s.len() && (s[j + 1] == 'n' || s[j + 1] == 'r' || s[j + 1] == 't' || s[j
            + 1] == '\\' || s[j + 1] == '"') {
            j = j + 2;
        } else if j + 1 < s.len() && j + 2 < s.len() && is_hex_char(s[j + 1]) && is_hex_char(
            s[j + 2],
        ) {
            j = j + 3;
        } else {
            return None;
        }
    }
    None
}

fn line_end_at(s: &Vec<char>, k: usize) -> (r: usize)
    requires
        k <= s@.len(),
    ensures
        r == line_end(s@, k as int),
{
    let mut j = k;
    while j < s.len() && s[j] != '\n'
        invariant
            k <= j <= s@.len(),
            line_end(s@, j as int) == line_end(s@, k as int),
        decreases s@.len() - j,
    {
        j = j + 1;
    }
    j
}

/// The value of the digits `s[from..to)`, when it fits in a `usize`.
fn parse_usize(s: &Vec<char>, from: usize, to: usize) -> (r: Option<usize>)
    requires
        from <= to <= s@.len(),
        forall|m: int| from <= m < to ==> is_digit(#[trigger] s@[m]),
    ensures
        match r {
            Some(n) => n == digits_value(s@.subrange(from as int, to as int)),
            None => digits_value(s@.subrange(from as int, to as int)) > usize::MAX,
        },
{
    let ghost d = s@.subrange(from as int, to as int);
    let mut acc: usize = 0;
    let mut j = from;
    assert(d.subrange(0, 0) =~= Seq::<char>::empty());
    while j < to
        invariant
            from <= j <= to <= s@.len(),
            d == s@.subrange(from as int, to as int),
            forall|m: int| from <= m < to ==> is_digit(#[trigger] s@[m]),
            acc == digits_value(d.subrange(0, j - from)),
        decreases to - j,
    {
        let digit = (s[j] as u32 - 48) as usize;
        let ghost pre = d.subrange(0, j - from + 1);
        proof {
            assert(pre.drop_last() =~= d.subrange(0, j - from));
            assert(pre.last() == s@[j as int]);
        }
        match acc.checked_mul(10) {
            Some(t) => match t.checked_add(digit) {
                Some(u) => {
                    acc = u;
                },
                None => {
                    proof {
                        assert forall|m: int| 0 <= m < d.len() implies is_digit(#[trigger] d[m]) by {
                            assert(d[m] == s@[from + m]);
                        }
                        lemma_digits_value_grows(d, j - from + 1, d.len() as int);
                        assert(d.subrange(0, d.len() as int) =~= d);
                    }
                    return None;
                },
            },
            None => {
                proof {
                    assert forall|m: int| 0 <= m < d.len() implies is_digit(#[trigger] d[m]) by {
                        assert(d[m] == s@[from + m]);
                    }
                    lemma_digits_value_grows(d, j - from + 1, d.len() as int);
                    assert(d.subrange(0, d.len() as int) =~= d);
                }
                return None;
            },
        }
        j = j + 1;
    }
    assert(d.subrange(0, to - from) =~= d);
    Some(acc)
}

fn is_space_char(c: char) -> (r: bool)
    ensures
        r == is_space(c),
{
    c == ' ' || c == '\t' || c == '\n' || c == '\x0c' || c == '\r'
}

fn is_simple_char(c: char) -> (r: bool)
    ensures
        r == is_simple(c),
{
    c == '-' || c == '+' || c == '*' || c == '/' || c == '~' || c == '\\' || c == '^' || c == '_'
        || c == '?' || c == '=' || c == '#' || c == ':' || c == '>' || c == '<' || c == '!'
        || c == '%' || c == '&'
}

fn simple_of(c: char) -> (r: Token)
    ensures
        r == simple_token(c),
{
    if c == '-' {
        Token::Minus
    } else if c == '+' {
        Token::Plus
    } else if c == '*' {
        Token::Times
    } else if c == '/' {
        Token::Divide
    } else if c == '~' {
        Token::PositiveMinus
    } else if c == '\\' {
        Token::IntegerDiv
    } else if c == '^' {
        Token::Exp
    } else if c == '_' {
        Token::ExpMod
    } else if c == '?' {
        Token::If
    } else if c == '=' {
        Token::Return
    } else if c == '#' {
        Token::Partial
    } else if c == ':' {
        Token::Print
    } else if c == '>' {
        Token::Flush
    } else if c == '<' {
        Token::Duplicate
    } else if c == '!' {
        Token::Drop
    } else if c == '%' {
        Token::Empty
    } else {
        Token::Format
    }
}

/// A number literal: sign and digits over `[i, slash)`, and, when `slash < e`, the
/// denominator's digits over `(slash, e)`.
fn number_token(line: &str, s: &Vec<char>, i: usize, slash: usize, e: usize) -> (r: Token)
    requires
        s@ == line@,
        i < slash <= e <= s@.len(),
        is_signed_decimal(s@.subrange(i as int, slash as int)),
        slash < e ==> slash + 1 < e && s@[slash as int] == '/' && forall|m: int|
            slash < m < e ==> is_digit(#[trigger] s@[m]),
    ensures
        token_is(r, number_lexeme(s@, i as int, e as int, slash as int)),
        token_valid(r),
{
    let num = big_parse_decimal(line.substring_char(i, slash)).unwrap();
    let den = if slash < e {
        let digits = line.substring_char(slash + 1, e);
        proof {
            let d = s@.subrange(slash as int + 1, e as int);
            assert(digits@ == d);
            assert forall|m: int| 0 <= m < d.len() implies is_digit(#[trigger] d[m]) by {
                assert(d[m] == s@[slash + 1 + m]);
            }
            assert(is_signed_decimal(d));
        }
        big_parse_decimal(digits).unwrap()
    } else {
        crate::number::big_from_usize(1)
    };
    if crate::number::big_is_zero(&den) {
        Token::Error
    } else {
        Token::Number(ratio_new(num, den))
    }
}

/// The token that starts at `i` and the index just past it.
fn next_token(line: &str, s: &Vec<char>, i: usize) -> (r: (Token, usize))
    requires
        s@ == line@,
        i < s@.len(),
    ensures
        token_is(r.0, next_lexeme(s@, i as int).0),
        r.1 == next_lexeme(s@, i as int).1,
        token_valid(r.0),
        i < r.1 <= s@.len(),
{
    let n = s.len();
    let c = s[i];
    if is_alpha_char(c) {
        let e = ident_end_at(s, i + 1);
        proof {
            lemma_ident_end(s@, i + 1);
        }
        let name = line.substring_char(i, e).to_owned();
        if e < n && e + 1 < n && (s[e] == '|' || s[e] == '@') && is_digit_char(s[e + 1]) {
            let d = digits_end_at(s, e + 1);
            proof {
                lemma_digits_end(s@, e + 1);
            }
            match parse_usize(s, e + 1, d) {
                None => (Token::Error, d),
                Some(k) => {
                    if s[e] == '|' {
                        (Token::AssignFunction(name, k), d)
                    } else {
                        (Token::AssignIterative(name, k), d)
                    }
                },
            }
        } else {
            (Token::Identifier(name), e)
        }
    } else if c == '=' && i + 1 < n && is_alpha_char(s[i + 1]) {
        let e = ident_end_at(s, i + 2);
        proof {
            lemma_ident_end(s@, i + 2);
        }
        (Token::AssignVariable(line.substring_char(i + 1, e).to_owned()), e)
    } else if c == '$' && i + 1 < n && is_digit_char(s[i + 1]) {
        let d = digits_end_at(s, i + 1);
        proof {
            lemma_digits_end(s@, i + 1);
        }
        match parse_usize(s, i + 1, d) {
            None => (Token::Error, d),
            Some(k) => (Token::Argument(k), d),
        }
    } else if is_digit_char(c) || ((c == '-' || c == '+') && i + 1 < n && is_digit_char(s[i + 1])) {
        let first = if is_digit_char(c) {
            i
        } else {
            i + 1
        };
        let slash = digits_end_at(s, first);
        proof {
            lemma_digits_end(s@, first as int);
            lemma_digits_end(s@, first + 1);
            let sub = s@.subrange(i as int, slash as int);
            assert forall|m: int| first <= m < slash implies is_digit(#[trigger] s@[m]) by {}
            if is_digit(c) {
                assert forall|m: int| 0 <= m < sub.len() implies is_digit(#[trigger] sub[m]) by {
                    assert(sub[m] == s@[i + m]);
                }
            } else {
                assert forall|m: int| 0 <= m < sub.drop_first().len() implies is_digit(
                    #[trigger] sub.drop_first()[m],
                ) by {
                    assert(sub.drop_first()[m] == s@[i + 1 + m]);
                }
            }
            assert(is_signed_decimal(sub));
        }
        if slash < n && slash + 1 < n && s[slash] == '/' && is_digit_char(s[slash + 1]) {
            let e = digits_end_at(s, slash + 1);
            proof {
                lemma_digits_end(s@, slash + 1);
                lemma_digits_end(s@, slash + 2);
            }
            (number_token(line, s, i, slash, e), e)
        } else {
            (number_token(line, s, i, slash, slash), slash)
        }
    } else if c == '"' {
        proof {
            lemma_string_end(s@, i + 1);
        }
        match string_end_at(s, i + 1) {
            Some(e) => {
                let lit = line.substring_char(i, e);
                (Token::Number(from_string(lit)), e)
            },
            None => (Token::Error, i + 1),
        }
    } else if c == '[' && i + 1 < n && s[i + 1] == ']' {
        (Token::Approx, i + 2)
    } else if is_simple_char(c) {
        (simple_of(c), i + 1)
    } else {
        (Token::Error, i + 1)
    }
}

/// The tokens of a line of source text.
pub fn lex(line: &str) -> (r: Vec<Token>)
    ensures
        tokens_match(r@, lexemes(line@, 0)),
        forall|k: int| 0 <= k < r@.len() ==> token_valid(#[trigger] r@[k]),
{
    let s = chars_of(line);
    let mut out: Vec<Token> = Vec::new();
    let mut i: usize = 0;
    let ghost mut done: Seq<Lexeme> = seq![];
    assert(done + lexemes(s@, 0) =~= lexemes(s@, 0));
    while i < s.len()
        invariant
            i <= s@.len(),
            s@ == line@,
            lexemes(s@, 0) == done + lexemes(s@, i as int),
            tokens_match(out@, done),
            forall|k: int| 0 <= k < out@.len() ==> token_valid(#[trigger] out@[k]),
        decreases s@.len() - i,
    {
        let c = s[i];
        if is_space_char(c) {
            i = i + 1;
        } else if c == ';' {
            let e = line_end_at(&s, i);
            proof {
                lemma_line_end(s@, i as int + 1);
            }
            i = e;
        } else {
            let (t, e) = next_token(line, &s, i);
            let ghost l = next_lexeme(s@, i as int).0;
            let ghost before = out@;
            out.push(t);
            proof {
                assert(done + lexemes(s@, i as int) =~= done.push(l) + lexemes(s@, e as int));
                done = done.push(l);
                assert forall|k: int| 0 <= k < out@.len() implies token_is(#[trigger] out@[k], done[k])
                    && token_valid(out@[k]) by {
                    if k < before.len() {
                        assert(out@[k] == before[k]);
                    }
                }
            }
            i = e;
        }
    }
    assert(done + Seq::<Lexeme>::empty() =~= done);
    out
}

} // verus!
