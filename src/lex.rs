//! The lexer of the query language: command-line tokens to a queue of lexemes.
use vstd::prelude::*;
use crate::args::{char_offset, cmdline_of, has_space, rendered, Args};
use crate::lexeme::{EqualityKind, Lexeme, LexemeKind, LexemeModel, LexemeQueue};
use crate::text::{chars_of, push_char, string_of_range};

verus! {

/// Why a string literal could not be decoded.
#[derive(Debug, Clone, Copy, PartialEq, Eq, Structural)]
pub enum StringLiteralLexError {
    /// The literal has no closing quote.
    MissingClosingQuote,
    /// A `\x` or `\u` escape is malformed.
    HexSequenceError(HexSequenceError),
}

/// Why a `\xHH` or `\uHHHH` escape could not be decoded.
#[derive(Debug, Clone, Copy, PartialEq, Eq, Structural)]
pub enum HexSequenceError {
    /// Fewer characters follow than the escape needs.
    NotEnoughChars,
    /// One of the characters is not a hexadecimal digit.
    NonHexChar,
    /// The digits do not give a Unicode scalar value.
    NonUtf8Sequence,
}

/// Why the token at the start of some text could not be lexed.
#[derive(Debug)]
pub enum TokenLexError {
    StringError(StringLiteralLexError),
    /// The text up to the next blank, which starts no lexeme.
    NonLexableSequence(String),
}

/// Why a command line could not be lexed, with the command-line offset of the token that
/// failed.
#[derive(Debug)]
pub enum LexError {
    StringError(StringLiteralLexError, usize),
    NonLexableSequence(String, usize),
}

/// Why a token could not be lexed, as a value.
pub enum TokenFault {
    Str(StringLiteralLexError),
    NonLexable,
}

pub open spec fn is_ident_char(c: char) -> bool {
    ('a' <= c && c <= 'z') || ('A' <= c && c <= 'Z') || ('0' <= c && c <= '9') || c == '_' || c
        == '-'
}

pub open spec fn is_blank(c: char) -> bool {
    c == ' ' || c == '\t' || c == '\n' || c == '\r' || c == '\x0B' || c == '\x0C'
}

/// `w` stands in `a` at `i`.
pub open spec fn at(a: Seq<char>, i: int, w: Seq<char>) -> bool {
    0 <= i && i + w.len() <= a.len() && a.subrange(i, i + w.len()) == w
}

/// The word `w` stands in `a` at `i`, and no identifier character follows it.
pub open spec fn word_at(a: Seq<char>, i: int, w: Seq<char>) -> bool {
    at(a, i, w) && (i + w.len() == a.len() || !is_ident_char(a[i + w.len()]))
}

/// The fixed lexeme at `i`, tried in priority order, with its end.
pub open spec fn literal_at(a: Seq<char>, i: int) -> Option<(LexemeKind, int)> {
    if !(0 <= i < a.len()) {
        None
    } else if a[i] == ',' {
        Some((LexemeKind::Comma, i + 1))
    } else if a[i] == '(' {
        Some((LexemeKind::LParen, i + 1))
    } else if a[i] == ')' {
        Some((LexemeKind::RParen, i + 1))
    } else if at(a, i, seq!['=', '=']) {
        Some((LexemeKind::Equals(EqualityKind::Strict), i + 2))
    } else if a[i] == '=' {
        Some((LexemeKind::Equals(EqualityKind::Strict), i + 1))
    } else if word_at(a, i, seq!['i', 's']) {
        Some((LexemeKind::Equals(EqualityKind::Strict), i + 2))
    } else if word_at(a, i, seq!['i', 'n']) {
        Some((LexemeKind::In, i + 2))
    } else if word_at(a, i, seq!['a', 'n', 'd']) {
        Some((LexemeKind::And, i + 3))
    } else if word_at(a, i, seq!['o', 'r']) {
        Some((LexemeKind::Or, i + 2))
    } else if word_at(a, i, seq!['m', 'a', 't', 'c', 'h', 'e', 's']) {
        Some((LexemeKind::Equals(EqualityKind::Matches), i + 7))
    } else {
        None
    }
}

pub open spec fn is_hex(c: char) -> bool {
    ('0' <= c && c <= '9') || ('a' <= c && c <= 'f') || ('A' <= c && c <= 'F')
}

pub open spec fn hex_value(c: char) -> int {
    if '0' <= c && c <= '9' {
        c as int - '0' as int
    } else if 'a' <= c && c <= 'f' {
        c as int - 'a' as int + 10
    } else {
        c as int - 'A' as int + 10
    }
}

/// The number that a run of hexadecimal digits writes.
pub open spec fn hex_number(s: Seq<char>) -> int
    decreases s.len(),
{
    if s.len() == 0 {
        0
    } else {
        hex_number(s.drop_last()) * 16 + hex_value(s.last())
    }
}

pub open spec fn is_scalar(v: int) -> bool {
    (0 <= v < 0xD800) || (0xE000 <= v <= 0x10FFFF)
}

/// The code of a character.
pub open spec fn code_of(c: char) -> int {
    c as int
}

/// The character whose code is `v`.
pub open spec fn char_with_code(v: int) -> char {
    choose|c: char| #[trigger] code_of(c) == v
}

/// The character that the `n` hexadecimal digits at `j` write.
pub open spec fn escape_digits(a: Seq<char>, j: int, n: int) -> Result<char, HexSequenceError> {
    if j + n > a.len() {
        Err(HexSequenceError::NotEnoughChars)
    } else if exists|k: int| j <= k < j + n && !is_hex(a[k]) {
        Err(HexSequenceError::NonHexChar)
    } else if !is_scalar(hex_number(a.subrange(j, j + n))) {
        Err(HexSequenceError::NonUtf8Sequence)
    } else {
        Ok(char_with_code(hex_number(a.subrange(j, j + n))))
    }
}

/// What `\e` stands for, for an escape other than `\x` and `\u`.
pub open spec fn simple_escape(e: char) -> char {
    if e == 'n' {
        '\n'
    } else if e == 'r' {
        '\r'
    } else if e == 't' {
        '\t'
    } else {
        e
    }
}

pub open spec fn prepend_ok(c: char, r: Result<(int, Seq<char>), StringLiteralLexError>) -> Result<
    (int, Seq<char>),
    StringLiteralLexError,
> {
    match r {
        Ok((e, s)) => Ok((e, seq![c] + s)),
        Err(x) => Err(x),
    }
}

/// The rest of a string literal opened by `q`, from `j` on: the end after its closing
/// quote and its decoded characters.
pub open spec fn decode(a: Seq<char>, q: char, j: int) -> Result<
    (int, Seq<char>),
    StringLiteralLexError,
>
    decreases a.len() - j,
{
    if j < 0 || j >= a.len() {
        Err(StringLiteralLexError::MissingClosingQuote)
    } else if a[j] == q {
        Ok((j + 1, Seq::empty()))
    } else if a[j] == '\\' {
        if j + 1 >= a.len() {
            Err(StringLiteralLexError::MissingClosingQuote)
        } else if a[j + 1] == 'x' || a[j + 1] == 'u' {
            let n: int = if a[j + 1] == 'x' {
                2
            } else {
                4
            };
            match escape_digits(a, j + 2, n) {
                Ok(c) => prepend_ok(c, decode(a, q, j + 2 + n)),
                Err(h) => Err(StringLiteralLexError::HexSequenceError(h)),
            }
        } else {
            prepend_ok(simple_escape(a[j + 1]), decode(a, q, j + 2))
        }
    } else {
        prepend_ok(a[j], decode(a, q, j + 1))
    }
}

/// The end of the run of identifier characters at `i`.
pub open spec fn ident_end(a: Seq<char>, i: int) -> int
    decreases a.len() - i,
{
    if 0 <= i < a.len() && is_ident_char(a[i]) {
        ident_end(a, i + 1)
    } else {
        i
    }
}

/// The end of the run of blanks at `i`.
pub open spec fn blank_end(a: Seq<char>, i: int) -> int
    decreases a.len() - i,
{
    if 0 <= i < a.len() && is_blank(a[i]) {
        blank_end(a, i + 1)
    } else {
        i
    }
}

/// The end of the run of non-blanks at `i`.
pub open spec fn run_end(a: Seq<char>, i: int) -> int
    decreases a.len() - i,
{
    if 0 <= i < a.len() && !is_blank(a[i]) {
        run_end(a, i + 1)
    } else {
        i
    }
}

/// The lexeme that starts at `i`: its kind, end and contents.
pub open spec fn token_at(a: Seq<char>, i: int) -> Result<(LexemeKind, int, Seq<char>), TokenFault> {
    match literal_at(a, i) {
        Some((k, e)) => Ok((k, e, a.subrange(i, e))),
        None => if 0 <= i < a.len() && (a[i] == '\'' || a[i] == '"') {
            match decode(a, a[i], i + 1) {
                Ok((e, s)) => Ok((LexemeKind::Value, e, s)),
                Err(x) => Err(TokenFault::Str(x)),
            }
        } else if ident_end(a, i) > i {
            Ok((LexemeKind::Key, ident_end(a, i), a.subrange(i, ident_end(a, i))))
        } else {
            Err(TokenFault::NonLexable)
        },
    }
}

/// A lexeme within one token: kind, start, end, contents.
pub type TokenModel = (LexemeKind, int, int, Seq<char>);

/// The lexemes of `a` from `i` on, or where and why lexing fails.
pub open spec fn lex_from(a: Seq<char>, i: int) -> Result<Seq<TokenModel>, (int, TokenFault)>
    decreases a.len() - i,
{
    let j = blank_end(a, i);
    if i < 0 || j < i || j >= a.len() {
        Ok(Seq::empty())
    } else {
        match token_at(a, j) {
            Ok((k, e, c)) => if e <= i || e > a.len() {
                Ok(Seq::empty())
            } else {
                match lex_from(a, e) {
                    Ok(rest) => Ok(seq![(k, j, e, c)] + rest),
                    Err(f) => Err(f),
                }
            },
            Err(f) => Err((j, f)),
        }
    }
}

/// Where and why lexing a command line fails: the command-line offset of the token, the
/// fault, and the text up to the next blank.
pub type LexFault = (int, TokenFault, Seq<char>);

/// The lexeme of token `m` of `args` that `t` describes.
pub open spec fn lexeme_of(args: Seq<Seq<char>>, m: int, t: TokenModel) -> LexemeModel {
    (
        t.0,
        args[m].subrange(t.1, t.2),
        t.3,
        char_offset(args, m, t.1) as nat,
        char_offset(args, m, t.2) as nat,
    )
}

/// The lexemes of token `m` of `args`; one that holds a space is wrapped in parentheses
/// that stand at its quotes.
pub open spec fn lex_token(args: Seq<Seq<char>>, m: int) -> Result<Seq<LexemeModel>, LexFault> {
    let a = args[m];
    match lex_from(a, 0) {
        Ok(toks) => {
            let inner = toks.map_values(|t: TokenModel| lexeme_of(args, m, t));
            let start = cmdline_of(args.take(m)).len();
            if has_space(a) {
                Ok(
                    seq![(LexemeKind::LParen, seq!['('], seq!['('], start as nat, (start + 1) as nat)]
                        + inner + seq![
                        (
                            LexemeKind::RParen,
                            seq![')'],
                            seq![')'],
                            char_offset(args, m, a.len() as int) as nat,
                            (start + rendered(a).len()) as nat,
                        ),
                    ],
                )
            } else {
                Ok(inner)
            }
        },
        Err((j, f)) => Err((char_offset(args, m, j), f, a.subrange(j, run_end(a, j)))),
    }
}

/// The lexemes of the first `n` tokens of `args`.
pub open spec fn lex_tokens(args: Seq<Seq<char>>, n: int) -> Result<Seq<LexemeModel>, LexFault>
    decreases n,
{
    if n <= 0 {
        Ok(Seq::empty())
    } else {
        match lex_tokens(args, n - 1) {
            Ok(front) => match lex_token(args, n - 1) {
                Ok(more) => Ok(front + more),
                Err(f) => Err(f),
            },
            Err(f) => Err(f),
        }
    }
}

/// Whether `e` reports `f`.
pub open spec fn reports(e: LexError, f: LexFault) -> bool {
    match e {
        LexError::StringError(x, p) => f.1 == TokenFault::Str(x) && p == f.0,
        LexError::NonLexableSequence(s, p) => f.1 is NonLexable && p == f.0 && s@ == f.2,
    }
}

/// Relies on `char::from_u32`: a character exactly for the Unicode scalar values, with
/// that code.
#[verifier::external_body]
fn char_from_code(v: u32) -> (r: Option<char>)
    ensures
        r is Some <==> is_scalar(v as int),
        r is Some ==> r->0 as int == v as int,
{
    char::from_u32(v)
}

fn hex_digit(c: char) -> (r: Option<u32>)
    ensures
        r is Some <==> is_hex(c),
        r is Some ==> r->0 as int == hex_value(c) && r->0 < 16,
{
    if '0' <= c && c <= '9' {
        Some((c as u32) - ('0' as u32))
    } else if 'a' <= c && c <= 'f' {
        Some((c as u32) - ('a' as u32) + 10)
    } else if 'A' <= c && c <= 'F' {
        Some((c as u32) - ('A' as u32) + 10)
    } else {
        None
    }
}

/// Decodes the `n` hexadecimal digits at `j` of an escape.
fn escape_char_at(a: &Vec<char>, j: usize, n: usize) -> (r: Result<char, HexSequenceError>)
    requires
        n == 2 || n == 4,
    ensures
        r == escape_digits(a@, j as int, n as int),
{
    if j > a.len() || a.len() - j < n {
        return Err(HexSequenceError::NotEnoughChars);
    }
    let mut v: u32 = 0;
    let mut k: usize = 0;
    while k < n
        invariant
            n == 2 || n == 4,
            j + n <= a@.len(),
            j + n <= usize::MAX,
            k <= n,
            v as int == hex_number(a@.subrange(j as int, j + k)),
            forall|x: int| j <= x < j + k ==> is_hex(a@[x]),
            k == 0 ==> v < 1,
            k == 1 ==> v < 16,
            k == 2 ==> v < 256,
            k == 3 ==> v < 4096,
            k == 4 ==> v < 65536,
        decreases n - k,
    {
        let d = match hex_digit(a[j + k]) {
            Some(d) => d,
            None => {
                assert(!is_hex(a@[j + k]));
                return Err(HexSequenceError::NonHexChar);
            },
        };
        assert(v * 16 + d < 65536) by (nonlinear_arith)
            requires
                v < 4096,
                d < 16,
        ;
        let ghost prev = v;
        v = v * 16 + d;
        proof {
            let s = a@.subrange(j as int, j + k + 1);
            assert(s.drop_last() =~= a@.subrange(j as int, j + k));
            assert(s.last() == a@[j + k]);
            if k == 0 {
                assert(v < 16);
            }
            if k == 1 {
                assert(prev * 16 + d < 256) by (nonlinear_arith)
                    requires
                        prev < 16,
                        d < 16,
                ;
            }
            if k == 2 {
                assert(prev * 16 + d < 4096) by (nonlinear_arith)
                    requires
                        prev < 256,
                        d < 16,
                ;
            }
        }
        k = k + 1;
    }
    proof {
        assert(a@.subrange(j as int, j + k) == a@.subrange(j as int, j + n));
        assert(!(exists|x: int| j <= x < j + n && !is_hex(a@[x])));
    }
    match char_from_code(v) {
        Some(c) => {
            proof {
                assert(c as int == v as int);
                assert(code_of(c) == v as int);
                assert(exists|w: char| #[trigger] code_of(w) == v as int);
                let w = char_with_code(v as int);
                assert(w as int == v as int);
                assert(w == c);
            }
            Ok(c)
        },
        None => Err(HexSequenceError::NonUtf8Sequence),
    }
}

fn simple_escape_of(e: char) -> (r: char)
    ensures
        r == simple_escape(e),
{
    if e == 'n' {
        '\n'
    } else if e == 'r' {
        '\r'
    } else if e == 't' {
        '\t'
    } else {
        e
    }
}

pub open spec fn prepend_all(p: Seq<char>, r: Result<(int, Seq<char>), StringLiteralLexError>) -> Result<
    (int, Seq<char>),
    StringLiteralLexError,
> {
    match r {
        Ok((e, s)) => Ok((e, p + s)),
        Err(x) => Err(x),
    }
}

proof fn lemma_prepend(p: Seq<char>, c: char, r: Result<(int, Seq<char>), StringLiteralLexError>)
    ensures
        prepend_all(p, prepend_ok(c, r)) == prepend_all(p.push(c), r),
{
    match r {
        Ok((e, s)) => {
            assert(p + (seq![c] + s) =~= p.push(c) + s);
        },
        Err(x) => {},
    }
}

/// Decodes the string literal whose opening quote stands at `i`: the end after its closing
/// quote, and its characters.
fn decode_literal(a: &Vec<char>, i: usize) -> (r: Result<(usize, String), StringLiteralLexError>)
    requires
        i < a@.len(),
    ensures
        match decode(a@, a@[i as int], i + 1) {
            Ok((e, s)) => match r {
                Ok((e2, s2)) => e2 == e && s2@ == s,
                Err(_) => false,
            },
            Err(x) => r == Err::<(usize, String), StringLiteralLexError>(x),
        },
        match r {
            Ok((e2, _)) => i < e2 <= a@.len(),
            Err(_) => true,
        },
{
    let q = a[i];
    let len = a.len();
    let mut acc = String::new();
    let mut j: usize = i + 1;
    assert(prepend_all(Seq::<char>::empty(), decode(a@, q, j as int)) == decode(a@, q, j as int))
        by {
        match decode(a@, q, j as int) {
            Ok((e, s)) => {
                assert(Seq::<char>::empty() + s =~= s);
            },
            Err(x) => {},
        }
    }
    while j < a.len()
        invariant
            i < j <= a@.len(),
            q == a@[i as int],
            decode(a@, q, i + 1) == prepend_all(acc@, decode(a@, q, j as int)),
        decreases a@.len() - j,
    {
        let c = a[j];
        if c == q {
            assert(acc@ + Seq::<char>::empty() =~= acc@);
            return Ok((j + 1, acc));
        } else if c == '\\' {
            if j + 1 >= a.len() {
                return Err(StringLiteralLexError::MissingClosingQuote);
            }
            let e = a[j + 1];
            if e == 'x' || e == 'u' {
                let n: usize = if e == 'x' {
                    2
                } else {
                    4
                };
                match escape_char_at(a, j + 2, n) {
                    Ok(x) => {
                        proof {
                            lemma_prepend(acc@, x, decode(a@, q, j + 2 + n));
                        }
                        push_char(&mut acc, x);
                        j = j + 2 + n;
                    },
                    Err(h) => {
                        return Err(StringLiteralLexError::HexSequenceError(h));
                    },
                }
            } else {
                let x = simple_escape_of(e);
                proof {
                    lemma_prepend(acc@, x, decode(a@, q, j + 2));
                }
                push_char(&mut acc, x);
                j = j + 2;
            }
        } else {
            proof {
                lemma_prepend(acc@, c, decode(a@, q, j + 1));
            }
            push_char(&mut acc, c);
            j = j + 1;
        }
    }
    Err(StringLiteralLexError::MissingClosingQuote)
}

fn ident_end_at(a: &Vec<char>, i: usize) -> (r: usize)
    requires
        i <= a@.len(),
    ensures
        r as int == ident_end(a@, i as int),
        i <= r <= a@.len(),
{
    let mut k = i;
    while k < a.len() && (('a' <= a[k] && a[k] <= 'z') || ('A' <= a[k] && a[k] <= 'Z') || ('0'
        <= a[k] && a[k] <= '9') || a[k] == '_' || a[k] == '-')
        invariant
            i <= k <= a@.len(),
            ident_end(a@, k as int) == ident_end(a@, i as int),
        decreases a@.len() - k,
    {
        k = k + 1;
    }
    k
}

fn blank_end_at(a: &Vec<char>, i: usize) -> (r: usize)
    requires
        i <= a@.len(),
    ensures
        r as int == blank_end(a@, i as int),
        i <= r <= a@.len(),
{
    let mut k = i;
    while k < a.len() && (a[k] == ' ' || a[k] == '\t' || a[k] == '\n' || a[k] == '\r' || a[k]
        == '\x0B' || a[k] == '\x0C')
        invariant
            i <= k <= a@.len(),
            blank_end(a@, k as int) == blank_end(a@, i as int),
        decreases a@.len() - k,
    {
        k = k + 1;
    }
    k
}

fn run_end_at(a: &Vec<char>, i: usize) -> (r: usize)
    requires
        i <= a@.len(),
    ensures
        r as int == run_end(a@, i as int),
        i <= r <= a@.len(),
{
    let mut k = i;
    while k < a.len() && !(a[k] == ' ' || a[k] == '\t' || a[k] == '\n' || a[k] == '\r' || a[k]
        == '\x0B' || a[k] == '\x0C')
        invariant
            i <= k <= a@.len(),
            run_end(a@, k as int) == run_end(a@, i as int),
        decreases a@.len() - k,
    {
        k = k + 1;
    }
    k
}

/// Whether `w` stands in `a` at `i`.
fn at_exec(a: &Vec<char>, i: usize, w: &Vec<char>) -> (r: bool)
    ensures
        r == at(a@, i as int, w@),
{
    if i > a.len() || a.len() - i < w.len() {
        return false;
    }
    let n = a.len();
    let mut k: usize = 0;
    while k < w.len()
        invariant
            n == a@.len(),
            i + w@.len() <= a@.len(),
            k <= w@.len(),
            forall|x: int| 0 <= x < k ==> a@[i + x] == w@[x],
        decreases w@.len() - k,
    {
        if a[i + k] != w[k] {
            assert(a@.subrange(i as int, i + w@.len())[k as int] != w@[k as int]);
            return false;
        }
        k = k + 1;
    }
    assert(a@.subrange(i as int, i + w@.len()) =~= w@);
    true
}

/// Whether the word `w` stands in `a` at `i`, with no identifier character after it.
fn word_at_exec(a: &Vec<char>, i: usize, w: &Vec<char>) -> (r: bool)
    ensures
        r == word_at(a@, i as int, w@),
{
    let n = a.len();
    if !at_exec(a, i, w) {
        return false;
    }
    let e = i + w.len();
    if e == a.len() {
        return true;
    }
    let c = a[e];
    !(('a' <= c && c <= 'z') || ('A' <= c && c <= 'Z') || ('0' <= c && c <= '9') || c == '_' || c
        == '-')
}

fn literal_at_exec(a: &Vec<char>, i: usize) -> (r: Option<(LexemeKind, usize)>)
    requires
        i < a@.len(),
    ensures
        match literal_at(a@, i as int) {
            Some((k, e)) => match r {
                Some((k2, e2)) => k2 == k && e2 as int == e && i < e <= a@.len(),
                None => false,
            },
            None => r is None,
        },
{
    let n = a.len();
    let c = a[i];
    if c == ',' {
        return Some((LexemeKind::Comma, i + 1));
    }
    if c == '(' {
        return Some((LexemeKind::LParen, i + 1));
    }
    if c == ')' {
        return Some((LexemeKind::RParen, i + 1));
    }
    let eq2 = vec!['=', '='];
    assert(eq2@ == seq!['=', '=']);
    if at_exec(a, i, &eq2) {
        return Some((LexemeKind::Equals(EqualityKind::Strict), i + 2));
    }
    if c == '=' {
        return Some((LexemeKind::Equals(EqualityKind::Strict), i + 1));
    }
    let w_is = vec!['i', 's'];
    assert(w_is@ == seq!['i', 's']);
    if word_at_exec(a, i, &w_is) {
        return Some((LexemeKind::Equals(EqualityKind::Strict), i + 2));
    }
    let w_in = vec!['i', 'n'];
    assert(w_in@ == seq!['i', 'n']);
    if word_at_exec(a, i, &w_in) {
        return Some((LexemeKind::In, i + 2));
    }
    let w_and = vec!['a', 'n', 'd'];
    assert(w_and@ == seq!['a', 'n', 'd']);
    if word_at_exec(a, i, &w_and) {
        return Some((LexemeKind::And, i + 3));
    }
    let w_or = vec!['o', 'r'];
    assert(w_or@ == seq!['o', 'r']);
    if word_at_exec(a, i, &w_or) {
        return Some((LexemeKind::Or, i + 2));
    }
    let w_matches = vec!['m', 'a', 't', 'c', 'h', 'e', 's'];
    assert(w_matches@ == seq!['m', 'a', 't', 'c', 'h', 'e', 's']);
    if word_at_exec(a, i, &w_matches) {
        return Some((LexemeKind::Equals(EqualityKind::Matches), i + 7));
    }
    None
}

/// Lexes the token that starts at `i` of `a`: its kind, end and contents.
pub fn get_token(a: &Vec<char>, i: usize) -> (r: Result<(LexemeKind, usize, String), TokenLexError>)
    requires
        i < a@.len(),
    ensures
        match token_at(a@, i as int) {
            Ok((k, e, c)) => match r {
                Ok((k2, e2, c2)) => k2 == k && e2 == e && c2@ == c,
                Err(_) => false,
            },
            Err(TokenFault::Str(x)) => match r {
                Err(TokenLexError::StringError(y)) => x == y,
                _ => false,
            },
            Err(TokenFault::NonLexable) => match r {
                Err(TokenLexError::NonLexableSequence(s)) => s@ == a@.subrange(
                    i as int,
                    run_end(a@, i as int),
                ),
                _ => false,
            },
        },
        match r {
            Ok((_, e2, _)) => i < e2 <= a@.len(),
            Err(_) => true,
        },
{
    match literal_at_exec(a, i) {
        Some((k, e)) => {
            return Ok((k, e, string_of_range(a, i, e)));
        },
        None => {},
    }
    let c = a[i];
    if c == '\'' || c == '"' {
        return match decode_literal(a, i) {
            Ok((e, s)) => Ok((LexemeKind::Value, e, s)),
            Err(x) => Err(TokenLexError::StringError(x)),
        };
    }
    let e = ident_end_at(a, i);
    if e > i {
        return Ok((LexemeKind::Key, e, string_of_range(a, i, e)));
    }
    let e = run_end_at(a, i);
    Err(TokenLexError::NonLexableSequence(string_of_range(a, i, e)))
}

/// Prefixes a list of lexemes to the result of lexing what follows them.
pub open spec fn prepend_toks(p: Seq<TokenModel>, r: Result<Seq<TokenModel>, (int, TokenFault)>) -> Result<
    Seq<TokenModel>,
    (int, TokenFault),
> {
    match r {
        Ok(s) => Ok(p + s),
        Err(f) => Err(f),
    }
}

fn text_of(c: char) -> (r: String)
    ensures
        r@ == seq![c],
{
    let mut s = String::new();
    push_char(&mut s, c);
    s
}

/// Lexes token `m` of `args` onto the back of `queue`.
fn lex_token_into(args: &Args, m: usize, queue: &mut LexemeQueue) -> (r: Result<(), LexError>)
    requires
        m < args.texts().len(),
    ensures
        match lex_token(args.texts(), m as int) {
            Ok(ls) => r is Ok && final(queue)@ == old(queue)@ + ls,
            Err(f) => r is Err && reports(r->Err_0, f),
        },
        r is Ok && final(queue)@.len() > old(queue)@.len() ==> final(queue).end_offset()
            == final(queue)@.last().4,
        r is Ok && final(queue)@.len() == old(queue)@.len() ==> final(queue).end_offset() == old(
            queue,
        ).end_offset(),
        r is Ok ==> final(queue)@.len() >= old(queue)@.len(),
{
    let ghost t = args.texts();
    let a = chars_of(args.arg(m));
    let ghost aa = t[m as int];
    assert(a@ == aa);
    let q = crate::args::holds_space(&a);
    let ghost base = old(queue)@;
    let ghost start = cmdline_of(t.take(m as int)).len();
    let ghost lead: Seq<LexemeModel> = seq![(LexemeKind::LParen, seq!['('], seq!['('], start as nat, (start + 1) as nat)];
    if q {
        let open_at = args.offset(m);
        let after = args.position(m, 0);
        assert(aa.take(0) =~= Seq::<char>::empty());
        assert(after == start + 1);
        queue.push(Lexeme::new(text_of('('), LexemeKind::LParen, text_of('('), open_at, after));
    }
    let ghost pre: Seq<LexemeModel> = if q { lead } else { Seq::empty() };
    assert(queue@ == base + pre);
    let ghost mut done: Seq<TokenModel> = Seq::empty();
    let mut i: usize = 0;
    assert(prepend_toks(done, lex_from(aa, 0)) == lex_from(aa, 0)) by {
        match lex_from(aa, 0) {
            Ok(s) => { assert(done + s =~= s); },
            Err(_) => {},
        }
    }
    loop
        invariant
            a@ == aa,
            t == args.texts(),
            aa == t[m as int],
            m < t.len(),
            q == has_space(aa),
            i <= a@.len(),
            lex_from(aa, 0) == prepend_toks(done, lex_from(aa, i as int)),
            queue@ == base + pre + done.map_values(|x: TokenModel| lexeme_of(t, m as int, x)),
            queue@.len() > base.len() ==> queue.end_offset() == queue@.last().4,
            queue@.len() == base.len() ==> queue.end_offset() == old(queue).end_offset(),
        ensures
            lex_from(aa, 0) == Ok::<Seq<TokenModel>, (int, TokenFault)>(done),
            queue@ == base + pre + done.map_values(|x: TokenModel| lexeme_of(t, m as int, x)),
            queue@.len() > base.len() ==> queue.end_offset() == queue@.last().4,
            queue@.len() == base.len() ==> queue.end_offset() == old(queue).end_offset(),
        decreases a@.len() - i,
    {
        let j = blank_end_at(&a, i);
        if j >= a.len() {
            proof {
                assert(lex_from(aa, i as int) == Ok::<Seq<TokenModel>, (int, TokenFault)>(Seq::empty()));
                assert(done + Seq::<TokenModel>::empty() =~= done);
            }
            break;
        }
        match get_token(&a, j) {
            Ok((k, e, c)) => {
                let ghost tok: TokenModel = (k, j as int, e as int, c@);
                proof {
                    match lex_from(aa, e as int) {
                        Ok(rest) => { assert(done + (seq![tok] + rest) =~= done.push(tok) + rest); },
                        Err(_) => {},
                    }
                }
                let from = args.position(m, j);
                let to = args.position(m, e);
                let lx = Lexeme::new(string_of_range(&a, j, e), k, c, from, to);
                assert(lx@ == lexeme_of(t, m as int, tok));
                let ghost before = queue@;
                queue.push(lx);
                proof {
                    let f = |x: TokenModel| lexeme_of(t, m as int, x);
                    assert(done.push(tok).map_values(f) =~= done.map_values(f).push(f(tok)));
                    assert(queue@ =~= base + pre + done.push(tok).map_values(f));
                    done = done.push(tok);
                }
                i = e;
            },
            Err(TokenLexError::StringError(x)) => {
                let p = args.position(m, j);
                return Err(LexError::StringError(x, p));
            },
            Err(TokenLexError::NonLexableSequence(s)) => {
                let p = args.position(m, j);
                return Err(LexError::NonLexableSequence(s, p));
            },
        }
    }
    if q {
        let from = args.position(m, a.len());
        let to = args.end(m);
        assert(aa.take(aa.len() as int) =~= aa);
        let ghost before = queue@;
        queue.push(Lexeme::new(text_of(')'), LexemeKind::RParen, text_of(')'), from, to));
    }
    proof {
        let f = |x: TokenModel| lexeme_of(t, m as int, x);
        let inner = done.map_values(f);
        if q {
            assert(queue@ =~= base + (lead + inner + seq![(LexemeKind::RParen, seq![')'], seq![')'], char_offset(t, m as int, aa.len() as int) as nat, (start + rendered(aa).len()) as nat)]));
        } else {
            assert(queue@ =~= base + inner);
        }
    }
    Ok(())
}

proof fn lemma_lex_tokens_stay_failed(t: Seq<Seq<char>>, k: int, n: int)
    requires
        0 <= k <= n,
        lex_tokens(t, k) is Err,
    ensures
        lex_tokens(t, n) == lex_tokens(t, k),
    decreases n - k,
{
    if k < n {
        lemma_lex_tokens_stay_failed(t, k, n - 1);
    }
}

/// Lexes the tokens of a query into a queue of lexemes, in order. A token that holds a
/// space is a parenthesised sub-query: it is wrapped in `(` and `)` lexemes placed at its
/// quotes in the command line. The queue's end offset is where its last lexeme ends.
pub fn lex(args: &Args) -> (r: Result<LexemeQueue, LexError>)
    ensures
        match lex_tokens(args.texts(), args.texts().len() as int) {
            Ok(ls) => r is Ok && r->Ok_0@ == ls,
            Err(f) => r is Err && reports(r->Err_0, f),
        },
        r is Ok ==> (r->Ok_0@.len() > 0 ==> r->Ok_0.end_offset() == r->Ok_0@.last().4),
        r is Ok ==> (r->Ok_0@.len() == 0 ==> r->Ok_0.end_offset() == 0),
{
    let ghost t = args.texts();
    let mut queue = LexemeQueue::new();
    let mut m: usize = 0;
    while m < args.len()
        invariant
            t == args.texts(),
            m <= t.len(),
            lex_tokens(t, m as int) == Ok::<Seq<LexemeModel>, LexFault>(queue@),
            queue@.len() > 0 ==> queue.end_offset() == queue@.last().4,
            queue@.len() == 0 ==> queue.end_offset() == 0,
        decreases t.len() - m,
    {
        match lex_token_into(args, m, &mut queue) {
            Ok(()) => {},
            Err(e) => {
                proof {
                    lemma_lex_tokens_stay_failed(t, m as int + 1, t.len() as int);
                }
                return Err(e);
            },
        }
        m = m + 1;
    }
    Ok(queue)
}

} // verus!
