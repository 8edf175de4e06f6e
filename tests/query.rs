use tagstore::args::Args;
use tagstore::lex::{lex, HexSequenceError, LexError, StringLiteralLexError};
use tagstore::lexeme::{EqualityKind, LexemeKind, LexemeQueue};
use tagstore::parse::{parse, Factor, OrQuery, ParseError};

fn lexemes(args: &[&str]) -> LexemeQueue {
    match lex(&Args::new(args)) {
        Ok(q) => q,
        Err(_) => panic!("lexing failed"),
    }
}

fn kinds(q: &mut LexemeQueue) -> Vec<(LexemeKind, String)> {
    let mut out = Vec::new();
    while let Some(l) = q.pop() {
        out.push((l.kind(), l.content().to_string()));
    }
    out
}

fn key_of(f: &Factor) -> &str {
    match f {
        Factor::Key(k) => k.as_str(),
        _ => panic!("not a key"),
    }
}

#[test]
fn cmdline_quotes_and_escapes() {
    let a = Args::new(&["key", "a \"b\"", "x\ny"]);
    assert_eq!(a.cmdline(), "key \"a \\\"b\\\"\" x\\ny ");
    assert_eq!(a.offset(1), 4);
    assert_eq!(a.position(1, 2), 7);
    assert_eq!(a.offset(2), 14);
}

#[test]
fn string_literal_decodes_escapes() {
    let mut q = lexemes(&["'a\\nb'"]);
    let l = q.pop().unwrap();
    assert_eq!(l.kind(), LexemeKind::Value);
    assert_eq!(l.content(), "a\nb");
    assert_eq!(l.token(), "'a\\nb'");
    assert!(q.pop().is_none());
}

#[test]
fn key_equals_value_lexes_to_three() {
    let mut q = lexemes(&["key=value"]);
    assert_eq!(
        kinds(&mut q),
        vec![
            (LexemeKind::Key, "key".to_string()),
            (LexemeKind::Equals(EqualityKind::Strict), "=".to_string()),
            (LexemeKind::Key, "value".to_string()),
        ]
    );
}

#[test]
fn keywords_need_a_boundary() {
    let mut q = lexemes(&["index", "in", "(a,", "b)", "matches", "is", "==", "or", "and"]);
    let k: Vec<LexemeKind> = kinds(&mut q).into_iter().map(|x| x.0).collect();
    assert_eq!(
        k,
        vec![
            LexemeKind::Key,
            LexemeKind::In,
            LexemeKind::LParen,
            LexemeKind::Key,
            LexemeKind::Comma,
            LexemeKind::Key,
            LexemeKind::RParen,
            LexemeKind::Equals(EqualityKind::Matches),
            LexemeKind::Equals(EqualityKind::Strict),
            LexemeKind::Equals(EqualityKind::Strict),
            LexemeKind::Or,
            LexemeKind::And,
        ]
    );
}

#[test]
fn hex_and_unicode_escapes() {
    let mut q = lexemes(&["\"\\x41\\u00e9\\t\\\"\""]);
    let l = q.pop().unwrap();
    assert_eq!(l.content(), "A\u{e9}\t\"");
}

#[test]
fn token_with_space_is_wrapped_in_parentheses() {
    let mut q = lexemes(&["a and b"]);
    let l = q.pop().unwrap();
    assert_eq!(l.kind(), LexemeKind::LParen);
    assert_eq!(l.cmdline(), (0, 1));
    let rest = kinds(&mut q);
    assert_eq!(rest.last().unwrap().0, LexemeKind::RParen);
    assert_eq!(rest.len(), 4);
}

#[test]
fn positions_of_lexemes() {
    let mut q = lexemes(&["color", "=", "red"]);
    assert_eq!(q.end(), 11);
    let a = q.pop().unwrap();
    let b = q.pop().unwrap();
    let c = q.pop().unwrap();
    assert_eq!(a.cmdline(), (0, 5));
    assert_eq!(b.cmdline(), (6, 7));
    assert_eq!(c.cmdline(), (8, 11));
}

#[test]
fn unterminated_literal_is_an_error() {
    match lex(&Args::new(&["k", "'abc"])) {
        Err(LexError::StringError(StringLiteralLexError::MissingClosingQuote, p)) => assert_eq!(p, 2),
        _ => panic!("expected a missing quote"),
    }
}

#[test]
fn bad_hex_escapes_are_errors() {
    match lex(&Args::new(&["'\\xZZ'"])) {
        Err(LexError::StringError(StringLiteralLexError::HexSequenceError(HexSequenceError::NonHexChar), _)) => {}
        _ => panic!("expected a non-hex error"),
    }
    match lex(&Args::new(&["'\\x4"])) {
        Err(LexError::StringError(StringLiteralLexError::HexSequenceError(HexSequenceError::NotEnoughChars), _)) => {}
        _ => panic!("expected a short sequence"),
    }
    match lex(&Args::new(&["'\\ud800'"])) {
        Err(LexError::StringError(StringLiteralLexError::HexSequenceError(HexSequenceError::NonUtf8Sequence), _)) => {}
        _ => panic!("expected an invalid scalar"),
    }
}

#[test]
fn non_lexable_sequence_reports_the_word() {
    match lex(&Args::new(&["key", "=", "$bad"])) {
        Err(LexError::NonLexableSequence(s, p)) => {
            assert_eq!(s, "$bad");
            assert_eq!(p, 6);
        }
        _ => panic!("expected a non-lexable sequence"),
    }
}

fn parsed(args: &[&str]) -> OrQuery {
    let mut q = lexemes(args);
    match parse(&mut q) {
        Ok(o) => o,
        Err(_) => panic!("parse failed"),
    }
}

#[test]
fn and_binds_tighter_than_or() {
    let o = parsed(&["a", "and", "b", "or", "c"]);
    assert_eq!(key_of(&o.and_query.factor), "a");
    let and_next = o.and_query.next.as_ref().unwrap();
    assert_eq!(key_of(&and_next.factor), "b");
    assert!(and_next.next.is_none());
    let or_next = o.next.as_ref().unwrap();
    assert_eq!(key_of(&or_next.and_query.factor), "c");
    assert!(or_next.and_query.next.is_none());
    assert!(or_next.next.is_none());
}

#[test]
fn quoted_query_is_a_subquery() {
    let o = parsed(&["a and b or c"]);
    assert!(o.next.is_none());
    match &o.and_query.factor {
        Factor::Query(inner) => {
            assert_eq!(key_of(&inner.and_query.factor), "a");
            assert!(inner.next.is_some());
        }
        _ => panic!("expected a sub-query"),
    }
}

#[test]
fn comparisons_and_membership() {
    let o = parsed(&["color", "=", "red", "and", "name", "matches", "'^a.*'", "and", "size", "in", "(big,", "'huge',)"]);
    match &o.and_query.factor {
        Factor::KeyEqualsValue((k, e, v)) => {
            assert_eq!(k, "color");
            assert_eq!(*e, EqualityKind::Strict);
            assert_eq!(v, "red");
        }
        _ => panic!("expected a comparison"),
    }
    let second = o.and_query.next.as_ref().unwrap();
    match &second.factor {
        Factor::KeyEqualsValue((k, e, v)) => {
            assert_eq!(k, "name");
            assert_eq!(*e, EqualityKind::Matches);
            assert_eq!(v, "^a.*");
        }
        _ => panic!("expected a pattern comparison"),
    }
    match &second.next.as_ref().unwrap().factor {
        Factor::KeyIn((k, vs)) => {
            assert_eq!(k, "size");
            assert_eq!(vs, &vec!["big".to_string(), "huge".to_string()]);
        }
        _ => panic!("expected a membership test"),
    }
}

#[test]
fn missing_value_is_an_end_of_input_error() {
    let mut q = lexemes(&["key", "="]);
    match parse(&mut q) {
        Err(ParseError::UnexpectedEOF(_, p, kinds)) => {
            assert_eq!(p, 5);
            assert_eq!(kinds, vec![LexemeKind::Key, LexemeKind::Value]);
        }
        _ => panic!("expected an end-of-input error"),
    }
}

#[test]
fn unexpected_and_trailing_tokens() {
    let mut q = lexemes(&["key", "=", "("]);
    match parse(&mut q) {
        Err(ParseError::UnexpectedToken(l, _)) => assert_eq!(l.kind(), LexemeKind::LParen),
        _ => panic!("expected an unexpected token"),
    }
    let mut q = lexemes(&["a", "b"]);
    match parse(&mut q) {
        Err(ParseError::TrailingToken(l)) => assert_eq!(l.content(), "b"),
        _ => panic!("expected a trailing token"),
    }
    let mut q = lexemes(&["(a"]);
    match parse(&mut q) {
        Err(ParseError::UnexpectedEOF(_, p, _)) => assert_eq!(p, 2),
        _ => panic!("expected an end-of-input error"),
    }
}

#[test]
fn queue_pops_by_kind_predicate_and_count() {
    let mut q = lexemes(&["a", "=", "b", "or", "c"]);
    assert_eq!(q.len(), 5);
    assert!(q.pop_kind(LexemeKind::Or).is_none());
    assert_eq!(q.pop_kind(LexemeKind::Key).unwrap().content(), "a");
    assert!(q.pop_predicate(|l| l.kind() == LexemeKind::Key).is_none());
    assert!(q.pop_predicate(|l| matches!(l.kind(), LexemeKind::Equals(_))).is_some());
    assert!(q.pop_sequence(4).is_none());
    assert!(q.pop_sequence_predicate(2, |s| s[1].kind() == LexemeKind::Key).is_none());
    let two = q.pop_sequence_predicate(2, |s| s[1].kind() == LexemeKind::Or).unwrap();
    assert_eq!(two.len(), 2);
    assert_eq!(two[0].content(), "b");
    let last = q.pop_sequence(1).unwrap();
    assert_eq!(last[0].content(), "c");
    assert_eq!(q.len(), 0);
    assert!(q.peek().is_none());
}
