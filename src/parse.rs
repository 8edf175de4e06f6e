//! The recursive-descent parser of the query language.
//!
//! ```text
//! or-query   := and-query ( "or"  or-query )?
//! and-query  := factor    ( "and" and-query )?
//! factor     := "(" or-query ")" | key | key "in" "(" values ")" | key eq value
//! values     := value ( ","? value )* ","?
//! eq         := "=" | "==" | "is" | "matches"
//! ```
use vstd::prelude::*;
use crate::lexeme::{EqualityKind, Lexeme, LexemeKind, LexemeModel, LexemeQueue};

verus! {

/// A disjunction: `and_query`, or else `next`.
pub struct OrQuery {
    pub and_query: AndQuery,
    pub next: Option<Box<OrQuery>>,
}

/// A conjunction: `factor`, and `next`.
pub struct AndQuery {
    pub factor: Factor,
    pub next: Option<Box<AndQuery>>,
}

/// The smallest unit of a query.
pub enum Factor {
    /// A parenthesised sub-query.
    Query(Box<OrQuery>),
    /// The key is present.
    Key(String),
    /// The key's value equals (or matches) the given value.
    KeyEqualsValue((String, EqualityKind, String)),
    /// The key's value equals one of the given values.
    KeyIn((String, Vec<String>)),
}

/// Why a queue of lexemes is not a query.
pub enum ParseError {
    /// The lexemes ran out: a message, the offset where the input ends in the command
    /// line, and the kinds of lexeme that could have come next.
    UnexpectedEOF(String, usize, Vec<LexemeKind>),
    /// A lexeme of the wrong kind, with what was expected.
    UnexpectedToken(Lexeme, String),
    /// Lexemes are left after a complete query; the first of them.
    TrailingToken(Lexeme),
}

/// A factor, as a value.
pub enum FactorModel {
    Query(Box<OrModel>),
    Key(Seq<char>),
    KeyEqualsValue(Seq<char>, EqualityKind, Seq<char>),
    KeyIn(Seq<char>, Seq<Seq<char>>),
}

/// A conjunction, as a value.
pub struct AndModel {
    pub factor: FactorModel,
    pub next: Option<Box<AndModel>>,
}

/// A disjunction, as a value.
pub struct OrModel {
    pub and_query: AndModel,
    pub next: Option<Box<OrModel>>,
}

/// A parse failure, as a value.
pub enum ParseFault {
    Eof,
    Unexpected(LexemeModel),
    Trailing(LexemeModel),
}

pub open spec fn factor_model(f: Factor) -> FactorModel
    decreases f,
{
    match f {
        Factor::Query(b) => FactorModel::Query(Box::new(or_model(*b))),
        Factor::Key(k) => FactorModel::Key(k@),
        Factor::KeyEqualsValue((k, e, v)) => FactorModel::KeyEqualsValue(k@, e, v@),
        Factor::KeyIn((k, vs)) => FactorModel::KeyIn(k@, texts_of(vs@)),
    }
}

pub open spec fn and_model(a: AndQuery) -> AndModel
    decreases a,
{
    AndModel {
        factor: factor_model(a.factor),
        next: match a.next {
            Some(b) => Some(Box::new(and_model(*b))),
            None => None,
        },
    }
}

pub open spec fn or_model(o: OrQuery) -> OrModel
    decreases o,
{
    OrModel {
        and_query: and_model(o.and_query),
        next: match o.next {
            Some(b) => Some(Box::new(or_model(*b))),
            None => None,
        },
    }
}

/// The characters of each string.
pub open spec fn texts_of(v: Seq<String>) -> Seq<Seq<char>> {
    v.map_values(|s: String| s@)
}

/// Whether a lexeme can stand as a value.
pub open spec fn is_value(l: LexemeModel) -> bool {
    l.0 == LexemeKind::Key || l.0 == LexemeKind::Value
}

/// The values at the front of `ls`, each followed by an optional comma, and what is left.
pub open spec fn values_tail(ls: Seq<LexemeModel>) -> (Seq<Seq<char>>, Seq<LexemeModel>)
    decreases ls.len(),
{
    if ls.len() > 0 && is_value(ls[0]) {
        let r = ls.drop_first();
        let r2 = if r.len() > 0 && r[0].0 == LexemeKind::Comma {
            r.drop_first()
        } else {
            r
        };
        let (vs, rest) = values_tail(r2);
        (seq![ls[0].2] + vs, rest)
    } else {
        (Seq::empty(), ls)
    }
}

/// `values`: at least one value.
pub open spec fn spec_values(ls: Seq<LexemeModel>) -> Result<
    (Seq<Seq<char>>, Seq<LexemeModel>),
    ParseFault,
> {
    if ls.len() == 0 {
        Err(ParseFault::Eof)
    } else if !is_value(ls[0]) {
        Err(ParseFault::Unexpected(ls[0]))
    } else {
        Ok(values_tail(ls))
    }
}

/// The `or-query` at the front of `ls`, and what is left.
pub open spec fn spec_or(ls: Seq<LexemeModel>) -> Result<(OrModel, Seq<LexemeModel>), ParseFault>
    decreases ls.len(), 2nat,
{
    match spec_and(ls) {
        Ok((a, r)) => if r.len() <= ls.len() && r.len() > 0 && r[0].0 == LexemeKind::Or {
            match spec_or(r.drop_first()) {
                Ok((o, r2)) => Ok((OrModel { and_query: a, next: Some(Box::new(o)) }, r2)),
                Err(e) => Err(e),
            }
        } else {
            Ok((OrModel { and_query: a, next: None }, r))
        },
        Err(e) => Err(e),
    }
}

/// The `and-query` at the front of `ls`, and what is left.
pub open spec fn spec_and(ls: Seq<LexemeModel>) -> Result<(AndModel, Seq<LexemeModel>), ParseFault>
    decreases ls.len(), 1nat,
{
    match spec_factor(ls) {
        Ok((f, r)) => if r.len() <= ls.len() && r.len() > 0 && r[0].0 == LexemeKind::And {
            match spec_and(r.drop_first()) {
                Ok((a, r2)) => Ok((AndModel { factor: f, next: Some(Box::new(a)) }, r2)),
                Err(e) => Err(e),
            }
        } else {
            Ok((AndModel { factor: f, next: None }, r))
        },
        Err(e) => Err(e),
    }
}

/// The `factor` at the front of `ls`, and what is left.
pub open spec fn spec_factor(ls: Seq<LexemeModel>) -> Result<(FactorModel, Seq<LexemeModel>), ParseFault>
    decreases ls.len(), 0nat,
{
    if ls.len() == 0 {
        Err(ParseFault::Eof)
    } else {
        let t = ls[0];
        let r1 = ls.drop_first();
        if t.0 == LexemeKind::LParen {
            match spec_or(r1) {
                Ok((o, r2)) => if r2.len() == 0 {
                    Err(ParseFault::Eof)
                } else if r2[0].0 != LexemeKind::RParen {
                    Err(ParseFault::Unexpected(r2[0]))
                } else {
                    Ok((FactorModel::Query(Box::new(o)), r2.drop_first()))
                },
                Err(e) => Err(e),
            }
        } else if t.0 == LexemeKind::Key {
            if r1.len() > 0 && r1[0].0 == LexemeKind::In {
                let r2 = r1.drop_first();
                if r2.len() == 0 {
                    Err(ParseFault::Eof)
                } else if r2[0].0 != LexemeKind::LParen {
                    Err(ParseFault::Unexpected(r2[0]))
                } else {
                    match spec_values(r2.drop_first()) {
                        Ok((vs, r3)) => if r3.len() == 0 {
                            Err(ParseFault::Eof)
                        } else if r3[0].0 != LexemeKind::RParen {
                            Err(ParseFault::Unexpected(r3[0]))
                        } else {
                            Ok((FactorModel::KeyIn(t.2, vs), r3.drop_first()))
                        },
                        Err(e) => Err(e),
                    }
                }
            } else if r1.len() > 0 && r1[0].0 is Equals {
                let r2 = r1.drop_first();
                if r2.len() == 0 {
                    Err(ParseFault::Eof)
                } else if !is_value(r2[0]) {
                    Err(ParseFault::Unexpected(r2[0]))
                } else {
                    Ok((FactorModel::KeyEqualsValue(t.2, r1[0].0->Equals_0, r2[0].2), r2.drop_first()))
                }
            } else {
                Ok((FactorModel::Key(t.2), r1))
            }
        } else {
            Err(ParseFault::Unexpected(t))
        }
    }
}

/// A whole query: an `or-query` with nothing after it.
pub open spec fn spec_parse(ls: Seq<LexemeModel>) -> Result<OrModel, ParseFault> {
    match spec_or(ls) {
        Ok((o, r)) => if r.len() > 0 {
            Err(ParseFault::Trailing(r[0]))
        } else {
            Ok(o)
        },
        Err(e) => Err(e),
    }
}

/// Whether `e` reports `f`, for input that ends at `end` in the command line.
pub open spec fn reports(e: ParseError, f: ParseFault, end: nat) -> bool {
    match e {
        ParseError::UnexpectedEOF(_, p, _) => f is Eof && p == end,
        ParseError::UnexpectedToken(l, _) => f == ParseFault::Unexpected(l@),
        ParseError::TrailingToken(l) => f == ParseFault::Trailing(l@),
    }
}

fn is_value_kind(k: LexemeKind) -> (r: bool)
    ensures
        r == (k == LexemeKind::Key || k == LexemeKind::Value),
{
    match k {
        LexemeKind::Key => true,
        LexemeKind::Value => true,
        _ => false,
    }
}

/// Parses a whole query; lexemes left after it are an error.
pub fn parse(lexemes: &mut LexemeQueue) -> (r: Result<OrQuery, ParseError>)
    ensures
        match spec_parse(old(lexemes)@) {
            Ok(o) => r is Ok && or_model(r->Ok_0) == o,
            Err(f) => r is Err && reports(r->Err_0, f, old(lexemes).end_offset()),
        },
{
    let q = match parse_or_query(lexemes) {
        Ok(q) => q,
        Err(e) => {
            return Err(e);
        },
    };
    match lexemes.peek() {
        Some(s) => Err(ParseError::TrailingToken(s.clone())),
        None => Ok(q),
    }
}

/// Parses an `or-query` from the front of the queue.
pub fn parse_or_query(lexemes: &mut LexemeQueue) -> (r: Result<OrQuery, ParseError>)
    ensures
        final(lexemes).end_offset() == old(lexemes).end_offset(),
        final(lexemes)@.len() <= old(lexemes)@.len(),
        match spec_or(old(lexemes)@) {
            Ok((o, rest)) => r is Ok && or_model(r->Ok_0) == o && final(lexemes)@ == rest,
            Err(f) => r is Err && reports(r->Err_0, f, old(lexemes).end_offset()),
        },
    decreases old(lexemes)@.len(), 2nat,
{
    let and_query = match parse_and_query(lexemes) {
        Ok(a) => a,
        Err(e) => {
            return Err(e);
        },
    };
    match lexemes.pop_kind(LexemeKind::Or) {
        Some(_) => {
            let o = match parse_or_query(lexemes) {
                Ok(o) => o,
                Err(e) => {
                    return Err(e);
                },
            };
            Ok(OrQuery { and_query, next: Some(Box::new(o)) })
        },
        None => Ok(OrQuery { and_query, next: None }),
    }
}

/// Parses an `and-query` from the front of the queue.
pub fn parse_and_query(lexemes: &mut LexemeQueue) -> (r: Result<AndQuery, ParseError>)
    ensures
        final(lexemes).end_offset() == old(lexemes).end_offset(),
        final(lexemes)@.len() <= old(lexemes)@.len(),
        match spec_and(old(lexemes)@) {
            Ok((a, rest)) => r is Ok && and_model(r->Ok_0) == a && final(lexemes)@ == rest,
            Err(f) => r is Err && reports(r->Err_0, f, old(lexemes).end_offset()),
        },
    decreases old(lexemes)@.len(), 1nat,
{
    let factor = match parse_factor(lexemes) {
        Ok(f) => f,
        Err(e) => {
            return Err(e);
        },
    };
    match lexemes.pop_kind(LexemeKind::And) {
        Some(_) => {
            let a = match parse_and_query(lexemes) {
                Ok(a) => a,
                Err(e) => {
                    return Err(e);
                },
            };
            Ok(AndQuery { factor, next: Some(Box::new(a)) })
        },
        None => Ok(AndQuery { factor, next: None }),
    }
}

/// Parses a `factor` from the front of the queue.
pub fn parse_factor(lexemes: &mut LexemeQueue) -> (r: Result<Factor, ParseError>)
    ensures
        final(lexemes).end_offset() == old(lexemes).end_offset(),
        final(lexemes)@.len() <= old(lexemes)@.len(),
        match spec_factor(old(lexemes)@) {
            Ok((f, rest)) => r is Ok && factor_model(r->Ok_0) == f && final(lexemes)@ == rest,
            Err(f) => r is Err && reports(r->Err_0, f, old(lexemes).end_offset()),
        },
    decreases old(lexemes)@.len(), 0nat,
{
    let tok = match lexemes.pop() {
        Some(t) => t,
        None => {
            return Err(
                ParseError::UnexpectedEOF(
                    "Expected a key or a sub-query, but the query ended.".to_owned(),
                    lexemes.end(),
                    vec![LexemeKind::LParen, LexemeKind::Key],
                ),
            );
        },
    };
    match tok.kind() {
        LexemeKind::LParen => {
            let expr = match parse_or_query(lexemes) {
                Ok(e) => e,
                Err(e) => {
                    return Err(e);
                },
            };
            match lexemes.pop() {
                Some(s) => {
                    if s.kind() != LexemeKind::RParen {
                        return Err(ParseError::UnexpectedToken(s, "Expected a ')'.".to_owned()));
                    }
                    Ok(Factor::Query(Box::new(expr)))
                },
                None => Err(
                    ParseError::UnexpectedEOF(
                        "Expected a ')', but the query ended.".to_owned(),
                        lexemes.end(),
                        vec![LexemeKind::RParen],
                    ),
                ),
            }
        },
        LexemeKind::Key => {
            let next_kind = match lexemes.peek() {
                Some(l) => Some(l.kind()),
                None => None,
            };
            match next_kind {
                Some(LexemeKind::In) => {
                    let _ = lexemes.pop();
                    match lexemes.pop() {
                        Some(s) => {
                            if s.kind() != LexemeKind::LParen {
                                return Err(
                                    ParseError::UnexpectedToken(
                                        s,
                                        "Expected '(' after 'in'.".to_owned(),
                                    ),
                                );
                            }
                        },
                        None => {
                            return Err(
                                ParseError::UnexpectedEOF(
                                    "Expected '(' after 'in', but the query ended.".to_owned(),
                                    lexemes.end(),
                                    vec![LexemeKind::LParen],
                                ),
                            );
                        },
                    }
                    let values = match parse_values(lexemes) {
                        Ok(v) => v,
                        Err(e) => {
                            return Err(e);
                        },
                    };
                    match lexemes.pop() {
                        Some(s) => {
                            if s.kind() != LexemeKind::RParen {
                                return Err(
                                    ParseError::UnexpectedToken(
                                        s,
                                        "Expected ')' to close the 'in' values.".to_owned(),
                                    ),
                                );
                            }
                        },
                        None => {
                            return Err(
                                ParseError::UnexpectedEOF(
                                    "Expected ')' to close the 'in' values, but the query ended.".to_owned(),
                                    lexemes.end(),
                                    vec![LexemeKind::RParen],
                                ),
                            );
                        },
                    }
                    Ok(Factor::KeyIn((tok.content().to_owned(), values)))
                },
                Some(LexemeKind::Equals(e)) => {
                    let _ = lexemes.pop();
                    match lexemes.pop() {
                        Some(s) => {
                            if !is_value_kind(s.kind()) {
                                return Err(
                                    ParseError::UnexpectedToken(
                                        s,
                                        "Expected a key or a value.".to_owned(),
                                    ),
                                );
                            }
                            Ok(
                                Factor::KeyEqualsValue(
                                    (tok.content().to_owned(), e, s.content().to_owned()),
                                ),
                            )
                        },
                        None => Err(
                            ParseError::UnexpectedEOF(
                                "Expected a value after the comparison, but the query ended.".to_owned(),
                                lexemes.end(),
                                vec![LexemeKind::Key, LexemeKind::Value],
                            ),
                        ),
                    }
                },
                _ => Ok(Factor::Key(tok.content().to_owned())),
            }
        },
        _ => Err(ParseError::UnexpectedToken(tok, "Expected '(' or a key.".to_owned())),
    }
}

/// Parses `values`: one value or more, each followed by an optional comma.
pub fn parse_values(lexemes: &mut LexemeQueue) -> (r: Result<Vec<String>, ParseError>)
    ensures
        final(lexemes).end_offset() == old(lexemes).end_offset(),
        final(lexemes)@.len() <= old(lexemes)@.len(),
        match spec_values(old(lexemes)@) {
            Ok((vs, rest)) => r is Ok && texts_of(r->Ok_0@) == vs && final(lexemes)@ == rest,
            Err(f) => r is Err && reports(r->Err_0, f, old(lexemes).end_offset()),
        },
{
    match lexemes.peek() {
        Some(l) => {
            if !is_value_kind(l.kind()) {
                return Err(ParseError::UnexpectedToken(l.clone(), "Expected a value.".to_owned()));
            }
        },
        None => {
            return Err(
                ParseError::UnexpectedEOF(
                    "Expected a value, but the query ended.".to_owned(),
                    lexemes.end(),
                    vec![LexemeKind::Key, LexemeKind::Value],
                ),
            );
        },
    }
    let ghost start = lexemes@;
    let mut out: Vec<String> = Vec::new();
    assert(texts_of(out@) + values_tail(lexemes@).0 =~= values_tail(lexemes@).0);
    loop
        invariant
            lexemes.end_offset() == old(lexemes).end_offset(),
            lexemes@.len() <= old(lexemes)@.len(),
            start == old(lexemes)@,
            values_tail(start).0 == texts_of(out@) + values_tail(lexemes@).0,
            values_tail(start).1 == values_tail(lexemes@).1,
        ensures
            lexemes.end_offset() == old(lexemes).end_offset(),
            lexemes@.len() <= old(lexemes)@.len(),
            values_tail(start).0 == texts_of(out@),
            values_tail(start).1 == lexemes@,
        decreases lexemes@.len(),
    {
        let hit = match lexemes.peek() {
            Some(l) => is_value_kind(l.kind()),
            None => false,
        };
        if !hit {
            assert(texts_of(out@) + Seq::<Seq<char>>::empty() =~= texts_of(out@));
            break;
        }
        let ghost ls = lexemes@;
        let v = match lexemes.pop() {
            Some(v) => v,
            None => {
                assert(false);
                break;
            },
        };
        let _ = lexemes.pop_kind(LexemeKind::Comma);
        proof {
            let r = ls.drop_first();
            let r2 = if r.len() > 0 && r[0].0 == LexemeKind::Comma {
                r.drop_first()
            } else {
                r
            };
            assert(r2 == lexemes@);
        }
        let ghost before = out@;
        out.push(v.content().to_owned());
        proof {
            assert(texts_of(out@) =~= texts_of(before).push(ls[0].2));
            assert(texts_of(before) + (seq![ls[0].2] + values_tail(lexemes@).0) =~= texts_of(
                out@,
            ) + values_tail(lexemes@).0);
        }
    }
    Ok(out)
}

} // verus!
