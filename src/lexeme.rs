//! Lexemes of the query language and the queue that the parser consumes.
use vstd::prelude::*;
use std::collections::VecDeque;

verus! {

/// How a `key <eq> value` comparison compares.
#[derive(Debug, Clone, Copy, PartialEq, Eq, Structural)]
pub enum EqualityKind {
    /// Exact string equality (`=`, `==`, `is`).
    Strict,
    /// A pattern tested against the stored value (`matches`).
    Matches,
}

/// The class of a lexeme.
#[derive(Debug, Clone, Copy, PartialEq, Eq, Structural)]
pub enum LexemeKind {
    LParen,
    RParen,
    Equals(EqualityKind),
    Or,
    And,
    Key,
    Value,
    In,
    Comma,
}

/// What a lexeme is, as a value: its kind, its text as written, its contents (the decoded
/// characters of a string literal, else the text), and where it stands in the command
/// line (start and end offsets, in characters).
pub type LexemeModel = (LexemeKind, Seq<char>, Seq<char>, nat, nat);

/// A classified token with its position in the reconstructed command line.
#[derive(Debug)]
pub struct Lexeme {
    token: String,
    kind: LexemeKind,
    content: String,
    start: usize,
    end: usize,
}

impl View for Lexeme {
    type V = LexemeModel;

    closed spec fn view(&self) -> LexemeModel {
        (self.kind, self.token@, self.content@, self.start as nat, self.end as nat)
    }
}

impl Clone for Lexeme {
    fn clone(&self) -> (r: Lexeme)
        ensures
            r@ == self@,
    {
        Lexeme {
            token: self.token.clone(),
            kind: self.kind,
            content: self.content.clone(),
            start: self.start,
            end: self.end,
        }
    }
}

impl Lexeme {
    /// A lexeme of `kind` written `token`, with contents `content`, that covers
    /// `start..end` of the command line.
    pub fn new(token: String, kind: LexemeKind, content: String, start: usize, end: usize) -> (r:
        Lexeme)
        ensures
            r@ == (kind, token@, content@, start as nat, end as nat),
    {
        Lexeme { token, kind, content, start, end }
    }

    /// The lexeme's text as written.
    pub fn token(&self) -> (r: &str)
        ensures
            r@ == self@.1,
    {
        self.token.as_str()
    }

    pub fn kind(&self) -> (r: LexemeKind)
        ensures
            r == self@.0,
    {
        self.kind
    }

    /// The lexeme's contents: a string literal decoded, any other lexeme's text.
    pub fn content(&self) -> (r: &str)
        ensures
            r@ == self@.2,
    {
        self.content.as_str()
    }

    /// Where the lexeme stands in the command line: its start and end offsets.
    pub fn cmdline(&self) -> (r: (usize, usize))
        ensures
            r.0 as nat == self@.3,
            r.1 as nat == self@.4,
    {
        (self.start, self.end)
    }
}

/// A queue of lexemes, consumed from the front.
pub struct LexemeQueue {
    lexemes: VecDeque<Lexeme>,
    end: usize,
}

impl View for LexemeQueue {
    type V = Seq<LexemeModel>;

    closed spec fn view(&self) -> Seq<LexemeModel> {
        models(self.lexemes@)
    }
}

/// The models of a sequence of lexemes.
pub open spec fn models(s: Seq<Lexeme>) -> Seq<LexemeModel> {
    s.map_values(|l: Lexeme| l@)
}

impl LexemeQueue {
    /// Where the input ends in the command line: the end offset of the last lexeme pushed.
    pub closed spec fn end_offset(&self) -> nat {
        self.end as nat
    }

    pub fn new() -> (r: LexemeQueue)
        ensures
            r@ == Seq::<LexemeModel>::empty(),
            r.end_offset() == 0,
    {
        let r = LexemeQueue { lexemes: VecDeque::new(), end: 0 };
        assert(r@ =~= Seq::<LexemeModel>::empty());
        r
    }

    pub fn len(&self) -> (r: usize)
        ensures
            r == self@.len(),
    {
        self.lexemes.len()
    }

    /// The end offset of the last lexeme pushed.
    pub fn end(&self) -> (r: usize)
        ensures
            r == self.end_offset(),
    {
        self.end
    }

    /// The front lexeme, if any.
    pub fn peek(&self) -> (r: Option<&Lexeme>)
        ensures
            self@.len() == 0 ==> r is None,
            self@.len() > 0 ==> r is Some && r->0@ == self@[0],
    {
        if self.lexemes.len() == 0 {
            None
        } else {
            Some(&self.lexemes[0])
        }
    }

    /// Takes the front lexeme, if any.
    pub fn pop(&mut self) -> (r: Option<Lexeme>)
        ensures
            final(self).end_offset() == old(self).end_offset(),
            old(self)@.len() == 0 ==> r is None && final(self)@ == old(self)@,
            old(self)@.len() > 0 ==> r is Some && r->0@ == old(self)@[0] && final(self)@ == old(
                self,
            )@.drop_first(),
    {
        let r = self.lexemes.pop_front();
        assert(self@ =~= old(self)@.subrange(1, old(self)@.len() as int) || old(self)@.len() == 0);
        r
    }

    /// Takes the front lexeme when it is of `kind`.
    pub fn pop_kind(&mut self, kind: LexemeKind) -> (r: Option<Lexeme>)
        ensures
            final(self).end_offset() == old(self).end_offset(),
            (old(self)@.len() > 0 && old(self)@[0].0 == kind) ==> r is Some && r->0@ == old(
                self,
            )@[0] && final(self)@ == old(self)@.drop_first(),
            !(old(self)@.len() > 0 && old(self)@[0].0 == kind) ==> r is None && final(self)@
                == old(self)@,
    {
        let hit = match self.peek() {
            Some(l) => l.kind() == kind,
            None => false,
        };
        if hit {
            self.pop()
        } else {
            None
        }
    }

    /// Takes the front lexeme when `predicate` holds of it.
    pub fn pop_predicate<F: Fn(&Lexeme) -> bool>(&mut self, predicate: F) -> (r: Option<Lexeme>)
        requires
            forall|l: &Lexeme| predicate.requires((l,)),
        ensures
            final(self).end_offset() == old(self).end_offset(),
            r is Some ==> old(self)@.len() > 0 && r->0@ == old(self)@[0] && final(self)@ == old(
                self,
            )@.drop_first() && predicate.ensures((&r->0,), true),
            r is None ==> final(self)@ == old(self)@,
            r is None && old(self)@.len() > 0 ==> exists|l: &Lexeme|
                l@ == old(self)@[0] && predicate.ensures((l,), false),
    {
        if self.lexemes.len() == 0 {
            return None;
        }
        let hit = predicate(&self.lexemes[0]);
        if hit {
            let r = self.lexemes.pop_front();
            assert(self@ =~= old(self)@.drop_first());
            r
        } else {
            None
        }
    }

    /// Takes the first `n` lexemes when there are at least `n`.
    pub fn pop_sequence(&mut self, n: usize) -> (r: Option<Vec<Lexeme>>)
        ensures
            final(self).end_offset() == old(self).end_offset(),
            old(self)@.len() < n ==> r is None && final(self)@ == old(self)@,
            old(self)@.len() >= n ==> r is Some && models(r->0@) == old(
                self,
            )@.take(n as int) && final(self)@ == old(self)@.skip(n as int),
    {
        if self.lexemes.len() < n {
            return None;
        }
        let mut out: Vec<Lexeme> = Vec::new();
        let mut i: usize = 0;
        while i < n
            invariant
                i <= n <= old(self)@.len(),
                self.end_offset() == old(self).end_offset(),
                self@ == old(self)@.skip(i as int),
                models(out@) == old(self)@.take(i as int),
                out@.len() == i,
            decreases n - i,
        {
            let l = self.pop();
            let l = match l {
                Some(l) => l,
                None => {
                    assert(false);
                    return None;
                },
            };
            let ghost before = out@;
            assert(l@ == old(self)@[i as int]) by {
                assert(old(self)@.skip(i as int)[0] == old(self)@[i as int]);
            }
            out.push(l);
            assert(out@[i as int] == l);
            assert(models(out@) =~= old(self)@.take(i + 1)) by {
                assert forall|j: int| 0 <= j < i + 1 implies models(out@)[j] == old(self)@.take(
                    i + 1,
                )[j] by {
                    if j < i {
                        assert(models(before)[j] == old(self)@.take(i as int)[j]);
                    }
                }
            }
            assert(self@ =~= old(self)@.skip(i + 1));
            i = i + 1;
        }
        Some(out)
    }

    /// Takes the first `n` lexemes when there are at least `n` and `predicate` holds of them.
    pub fn pop_sequence_predicate<F: Fn(&[Lexeme]) -> bool>(&mut self, n: usize, predicate: F) -> (r:
        Option<Vec<Lexeme>>)
        requires
            forall|s: &[Lexeme]| predicate.requires((s,)),
        ensures
            final(self).end_offset() == old(self).end_offset(),
            r is None ==> final(self)@ == old(self)@,
            old(self)@.len() < n ==> r is None,
            r is Some ==> old(self)@.len() >= n && models(r->0@) == old(
                self,
            )@.take(n as int) && final(self)@ == old(self)@.skip(n as int),
            r is Some ==> exists|s: &[Lexeme]|
                models(s@) == old(self)@.take(n as int) && predicate.ensures(
                    (s,),
                    true,
                ),
    {
        if self.lexemes.len() < n {
            return None;
        }
        let mut front: Vec<Lexeme> = Vec::new();
        let mut i: usize = 0;
        while i < n
            invariant
                i <= n <= self@.len(),
                self@ == old(self)@,
                self.end_offset() == old(self).end_offset(),
                models(front@) == self@.take(i as int),
                front@.len() == i,
            decreases n - i,
        {
            let l = self.lexemes[i].clone();
            assert(l@ == self@[i as int]);
            let ghost before = front@;
            front.push(l);
            assert(front@[i as int] == l);
            assert(models(front@) =~= self@.take(i + 1)) by {
                assert forall|j: int| 0 <= j < i + 1 implies models(front@)[j] == self@.take(
                    i + 1,
                )[j] by {
                    if j < i {
                        assert(models(before)[j] == self@.take(i as int)[j]);
                    }
                }
            }
            i = i + 1;
        }
        let hit = predicate(front.as_slice());
        if hit {
            self.pop_sequence(n)
        } else {
            None
        }
    }

    /// Appends a lexeme at the back.
    pub fn push(&mut self, lexeme: Lexeme)
        ensures
            final(self)@ == old(self)@.push(lexeme@),
            final(self).end_offset() == lexeme@.4,
    {
        self.end = lexeme.end;
        self.lexemes.push_back(lexeme);
        assert(self@ =~= old(self)@.push(lexeme@));
    }
}

} // verus!
