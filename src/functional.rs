//! Small sum types: a value of one of two types, and a value computed on first use.
use vstd::prelude::*;

verus! {

/// A value of one of two types.
pub enum Either<L, R> {
    Left(L),
    Right(R),
}

impl<L, R> Either<L, R> {
    pub fn unwrap_left(self) -> (r: L)
        requires
            self is Left,
        ensures
            r == self->Left_0,
    {
        self.left_option().unwrap()
    }

    pub fn unwrap_right(self) -> (r: R)
        requires
            self is Right,
        ensures
            r == self->Right_0,
    {
        self.right_option().unwrap()
    }

    pub fn map_left<N, F: FnOnce(L) -> N>(self, f: F) -> (r: Either<N, R>)
        requires
            self is Left ==> f.requires((self->Left_0,)),
        ensures
            self is Left ==> r is Left && f.ensures((self->Left_0,), r->Left_0),
            self is Right ==> r == Either::<N, R>::Right(self->Right_0),
    {
        match self {
            Either::Left(l) => Either::Left(f(l)),
            Either::Right(r) => Either::Right(r),
        }
    }

    pub fn map_right<N, F: FnOnce(R) -> N>(self, f: F) -> (r: Either<L, N>)
        requires
            self is Right ==> f.requires((self->Right_0,)),
        ensures
            self is Right ==> r is Right && f.ensures((self->Right_0,), r->Right_0),
            self is Left ==> r == Either::<L, N>::Left(self->Left_0),
    {
        match self {
            Either::Left(l) => Either::Left(l),
            Either::Right(r) => Either::Right(f(r)),
        }
    }

    pub fn left_option(self) -> (r: Option<L>)
        ensures
            self is Left ==> r == Some(self->Left_0),
            self is Right ==> r is None,
    {
        match self {
            Either::Left(l) => Some(l),
            Either::Right(_) => None,
        }
    }

    pub fn right_option(self) -> (r: Option<R>)
        ensures
            self is Right ==> r == Some(self->Right_0),
            self is Left ==> r is None,
    {
        match self {
            Either::Left(_) => None,
            Either::Right(r) => Some(r),
        }
    }
}

/// A value that is computed on first use and kept.
pub enum Lazy<T> {
    NotLoaded,
    Loaded(T),
}

impl<T> Lazy<T> {
    /// A value not computed yet.
    pub fn new() -> (r: Lazy<T>)
        ensures
            r is NotLoaded,
    {
        Lazy::NotLoaded
    }

    /// A value computed already.
    pub fn new_loaded(v: T) -> (r: Lazy<T>)
        ensures
            r == Lazy::Loaded(v),
    {
        Lazy::Loaded(v)
    }

    /// The value, computed by `load` if it was not computed yet.
    pub fn get<F: FnOnce() -> T>(&mut self, load: F) -> (r: &T)
        requires
            *old(self) is NotLoaded ==> load.requires(()),
        ensures
            *final(self) is Loaded,
            *r == final(self)->Loaded_0,
            *old(self) is Loaded ==> *final(self) == *old(self),
            *old(self) is NotLoaded ==> load.ensures((), *r),
    {
        if let Lazy::NotLoaded = self {
            let v = load();
            *self = Lazy::Loaded(v);
        }
        self.get_if_loaded().unwrap()
    }

    /// The value, if it was computed.
    pub fn get_if_loaded(&self) -> (r: Option<&T>)
        ensures
            self is Loaded ==> r == Some(&self->Loaded_0),
            self is NotLoaded ==> r is None,
    {
        match self {
            Lazy::NotLoaded => None,
            Lazy::Loaded(v) => Some(v),
        }
    }

    pub fn loaded(&self) -> (r: bool)
        ensures
            r == self is Loaded,
    {
        match self {
            Lazy::NotLoaded => false,
            Lazy::Loaded(_) => true,
        }
    }
}

} // verus!
