use vstd::prelude::*;

verus! {

/// A value usable as a chain token.
///
/// The two methods tie the executable operations the chain needs — an
/// equality test and a copy — to the token's mathematical value (its deep
/// view), so that interning provably stores each distinct value once.
pub trait Token: DeepView + Sized {
    /// Equality test that agrees with equality of values.
    fn eq_token(&self, other: &Self) -> (r: bool)
        ensures
            r == (self.deep_view() == other.deep_view()),
    ;

    /// A copy carrying the same value.
    fn clone_token(&self) -> (r: Self)
        ensures
            r.deep_view() == self.deep_view(),
    ;
}

impl Token for usize {
    fn eq_token(&self, other: &Self) -> (r: bool)
        ensures
            r == (self.deep_view() == other.deep_view()),
    {
        *self == *other
    }

    fn clone_token(&self) -> (r: Self)
        ensures
            r.deep_view() == self.deep_view(),
    {
        *self
    }
}

impl Token for u64 {
    fn eq_token(&self, other: &Self) -> (r: bool)
        ensures
            r == (self.deep_view() == other.deep_view()),
    {
        *self == *other
    }

    fn clone_token(&self) -> (r: Self)
        ensures
            r.deep_view() == self.deep_view(),
    {
        *self
    }
}

impl Token for String {
    fn eq_token(&self, other: &Self) -> (r: bool)
        ensures
            r == (self.deep_view() == other.deep_view()),
    {
        self.eq(other)
    }

    fn clone_token(&self) -> (r: Self)
        ensures
            r.deep_view() == self.deep_view(),
    {
        self.clone()
    }
}

} // verus!
