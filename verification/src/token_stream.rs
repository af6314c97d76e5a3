use vstd::prelude::*;
use vstd::array::array_as_slice;
use vstd::slice::{slice_index_get, slice_subrange};
use crate::token::{token_eq, Token};

verus! {

/// A sliceable, position-addressable view over a finite, already-fully-lexed
/// token sequence: the substrate the grammar parser advances over.  It
/// supports length query, sub-slicing, splitting and token-equality
/// membership tests, performs no allocation, and never fails on its own.
#[derive(Clone, Copy, Debug, PartialEq)]
pub struct TokenStream<'a> {
    stream: &'a [Token],
}

impl<'a> View for TokenStream<'a> {
    type V = Seq<Token>;

    closed spec fn view(&self) -> Seq<Token> {
        self.stream@
    }
}

impl<'a> TokenStream<'a> {
    /// The empty stream.
    pub fn new() -> (r: Self)
        ensures
            r@ == Seq::<Token>::empty(),
    {
        Self { stream: array_as_slice(&[]) }
    }

    /// The number of tokens left in the stream.
    pub fn input_len(&self) -> (n: usize)
        ensures
            n == self@.len(),
    {
        self.stream.len()
    }

    /// The token at position `i`.
    pub fn get(&self, i: usize) -> (r: &Token)
        requires
            i < self@.len(),
        ensures
            *r == self@[i as int],
    {
        slice_index_get(self.stream, i)
    }

    /// The first `count` tokens, as a stream.
    pub fn take(&self, count: usize) -> (r: Self)
        requires
            count <= self@.len(),
        ensures
            r@ == self@.take(count as int),
    {
        let r = Self { stream: slice_subrange(self.stream, 0, count) };
        proof {
            assert(r@ =~= self@.take(count as int));
        }
        r
    }

    /// Splits off the first `count` tokens; the remaining suffix comes
    /// first and the taken prefix second.
    pub fn take_split(&self, count: usize) -> (r: (Self, Self))
        requires
            count <= self@.len(),
        ensures
            r.0@ == self@.skip(count as int),
            r.1@ == self@.take(count as int),
    {
        let taken = Self { stream: slice_subrange(self.stream, 0, count) };
        let rest = Self { stream: slice_subrange(self.stream, count, self.stream.len()) };
        proof {
            assert(rest@ =~= self@.skip(count as int));
            assert(taken@ =~= self@.take(count as int));
        }
        (rest, taken)
    }

    /// Whether some token of the stream equals `token` at the model level.
    pub fn find_token(&self, token: &Token) -> (r: bool)
        ensures
            r == exists|i: int| 0 <= i < self@.len() && self@[i]@ == token@,
    {
        let n = self.stream.len();
        let mut i: usize = 0;
        while i < n
            invariant
                n == self@.len(),
                i <= n,
                forall|j: int| 0 <= j < i ==> self@[j]@ != token@,
            decreases n - i,
        {
            if token_eq(slice_index_get(self.stream, i), token) {
                return true;
            }
            i = i + 1;
        }
        false
    }

    /// The index reached after taking `count` tokens, when the stream holds
    /// that many; `None` when it is too short.
    pub fn slice_index(&self, count: usize) -> (r: Option<usize>)
        ensures
            r == if count <= self@.len() {
                Some(count)
            } else {
                None::<usize>
            },
    {
        if count <= self.stream.len() {
            Some(count)
        } else {
            None
        }
    }
}

impl<'a> From<&'a [Token]> for TokenStream<'a> {
    fn from(stream: &'a [Token]) -> (r: Self) {
        Self { stream }
    }
}

impl<'a> vstd::std_specs::convert::FromSpecImpl<&'a [Token]> for TokenStream<'a> {
    open spec fn obeys_from_spec() -> bool {
        true
    }

    closed spec fn from_spec(stream: &'a [Token]) -> Self {
        TokenStream { stream }
    }
}

} // verus!
