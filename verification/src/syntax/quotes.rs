//! The stack of open quotes of the format strings that the tokeniser is in.
use smallvec::SmallVec;
use vstd::prelude::*;

verus! {

/// A `SmallVec` of quote bytes. Verus cannot read the declaration of
/// `SmallVec` (its parameter is bound by the crate's `Array` trait), so the
/// vector is held here, out of Verus's sight, and only the wrappers below
/// touch it.
#[verifier::external_body]
pub struct QuoteStack {
    stack: SmallVec<[u8; 8]>,
}

/// The quotes on the stack, oldest first.
pub uninterp spec fn quote_items(stack: QuoteStack) -> Seq<u8>;

impl QuoteStack {
    /// `SmallVec::new`: an empty stack.
    #[verifier::external_body]
    pub(crate) fn new() -> (r: QuoteStack)
        ensures
            quote_items(r) == Seq::<u8>::empty(),
    {
        QuoteStack { stack: SmallVec::new() }
    }

    /// `SmallVec::push`: the quote goes on top. The source grows the
    /// allocation when the vector is full and panics only when the new
    /// capacity overflows `usize`, which the bound on the length rules out.
    #[verifier::external_body]
    pub(crate) fn push(&mut self, quote: u8)
        requires
            quote_items(*old(self)).len() < u32::MAX,
        ensures
            quote_items(*final(self)) == quote_items(*old(self)).push(quote),
    {
        self.stack.push(quote)
    }

    /// `SmallVec::pop`: the top quote comes off, or `None` when empty.
    #[verifier::external_body]
    pub(crate) fn pop(&mut self) -> (r: Option<u8>)
        ensures
            quote_items(*old(self)).len() == 0 ==> r is None && quote_items(*final(self))
                == quote_items(*old(self)),
            quote_items(*old(self)).len() > 0 ==> r == Some(quote_items(*old(self)).last())
                && quote_items(*final(self)) == quote_items(*old(self)).drop_last(),
    {
        self.stack.pop()
    }

    /// The top quote (`last` of the slice that `SmallVec` derefs to).
    #[verifier::external_body]
    pub(crate) fn last(&self) -> (r: Option<u8>)
        ensures
            quote_items(*self).len() == 0 ==> r is None,
            quote_items(*self).len() > 0 ==> r == Some(quote_items(*self).last()),
    {
        self.stack.last().copied()
    }

    /// `SmallVec::is_empty`.
    #[verifier::external_body]
    pub(crate) fn is_empty(&self) -> (r: bool)
        ensures
            r == (quote_items(*self).len() == 0),
    {
        self.stack.is_empty()
    }

    /// `SmallVec::clone`: a stack with the same quotes.
    #[verifier::external_body]
    pub(crate) fn duplicate(&self) -> (r: QuoteStack)
        ensures
            quote_items(r) == quote_items(*self),
    {
        QuoteStack { stack: self.stack.clone() }
    }
}

} // verus!
