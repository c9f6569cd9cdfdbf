//! A word source that keeps a log of what it handed out.
//!
//! A closure of Verus has no state that changes from one call to the next,
//! so a contract over the closure alone cannot tell the first call from the
//! second. [`Draws`] owns the closure, is the only way to call it, and
//! appends each returned word to a ghost log. A contract over that log says
//! how many words were drawn, and which word came from which call.

use vstd::prelude::*;

verus! {

/// A word source, and the words it has returned so far, oldest first.
pub struct Draws<W, F> {
    next_word: F,
    drawn: Ghost<Seq<W>>,
}

impl<W, F: FnMut() -> W> Draws<W, F> {
    /// The closure that the words are drawn from.
    pub closed spec fn source(&self) -> F {
        self.next_word
    }

    /// The words drawn so far: entry `i` is the value that call `i + 1` of
    /// [`Draws::draw`] returned.
    pub closed spec fn drawn(&self) -> Seq<W> {
        self.drawn@
    }

    /// A source with nothing drawn yet.
    pub fn new(next_word: F) -> (r: Self)
        ensures
            r.source() == next_word,
            r.drawn() == Seq::<W>::empty(),
    {
        Draws { next_word, drawn: Ghost(Seq::empty()) }
    }

    /// Calls the closure once, and logs the word it returned.
    pub fn draw(&mut self) -> (w: W)
        requires
            call_requires(old(self).source(), ()),
        ensures
            call_ensures(old(self).source(), (), w),
            final(self).source() == old(self).source(),
            final(self).drawn() == old(self).drawn().push(w),
    {
        let w = (self.next_word)();
        self.drawn = Ghost(self.drawn@.push(w));
        w
    }
}

} // verus!
