//! A single-token lookahead over the scanner.
//!
//! The parser needs to see the next item without consuming it at every
//! decision point, while the scanner is strictly sequential. The adapter
//! holds one peeked item: construction primes it, [`Lookahead::peek`] shows
//! it, and [`Lookahead::next`] consumes it and refills the slot from the
//! scanner.

use vstd::prelude::*;

use crate::lexer::{item_view, ErrorView, Error, Lexer, Token};

verus! {

/// A lookahead over the scanner that allows peeking at the next item
/// without consuming it.
pub struct Lookahead {
    lexer: Lexer,
    slot: Option<Result<Token, Error>>,
}

impl Lookahead {
    /// The items not yet consumed, the peeked one first.
    pub closed spec fn items(&self) -> Seq<Result<Token, ErrorView>> {
        match self.slot {
            Some(item) => seq![item_view(item)] + self.lexer.remaining(),
            None => Seq::empty(),
        }
    }

    /// An empty peek slot means the scanner is exhausted.
    pub closed spec fn wf(&self) -> bool {
        self.lexer.wf() && (self.slot is None ==> self.lexer.remaining().len() == 0)
    }

    /// Wrap a scanner, immediately priming the first peek value.
    pub fn new(lexer: Lexer) -> (r: Lookahead)
        requires
            lexer.wf(),
        ensures
            r.wf(),
            r.items() == lexer.remaining(),
    {
        let ghost all = lexer.remaining();
        let mut lexer = lexer;
        let slot = lexer.next();
        let r = Lookahead { lexer, slot };
        proof {
            assert(r.items() =~= all);
        }
        r
    }

    /// The next item, not consumed.
    pub fn peek(&self) -> (r: Option<&Result<Token, Error>>)
        ensures
            match r {
                Some(item) => self.items().len() > 0 && item_view(*item) == self.items()[0],
                None => self.items().len() == 0,
            },
    {
        self.slot.as_ref()
    }

    /// Consume and return the next item, refilling the peek slot from the
    /// scanner.
    pub fn next(&mut self) -> (r: Option<Result<Token, Error>>)
        requires
            old(self).wf(),
        ensures
            final(self).wf(),
            match r {
                Some(item) => old(self).items().len() > 0 && item_view(item) == old(
                    self,
                ).items()[0] && final(self).items() == old(self).items().skip(1),
                None => old(self).items().len() == 0 && final(self).items() == old(self).items(),
            },
    {
        let ghost before = self.items();
        let mut refill = self.lexer.next();
        core::mem::swap(&mut self.slot, &mut refill);
        proof {
            match &refill {
                Some(item) => {
                    assert(self.items() =~= before.skip(1));
                },
                None => {
                    assert(self.items() =~= before);
                },
            }
        }
        refill
    }
}

} // verus!
