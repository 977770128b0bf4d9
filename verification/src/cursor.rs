//! The input of a parse, read one character at a time.

use vstd::prelude::*;

verus! {

/// A position in the input with one character of lookahead.
pub struct Cursor {
    ch: Option<char>,
    rest_chars: Vec<char>,
    taken: usize,
}

impl Cursor {
    #[verifier::type_invariant]
    spec fn in_step(self) -> bool {
        &&& self.taken <= self.rest_chars@.len()
        &&& self.ch is None ==> self.taken == self.rest_chars@.len()
    }

    /// The input that has not been consumed, the lookahead first.
    pub closed spec fn view(&self) -> Seq<char> {
        match self.ch {
            Some(c) => seq![c] + self.rest_chars@.skip(self.taken as int),
            None => Seq::empty(),
        }
    }

    /// A cursor whose lookahead is the first character of `input`.
    pub fn new(input: Vec<char>) -> (cursor: Cursor)
        ensures
            cursor@ == input@,
    {
        if input.len() == 0 {
            Cursor { ch: None, rest_chars: input, taken: 0 }
        } else {
            let first = input[0];
            let cursor = Cursor { ch: Some(first), rest_chars: input, taken: 1 };
            assert(cursor@ =~= input@);
            cursor
        }
    }

    /// The lookahead: the next character that has not been consumed, or
    /// `None` where the input is exhausted.
    pub fn current(&self) -> (ch: Option<char>)
        ensures
            ch == (if self@.len() > 0 {
                Some(self@[0])
            } else {
                None
            }),
    {
        self.ch
    }

    /// Consumes the lookahead and takes the next one from the remainder.
    /// On exhausted input nothing changes.
    pub fn advance(&mut self)
        ensures
            old(self)@.len() > 0 ==> final(self)@ == old(self)@.drop_first(),
            old(self)@.len() == 0 ==> final(self)@ == old(self)@,
    {
        proof {
            use_type_invariant(&*self);
        }
        if self.taken < self.rest_chars.len() {
            self.ch = Some(self.rest_chars[self.taken]);
            self.taken = self.taken + 1;
            assert(self@ =~= old(self)@.drop_first());
        } else {
            self.ch = None;
            assert(old(self).ch is Some ==> self@ =~= old(self)@.drop_first());
        }
    }
}

} // verus!
