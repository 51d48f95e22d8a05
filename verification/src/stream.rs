//! The reader that the lexer takes its characters from.

use vstd::prelude::*;

use crate::text::chars_of;

verus! {

/// A forward-only reader over the characters of a source text, with one
/// character of lookahead.
///
/// Its view is the sequence of characters that have not been read yet.
pub struct CharStream {
    chars: Vec<char>,
    pos: usize,
}

impl View for CharStream {
    type V = Seq<char>;

    closed spec fn view(&self) -> Seq<char> {
        self.chars@.skip(self.pos as int)
    }
}

impl CharStream {
    #[verifier::type_invariant]
    spec fn in_bounds(&self) -> bool {
        self.pos <= self.chars.len()
    }

    /// A reader positioned before the first character of `input`.
    pub fn new(input: &str) -> (stream: CharStream)
        ensures
            stream@ == input@,
    {
        let chars = chars_of(input);
        CharStream { chars, pos: 0 }
    }

    /// The next character, which stays unread; `None` at the end.
    pub fn peek(&self) -> (c: Option<char>)
        ensures
            c == (if self@.len() > 0 { Some(self@[0]) } else { None }),
    {
        proof {
            use_type_invariant(self);
        }
        if self.pos < self.chars.len() {
            Some(self.chars[self.pos])
        } else {
            None
        }
    }

    /// Reads the next character; at the end nothing changes and `None` is
    /// returned.
    pub fn next(&mut self) -> (c: Option<char>)
        ensures
            c == (if old(self)@.len() > 0 { Some(old(self)@[0]) } else { None }),
            final(self)@ == (if old(self)@.len() > 0 { old(self)@.skip(1) } else { old(self)@ }),
    {
        proof {
            use_type_invariant(&*self);
        }
        if self.pos < self.chars.len() {
            let c = self.chars[self.pos];
            self.pos = self.pos + 1;
            Some(c)
        } else {
            None
        }
    }
}

} // verus!
