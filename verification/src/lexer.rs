use vstd::prelude::*;
use vstd::string::StrSliceExecFns;

use crate::token::{significant_tokens, token_of, Token};

verus! {

/// The lexer: walks a source text from front to back and hands out
/// the token of each significant character, skipping every other
/// character.
pub struct Lexer<'a> {
    src: &'a str,
    len: usize,
    pos: usize,
}

impl<'a> Lexer<'a> {
    pub closed spec fn wf(self) -> bool {
        &&& self.len == self.src@.len()
        &&& self.pos <= self.len
    }

    /// The characters not yet consumed.
    pub closed spec fn remaining(self) -> Seq<char> {
        self.src@.skip(self.pos as int)
    }

    /// The whole source text the lexer was made over.
    pub closed spec fn source(self) -> Seq<char> {
        self.src@
    }

    /// The tokens of the significant characters not yet consumed.
    pub open spec fn tokens(self) -> Seq<Token> {
        significant_tokens(self.remaining())
    }

    pub fn new(src: &'a str) -> (r: Lexer<'a>)
        ensures
            r.wf(),
            r.remaining() == src@,
    {
        let len = src.unicode_len();
        let r = Lexer { src, len, pos: 0 };
        proof {
            assert(r.remaining() =~= src@);
        }
        r
    }

    /// The next unconsumed character, if any, without consuming it.
    fn peek(&self) -> (r: Option<char>)
        requires
            self.wf(),
        ensures
            match r {
                Some(c) => self.remaining().len() > 0 && c == self.remaining()[0],
                None => self.remaining().len() == 0,
            },
    {
        if self.pos < self.len {
            Some(self.src.get_char(self.pos))
        } else {
            None
        }
    }

    /// Consumes one character; at the end of the text, does nothing.
    fn cont(&mut self)
        requires
            old(self).wf(),
        ensures
            final(self).wf(),
            final(self).src == old(self).src,
            old(self).remaining().len() > 0 ==> final(self).remaining() == old(
                self,
            ).remaining().drop_first(),
            old(self).remaining().len() == 0 ==> *final(self) == *old(self),
    {
        if self.pos < self.len {
            self.pos = self.pos + 1;
            proof {
                assert(self.remaining() =~= old(self).remaining().drop_first());
            }
        }
    }

    /// Advances past insignificant characters, to the next significant
    /// one or the end of the text. The token stream is untouched.
    fn skip_whitespace(&mut self)
        requires
            old(self).wf(),
        ensures
            final(self).wf(),
            final(self).src == old(self).src,
            final(self).tokens() == old(self).tokens(),
            final(self).remaining().len() <= old(self).remaining().len(),
            final(self).remaining().len() > 0 ==> token_of(final(self).remaining()[0]) is Some,
    {
        loop
            invariant
                self.wf(),
                self.src == old(self).src,
                self.tokens() == old(self).tokens(),
                self.remaining().len() <= old(self).remaining().len(),
            decreases self.remaining().len(),
        {
            match self.peek() {
                None => {
                    return;
                },
                Some(c) => {
                    match c {
                        '>' | '<' | '+' | '-' | '.' | ',' | '[' | ']' => {
                            return;
                        },
                        _ => {
                            proof {
                                assert(token_of(self.remaining()[0]) is None);
                            }
                            self.cont();
                        },
                    }
                },
            }
        }
    }

    /// Consumes up to and including the next significant character and
    /// returns its token, or `Eof` when none is left: the head of the
    /// token stream, which the call removes.
    pub fn next_token(&mut self) -> (r: Token)
        requires
            old(self).wf(),
        ensures
            final(self).wf(),
            final(self).source() == old(self).source(),
            old(self).tokens() == (if r == Token::Eof {
                Seq::<Token>::empty()
            } else {
                seq![r] + final(self).tokens()
            }),
            r == Token::Eof ==> final(self).remaining().len() == 0,
            final(self).remaining().len() <= old(self).remaining().len(),
            r != Token::Eof ==> final(self).remaining().len() < old(self).remaining().len(),
    {
        self.skip_whitespace();

        let c = self.peek();
        self.cont();

        if let Some(c) = c {
            match c {
                '>' => Token::IncDp,
                '<' => Token::DecDp,
                '+' => Token::Inc,
                '-' => Token::Dec,
                '.' => Token::Output,
                ',' => Token::Input,
                '[' => Token::Branch,
                ']' => Token::Jump,
                _ => unreached(),
            }
        } else {
            Token::Eof
        }
    }
}

} // verus!
