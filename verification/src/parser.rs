use vstd::prelude::*;

use crate::compile::{canonical_item, canonical_program, canonical_seq, Ast, CompileError};
use crate::lexer::Lexer;
use crate::token::{
    balance, balanced, lemma_balance_concat, lemma_balance_empty, lemma_balance_singleton,
    lemma_never_closes_concat, lemma_never_closes_singleton, lemma_take_concat, never_closes,
    significant_tokens, Token,
};

verus! {

/// The token sequence a program tree reads back as: each atomic node
/// its token, a sequence node its children in order, a block node its
/// children bracketed by the block-open and block-close tokens.
pub open spec fn ast_tokens(t: Ast) -> Seq<Token>
    decreases t,
{
    match t {
        Ast::IncDp => seq![Token::IncDp],
        Ast::DecDp => seq![Token::DecDp],
        Ast::Inc => seq![Token::Inc],
        Ast::Dec => seq![Token::Dec],
        Ast::Output => seq![Token::Output],
        Ast::Input => seq![Token::Input],
        Ast::Code { codes } => ast_tokens_seq(codes@),
        Ast::Branch { inner } => seq![Token::Branch] + ast_tokens_seq(inner@) + seq![Token::Jump],
    }
}

/// `ast_tokens` over a list of sibling nodes.
pub open spec fn ast_tokens_seq(s: Seq<Ast>) -> Seq<Token>
    decreases s,
{
    if s.len() == 0 {
        Seq::empty()
    } else {
        ast_tokens_seq(s.drop_last()) + ast_tokens(s.last())
    }
}

/// `ast_tokens_seq` peeled from the front instead of the back.
pub proof fn lemma_ast_tokens_seq_first(s: Seq<Ast>)
    requires
        s.len() > 0,
    ensures
        ast_tokens_seq(s) == ast_tokens(s[0]) + ast_tokens_seq(s.drop_first()),
    decreases s.len(),
{
    if s.len() == 1 {
        assert(s.drop_last() =~= Seq::<Ast>::empty());
        assert(s.drop_first() =~= Seq::<Ast>::empty());
        assert(s.last() == s[0]);
        assert(ast_tokens_seq(s) =~= ast_tokens(s[0]) + ast_tokens_seq(s.drop_first()));
    } else {
        lemma_ast_tokens_seq_first(s.drop_last());
        assert(s.drop_last()[0] == s[0]);
        assert(s.drop_last().drop_first() =~= s.drop_first().drop_last());
        assert(s.drop_first().last() == s.last());
        assert(ast_tokens_seq(s) =~= ast_tokens(s[0]) + ast_tokens_seq(s.drop_first()));
    }
}

/// The token sequence of any program tree is balanced: it opens and
/// closes its blocks in matched pairs.
pub proof fn lemma_ast_tokens_balanced(t: Ast)
    ensures
        balance(ast_tokens(t)) == 0,
        never_closes(ast_tokens(t)),
    decreases t,
{
    match t {
        Ast::Code { codes } => {
            lemma_ast_tokens_seq_balanced(codes@);
        },
        Ast::Branch { inner } => {
            lemma_ast_tokens_seq_balanced(inner@);
            let body = ast_tokens_seq(inner@);
            let opened = seq![Token::Branch] + body;
            let w = opened + seq![Token::Jump];
            assert(ast_tokens(t) =~= w);
            lemma_never_closes_singleton(Token::Branch);
            assert(balance(seq![Token::Branch]) == 1) by {
                assert(seq![Token::Branch].drop_last() =~= Seq::<Token>::empty());
            }
            assert(balance(seq![Token::Jump]) == -1) by {
                assert(seq![Token::Jump].drop_last() =~= Seq::<Token>::empty());
            }
            lemma_balance_concat(seq![Token::Branch], body);
            lemma_balance_concat(opened, seq![Token::Jump]);
            assert(balance(w) == 0);
            lemma_never_closes_concat(seq![Token::Branch], body);
            assert forall|i: int| 0 <= i <= w.len() implies balance(#[trigger] w.take(i))
                >= 0 by {
                lemma_take_concat(opened, seq![Token::Jump], i);
                if i <= opened.len() {
                    assert(balance(opened.take(i)) >= 0);
                } else {
                    assert(w.take(i) =~= w);
                }
            }
        },
        _ => {
            let s = ast_tokens(t);
            assert(s.len() == 1 && s[0] != Token::Jump && s[0] != Token::Branch);
            assert(s.drop_last() =~= Seq::<Token>::empty());
            assert(balance(Seq::<Token>::empty()) == 0);
            assert(s.last() == s[0]);
            assert(balance(s) == 0);
            lemma_never_closes_singleton(s[0]);
            assert(s =~= seq![s[0]]);
        },
    }
}

/// `lemma_ast_tokens_balanced` over a list of sibling nodes.
pub proof fn lemma_ast_tokens_seq_balanced(s: Seq<Ast>)
    ensures
        balance(ast_tokens_seq(s)) == 0,
        never_closes(ast_tokens_seq(s)),
    decreases s,
{
    if s.len() == 0 {
        assert(balance(Seq::<Token>::empty()) == 0);
        assert forall|i: int|
            0 <= i <= ast_tokens_seq(s).len() implies balance(
            #[trigger] ast_tokens_seq(s).take(i),
        ) >= 0 by {
            assert(ast_tokens_seq(s).take(i) =~= Seq::<Token>::empty());
        }
    } else {
        lemma_ast_tokens_seq_balanced(s.drop_last());
        lemma_ast_tokens_balanced(s.last());
        lemma_balance_concat(ast_tokens_seq(s.drop_last()), ast_tokens(s.last()));
        lemma_never_closes_concat(ast_tokens_seq(s.drop_last()), ast_tokens(s.last()));
    }
}

/// The recursive-descent parser: consumes the lexer's token stream
/// and builds the nested program tree, pairing each block-open token
/// with its block-close token.
pub struct Parser<'a> {
    lexer: Lexer<'a>,
    curr: Token,
}

impl<'a> Parser<'a> {
    pub closed spec fn wf(self) -> bool {
        &&& self.lexer.wf()
        &&& self.curr == Token::Eof ==> self.lexer.tokens() == Seq::<Token>::empty()
    }

    /// The tokens not yet consumed, the one-token lookahead included.
    pub closed spec fn toks(self) -> Seq<Token> {
        if self.curr == Token::Eof {
            Seq::empty()
        } else {
            seq![self.curr] + self.lexer.tokens()
        }
    }

    pub fn new(src: &'a str) -> (r: Parser<'a>)
        ensures
            r.wf(),
            r.toks() == significant_tokens(src@),
    {
        let mut lexer = Lexer::new(src);
        let curr = lexer.next_token();
        Parser { lexer, curr }
    }

    /// Replaces the lookahead with the next token of the lexer,
    /// consuming the head of the token stream.
    fn cont(&mut self)
        requires
            old(self).wf(),
        ensures
            final(self).wf(),
            old(self).curr != Token::Eof ==> final(self).toks() == old(self).toks().drop_first()
                && final(self).toks().len() < old(self).toks().len(),
            old(self).curr == Token::Eof ==> final(self).toks() == old(self).toks(),
    {
        self.curr = self.lexer.next_token();
        proof {
            if old(self).curr != Token::Eof {
                assert(self.toks() =~= old(self).toks().drop_first());
            }
        }
    }

    /// Consumes the head of the token stream when it is `token`;
    /// otherwise leaves the stream as it is.
    fn matches(&mut self, token: Token) -> (r: bool)
        requires
            old(self).wf(),
        ensures
            final(self).wf(),
            !r ==> *final(self) == *old(self) && old(self).curr != token,
            r ==> old(self).curr == token,
            r && token != Token::Eof ==> old(self).toks() == seq![token] + final(self).toks()
                && final(self).toks().len() < old(self).toks().len(),
            r && token == Token::Eof ==> final(self).toks() == old(self).toks() && old(self).toks() == Seq::<Token>::empty(),
    {
        if self.curr == token {
            self.cont();
            proof {
                if token != Token::Eof {
                    assert(old(self).toks() =~= seq![token] + self.toks());
                }
            }
            true
        } else {
            false
        }
    }

    /// Parses one atomic command off the head of the stream; any other
    /// head is the one parse failure there is.
    fn parse_code(&mut self) -> (r: Result<Ast, CompileError>)
        requires
            old(self).wf(),
        ensures
            final(self).wf(),
            match r {
                Ok(a) => ast_tokens(a) + final(self).toks() == old(self).toks() && final(self).toks().len() < old(self).toks().len() && canonical_item(a),
                Err(e) => *final(self) == *old(self) && e == CompileError::UnexpectedToken
                    && (old(self).toks().len() == 0 || old(self).toks()[0] == Token::Branch
                    || old(self).toks()[0] == Token::Jump),
            },
    {
        if self.matches(Token::Dec) {
            proof {
                assert(ast_tokens(Ast::Dec) + self.toks() =~= old(self).toks());
            }
            Ok(Ast::Dec)
        } else if self.matches(Token::DecDp) {
            proof {
                assert(ast_tokens(Ast::DecDp) + self.toks() =~= old(self).toks());
            }
            Ok(Ast::DecDp)
        } else if self.matches(Token::Inc) {
            proof {
                assert(ast_tokens(Ast::Inc) + self.toks() =~= old(self).toks());
            }
            Ok(Ast::Inc)
        } else if self.matches(Token::IncDp) {
            proof {
                assert(ast_tokens(Ast::IncDp) + self.toks() =~= old(self).toks());
            }
            Ok(Ast::IncDp)
        } else if self.matches(Token::Input) {
            proof {
                assert(ast_tokens(Ast::Input) + self.toks() =~= old(self).toks());
            }
            Ok(Ast::Input)
        } else if self.matches(Token::Output) {
            proof {
                assert(ast_tokens(Ast::Output) + self.toks() =~= old(self).toks());
            }
            Ok(Ast::Output)
        } else {
            Err(CompileError::UnexpectedToken)
        }
    }

    /// Parses a block's children up to and including the block-close
    /// token that ends it. The block-open token is already consumed.
    fn parse_branch(&mut self) -> (r: Result<Ast, CompileError>)
        requires
            old(self).wf(),
        ensures
            final(self).wf(),
            match r {
                Ok(a) => ({
                    &&& a matches Ast::Branch { inner }
                    &&& old(self).toks() == ast_tokens_seq(inner@) + seq![Token::Jump] + final(self).toks()
                    &&& final(self).toks().len() < old(self).toks().len()
                    &&& !never_closes(old(self).toks())
                    &&& canonical_seq(inner@)
                }),
                Err(e) => e == CompileError::UnexpectedToken && never_closes(old(self).toks()),
            },
        decreases old(self).toks().len(), 2int,
    {
        let mut v: Vec<Ast> = Vec::new();
        proof {
            lemma_balance_empty();
            assert(ast_tokens_seq(v@) =~= Seq::<Token>::empty());
        }

        loop
            invariant
                self.wf(),
                old(self).toks() == ast_tokens_seq(v@) + self.toks(),
                self.toks().len() <= old(self).toks().len(),
                balance(ast_tokens_seq(v@)) == 0,
                never_closes(ast_tokens_seq(v@)),
                canonical_seq(v@),
            decreases self.toks().len(),
        {
            let ghost d = ast_tokens_seq(v@);
            if self.matches(Token::Jump) {
                proof {
                    assert(old(self).toks() =~= d + seq![Token::Jump] + self.toks());
                    let a = d + seq![Token::Jump];
                    lemma_balance_singleton(Token::Jump);
                    lemma_balance_concat(d, seq![Token::Jump]);
                    assert(balance(a) == -1);
                    let i0 = a.len() as int;
                    lemma_take_concat(a, self.toks(), i0);
                    assert(old(self).toks() =~= a + self.toks());
                    assert(a.take(i0) =~= a);
                    assert(balance(old(self).toks().take(i0)) == -1);
                    assert(!never_closes(old(self).toks()));
                }
                return Ok(Ast::Branch { inner: v });
            }
            let ghost pre = *self;
            let inner = match self.parse_code_or_branch() {
                Ok(a) => a,
                Err(e) => {
                    proof {
                        let now = pre.toks();
                        if now.len() == 0 {
                            assert(old(self).toks() =~= d);
                        } else {
                            assert(now[0] == Token::Branch && never_closes(now.drop_first()));
                            let rest = now.drop_first();
                            lemma_never_closes_singleton(Token::Branch);
                            lemma_balance_singleton(Token::Branch);
                            lemma_never_closes_concat(d, seq![Token::Branch]);
                            lemma_balance_concat(d, seq![Token::Branch]);
                            lemma_never_closes_concat(d + seq![Token::Branch], rest);
                            assert(now =~= seq![Token::Branch] + rest);
                            assert(old(self).toks() =~= (d + seq![Token::Branch]) + rest);
                        }
                    }
                    return Err(e);
                },
            };
            let ghost old_v = v@;
            v.push(inner);
            proof {
                assert(v@.drop_last() =~= old_v);
                assert(v@.last() == inner);
                assert(ast_tokens_seq(v@) == ast_tokens_seq(old_v) + ast_tokens(inner));
                assert(old(self).toks() =~= ast_tokens_seq(v@) + self.toks());
                lemma_ast_tokens_balanced(inner);
                lemma_balance_concat(ast_tokens_seq(old_v), ast_tokens(inner));
                lemma_never_closes_concat(ast_tokens_seq(old_v), ast_tokens(inner));
            }
        }
    }

    /// Parses one node: a block where the head opens one, otherwise an
    /// atomic command.
    fn parse_code_or_branch(&mut self) -> (r: Result<Ast, CompileError>)
        requires
            old(self).wf(),
        ensures
            final(self).wf(),
            match r {
                Ok(a) => ast_tokens(a) + final(self).toks() == old(self).toks() && final(self).toks().len() < old(self).toks().len() && canonical_item(a),
                Err(e) => e == CompileError::UnexpectedToken && (old(self).toks().len() == 0
                    || old(self).toks()[0] == Token::Jump || (old(self).toks()[0] == Token::Branch
                    && never_closes(old(self).toks().drop_first()))),
            },
        decreases old(self).toks().len(), 1int,
    {
        if self.matches(Token::Branch) {
            let ghost entered = *self;
            match self.parse_branch() {
                Ok(a) => {
                    proof {
                        assert(ast_tokens(a) + self.toks() =~= old(self).toks());
                    }
                    Ok(a)
                },
                Err(e) => {
                    proof {
                        assert(entered.toks() =~= old(self).toks().drop_first());
                    }
                    Err(e)
                },
            }
        } else {
            self.parse_code()
        }
    }

    /// Parses the whole token stream into a sequence node holding the
    /// program's top-level nodes, consuming every token. The parse
    /// succeeds exactly when the stream follows the grammar; the tree
    /// it then yields reads back, token for token, as the significant
    /// tokens of the source.
    pub fn parse(&mut self) -> (r: Result<Ast, CompileError>)
        requires
            old(self).wf(),
        ensures
            final(self).wf(),
            match r {
                Ok(a) => ({
                    &&& a matches Ast::Code { codes }
                    &&& ast_tokens(a) == old(self).toks()
                    &&& final(self).toks() == Seq::<Token>::empty()
                    &&& balanced(old(self).toks())
                    &&& canonical_program(a)
                }),
                Err(e) => e == CompileError::UnexpectedToken && !balanced(old(self).toks()),
            },
    {
        let mut v: Vec<Ast> = Vec::new();
        proof {
            lemma_balance_empty();
            assert(ast_tokens_seq(v@) =~= Seq::<Token>::empty());
        }

        loop
            invariant
                self.wf(),
                old(self).toks() == ast_tokens_seq(v@) + self.toks(),
                self.toks().len() <= old(self).toks().len(),
                balance(ast_tokens_seq(v@)) == 0,
                never_closes(ast_tokens_seq(v@)),
                canonical_seq(v@),
            decreases self.toks().len(),
        {
            let ghost d = ast_tokens_seq(v@);
            if self.matches(Token::Eof) {
                proof {
                    assert(old(self).toks() =~= d);
                }
                return Ok(Ast::Code { codes: v });
            }
            let ghost pre = *self;
            let inner = match self.parse_code_or_branch() {
                Ok(a) => a,
                Err(e) => {
                    proof {
                        let now = pre.toks();
                        assert(now.len() > 0);
                        if now[0] == Token::Jump {
                            let rest = now.drop_first();
                            let a = d + seq![Token::Jump];
                            lemma_balance_singleton(Token::Jump);
                            lemma_balance_concat(d, seq![Token::Jump]);
                            assert(balance(a) == -1);
                            let i0 = a.len() as int;
                            lemma_take_concat(a, rest, i0);
                            assert(now =~= seq![Token::Jump] + rest);
                            assert(old(self).toks() =~= a + rest);
                            assert(a.take(i0) =~= a);
                            assert(balance(old(self).toks().take(i0)) == -1);
                            assert(!never_closes(old(self).toks()));
                        } else {
                            assert(now[0] == Token::Branch && never_closes(now.drop_first()));
                            let rest = now.drop_first();
                            assert(balance(rest.take(rest.len() as int)) >= 0);
                            assert(rest.take(rest.len() as int) =~= rest);
                            lemma_balance_singleton(Token::Branch);
                            lemma_balance_concat(d, seq![Token::Branch]);
                            lemma_balance_concat(d + seq![Token::Branch], rest);
                            assert(now =~= seq![Token::Branch] + rest);
                            assert(old(self).toks() =~= (d + seq![Token::Branch]) + rest);
                            assert(balance(old(self).toks()) >= 1);
                        }
                    }
                    return Err(e);
                },
            };
            let ghost old_v = v@;
            v.push(inner);
            proof {
                assert(v@.drop_last() =~= old_v);
                assert(v@.last() == inner);
                assert(ast_tokens_seq(v@) == ast_tokens_seq(old_v) + ast_tokens(inner));
                assert(old(self).toks() =~= ast_tokens_seq(v@) + self.toks());
                lemma_ast_tokens_balanced(inner);
                lemma_balance_concat(ast_tokens_seq(old_v), ast_tokens(inner));
                lemma_never_closes_concat(ast_tokens_seq(old_v), ast_tokens(inner));
            }
        }
    }
}

} // verus!
