use vstd::prelude::*;

use crate::parser::{
    ast_tokens, ast_tokens_seq, lemma_ast_tokens_seq_balanced, lemma_ast_tokens_seq_first, Parser,
};
use crate::token::{balanced, lemma_close_boundary, significant_tokens, Token};

verus! {

/// A node of the program tree delivered by the parser: six atomic
/// commands, a sequence node, and a block node.
#[derive(Debug, PartialEq)]
pub enum Ast {
    IncDp,
    DecDp,
    Inc,
    Dec,
    Output,
    Input,
    Code { codes: Vec<Ast> },
    Branch { inner: Vec<Ast> },
}

/// One slot of a compiled program. `Branch` carries an unsigned forward
/// displacement, `Jump` a non-positive backward displacement, both in
/// instruction slots. `Nop` is the transient placeholder a block leaves
/// at its start until its body's length is known; none remains in a
/// finished program.
#[derive(Copy, Clone, Debug, PartialEq, Eq)]
pub enum OpCode {
    IncDp,
    DecDp,
    Inc,
    Dec,
    Output,
    Input,
    Branch(u16),
    Jump(i16),
    Return,
    Nop,
}

/// A compiled program: a flat, index-addressed instruction sequence.
pub struct Program {
    pub code: Vec<OpCode>,
}

/// The failures compilation can produce. `UnexpectedToken` comes from
/// the parse of the source text; `OffsetOverflow` from a block whose
/// linearized body is too long for the displacement encoding.
#[derive(Copy, Clone, Debug, PartialEq, Eq)]
pub enum CompileError {
    UnexpectedToken,
    OffsetOverflow,
}

/// The longest block body, in instruction slots, whose displacements
/// still fit the encoding: the jump offset `-(len + 2)` must not fall
/// below `i16::MIN`.
pub const MAX_BODY_SLOTS: usize = 32766;

/// The flat instruction sequence a single tree node linearizes to.
/// A block of body length `n` becomes `Branch(n + 1)`, the body, then
/// `Jump(-(n + 2))`; the displacements are exact whenever the node is
/// `compilable`.
pub open spec fn flat_code(t: Ast) -> Seq<OpCode>
    decreases t,
{
    match t {
        Ast::IncDp => seq![OpCode::IncDp],
        Ast::DecDp => seq![OpCode::DecDp],
        Ast::Inc => seq![OpCode::Inc],
        Ast::Dec => seq![OpCode::Dec],
        Ast::Output => seq![OpCode::Output],
        Ast::Input => seq![OpCode::Input],
        Ast::Code { codes } => flat_code_seq(codes@),
        Ast::Branch { inner } => {
            let body = flat_code_seq(inner@);
            seq![OpCode::Branch((body.len() + 1) as u16)] + body + seq![
                OpCode::Jump((-(body.len() as int) - 2) as i16),
            ]
        },
    }
}

/// The concatenation of the flat code of a list of sibling nodes.
pub open spec fn flat_code_seq(s: Seq<Ast>) -> Seq<OpCode>
    decreases s,
{
    if s.len() == 0 {
        Seq::empty()
    } else {
        flat_code_seq(s.drop_last()) + flat_code(s.last())
    }
}

/// Whether every block in the tree has a linearized body short enough
/// for its displacements to be encoded exactly.
pub open spec fn compilable(t: Ast) -> bool
    decreases t,
{
    match t {
        Ast::Code { codes } => compilable_seq(codes@),
        Ast::Branch { inner } => compilable_seq(inner@) && flat_code_seq(inner@).len()
            <= MAX_BODY_SLOTS,
        _ => true,
    }
}

/// `compilable` over a list of sibling nodes.
pub open spec fn compilable_seq(s: Seq<Ast>) -> bool
    decreases s,
{
    if s.len() == 0 {
        true
    } else {
        compilable_seq(s.drop_last()) && compilable(s.last())
    }
}

/// The whole compiled program of a tree: its flat code followed by the
/// single terminal `Return`.
pub open spec fn program_code(t: Ast) -> Seq<OpCode> {
    flat_code(t) + seq![OpCode::Return]
}

/// Branch/jump pairing: every `Branch(d)` at index `b` finds at `b + d`
/// the `Jump` that closes its block, and that jump's own displacement
/// leads the instruction pointer, already advanced past the jump, back
/// to the branch at `b`.
pub open spec fn branch_jump_paired(code: Seq<OpCode>) -> bool {
    forall|b: int|
        0 <= b < code.len() ==> ((#[trigger] code[b]) matches OpCode::Branch(d) ==> {
            &&& b + d < code.len()
            &&& code[b + d] matches OpCode::Jump(j) && (b + d) + 1 + j == b
        })
}

/// A node in the shape the parser produces: a sequence node never
/// appears below the top of the tree.
pub open spec fn canonical_item(t: Ast) -> bool
    decreases t,
{
    match t {
        Ast::Code { .. } => false,
        Ast::Branch { inner } => canonical_seq(inner@),
        _ => true,
    }
}

/// `canonical_item` over a list of sibling nodes.
pub open spec fn canonical_seq(s: Seq<Ast>) -> bool
    decreases s,
{
    if s.len() == 0 {
        true
    } else {
        canonical_seq(s.drop_last()) && canonical_item(s.last())
    }
}

/// A whole program tree in the shape the parser produces: a sequence
/// node at the top, none below it.
pub open spec fn canonical_program(t: Ast) -> bool {
    match t {
        Ast::Code { codes } => canonical_seq(codes@),
        _ => false,
    }
}

/// `flat_code_seq` peeled from the front instead of the back.
proof fn lemma_flat_code_seq_first(s: Seq<Ast>)
    requires
        s.len() > 0,
    ensures
        flat_code_seq(s) == flat_code(s[0]) + flat_code_seq(s.drop_first()),
    decreases s.len(),
{
    if s.len() == 1 {
        assert(s.drop_last() =~= Seq::<Ast>::empty());
        assert(s.drop_first() =~= Seq::<Ast>::empty());
        assert(s.last() == s[0]);
        assert(flat_code_seq(s) =~= flat_code(s[0]) + flat_code_seq(s.drop_first()));
    } else {
        lemma_flat_code_seq_first(s.drop_last());
        assert(s.drop_last()[0] == s[0]);
        assert(s.drop_last().drop_first() =~= s.drop_first().drop_last());
        assert(s.drop_first().last() == s.last());
        assert(flat_code_seq(s) =~= flat_code(s[0]) + flat_code_seq(s.drop_first()));
    }
}

/// `canonical_seq` peeled from the front instead of the back.
proof fn lemma_canonical_seq_first(s: Seq<Ast>)
    requires
        s.len() > 0,
        canonical_seq(s),
    ensures
        canonical_item(s[0]),
        canonical_seq(s.drop_first()),
    decreases s.len(),
{
    if s.len() == 1 {
        assert(s.drop_first() =~= Seq::<Ast>::empty());
        assert(s.last() == s[0]);
    } else {
        lemma_canonical_seq_first(s.drop_last());
        assert(s.drop_last()[0] == s[0]);
        assert(s.drop_last().drop_first() =~= s.drop_first().drop_last());
        assert(s.drop_first().last() == s.last());
    }
}

proof fn lemma_compilable_seq_index(s: Seq<Ast>, i: int)
    requires
        compilable_seq(s),
        0 <= i < s.len(),
    ensures
        compilable(s[i]),
    decreases s.len(),
{
    if i < s.len() - 1 {
        lemma_compilable_seq_index(s.drop_last(), i);
        assert(s.drop_last()[i] == s[i]);
    }
}

/// The compiler: parses a source text and linearizes the tree into a
/// flat instruction sequence, backpatching each block's placeholder
/// with the resolved forward displacement once its body's length is
/// known.
pub struct Compiler<'a> {
    parser: Parser<'a>,
    program: Program,
}

impl<'a> Compiler<'a> {
    pub closed spec fn wf(self) -> bool {
        self.parser.wf()
    }

    /// The tokens the compiler has yet to consume.
    pub closed spec fn toks(self) -> Seq<Token> {
        self.parser.toks()
    }

    /// The instructions emitted so far.
    pub closed spec fn emitted(self) -> Seq<OpCode> {
        self.program.code@
    }

    pub fn new(src: &'a str) -> (r: Compiler<'a>)
        ensures
            r.wf(),
            r.toks() == significant_tokens(src@),
            r.emitted() == Seq::<OpCode>::empty(),
    {
        let parser = Parser::new(src);
        let program = Program { code: Vec::new() };
        Compiler { parser, program }
    }

    /// Appends the flat code of one tree node to the growing program.
    fn compile_ast(&mut self, ast: &Ast) -> (r: Result<(), CompileError>)
        ensures
            match r {
                Ok(()) => compilable(*ast) && final(self).program.code@ == old(
                    self,
                ).program.code@ + flat_code(*ast),
                Err(e) => e == CompileError::OffsetOverflow && !compilable(*ast),
            },
        decreases *ast, 1int,
    {
        match ast {
            Ast::Code { codes } => {
                match self.compile_seq(codes) {
                    Ok(()) => Ok(()),
                    Err(e) => Err(e),
                }
            },
            Ast::Branch { inner } => {
                let start = self.program.code.len();
                self.program.code.push(OpCode::Nop);

                match self.compile_seq(inner) {
                    Ok(()) => {},
                    Err(e) => {
                        return Err(e);
                    },
                }

                let end = self.program.code.len();
                let n = end - start - 1;
                if n > MAX_BODY_SLOTS {
                    return Err(CompileError::OffsetOverflow);
                }
                let dist: i16 = (-(n as i32 + 2)) as i16;
                self.program.code.push(OpCode::Jump(dist));

                let branch_dist: u16 = (n + 1) as u16;
                self.program.code[start] = OpCode::Branch(branch_dist);
                proof {
                    let body = flat_code_seq(inner@);
                    assert(self.program.code@ =~= old(self).program.code@ + (seq![
                        OpCode::Branch((body.len() + 1) as u16)] + body + seq![
                        OpCode::Jump((-(body.len() as int) - 2) as i16)]));
                }
                Ok(())
            },
            Ast::Dec => {
                self.program.code.push(OpCode::Dec);
                proof {
                    assert(self.program.code@ =~= old(self).program.code@ + flat_code(*ast));
                }
                Ok(())
            },
            Ast::DecDp => {
                self.program.code.push(OpCode::DecDp);
                proof {
                    assert(self.program.code@ =~= old(self).program.code@ + flat_code(*ast));
                }
                Ok(())
            },
            Ast::Inc => {
                self.program.code.push(OpCode::Inc);
                proof {
                    assert(self.program.code@ =~= old(self).program.code@ + flat_code(*ast));
                }
                Ok(())
            },
            Ast::IncDp => {
                self.program.code.push(OpCode::IncDp);
                proof {
                    assert(self.program.code@ =~= old(self).program.code@ + flat_code(*ast));
                }
                Ok(())
            },
            Ast::Input => {
                self.program.code.push(OpCode::Input);
                proof {
                    assert(self.program.code@ =~= old(self).program.code@ + flat_code(*ast));
                }
                Ok(())
            },
            Ast::Output => {
                self.program.code.push(OpCode::Output);
                proof {
                    assert(self.program.code@ =~= old(self).program.code@ + flat_code(*ast));
                }
                Ok(())
            },
        }
    }

    /// Appends the flat code of a list of sibling nodes, in order.
    fn compile_seq(&mut self, codes: &Vec<Ast>) -> (r: Result<(), CompileError>)
        ensures
            match r {
                Ok(()) => compilable_seq(codes@) && final(self).program.code@ == old(
                    self,
                ).program.code@ + flat_code_seq(codes@),
                Err(e) => e == CompileError::OffsetOverflow && !compilable_seq(codes@),
            },
        decreases codes@, 0int,
    {
        let mut j: usize = 0;
        while j < codes.len()
            invariant
                j <= codes.len(),
                compilable_seq(codes@.take(j as int)),
                self.program.code@ == old(self).program.code@ + flat_code_seq(
                    codes@.take(j as int),
                ),
            decreases codes@.len() - j,
        {
            match self.compile_ast(&codes[j]) {
                Ok(()) => {},
                Err(e) => {
                    proof {
                        if compilable_seq(codes@) {
                            lemma_compilable_seq_index(codes@, j as int);
                        }
                    }
                    return Err(e);
                },
            }
            proof {
                let pre = codes@.take(j as int);
                let post = codes@.take(j + 1 as int);
                assert(post.drop_last() =~= pre);
                assert(post.last() == codes@[j as int]);
                assert(flat_code_seq(post) == flat_code_seq(pre) + flat_code(codes@[j as int]));
                assert(self.program.code@ =~= old(self).program.code@ + flat_code_seq(post));
            }
            j = j + 1;
        }
        proof {
            assert(codes@.take(codes@.len() as int) =~= codes@);
        }
        Ok(())
    }

    /// Parses the source and compiles the tree, appending the single
    /// terminal instruction last. On success the returned program is
    /// exactly the compiled form of a tree that reads back as the
    /// source's significant tokens. Compilation fails exactly when the
    /// source's block tokens are unbalanced, or when they balance but
    /// some block's displacements cannot be encoded.
    pub fn compile(self) -> (r: Result<Program, CompileError>)
        requires
            self.wf(),
        ensures
            match r {
                Ok(p) => ({
                    &&& balanced(self.toks())
                    &&& exists|t: Ast|
                        (#[trigger] ast_tokens(t)) == self.toks() && canonical_program(t)
                            && compilable(t) && p.code@ == self.emitted() + program_code(t)
                    &&& self.emitted() == Seq::<OpCode>::empty() ==> {
                        &&& branch_jump_paired(p.code@)
                        &&& p.code@.len() >= 1 && p.code@.last() == OpCode::Return
                        &&& forall|i: int|
                            0 <= i < p.code@.len() - 1 ==> (#[trigger] p.code@[i])
                                != OpCode::Return && p.code@[i] != OpCode::Nop
                    }
                }),
                Err(e) => (e == CompileError::UnexpectedToken && !balanced(self.toks())) || (e
                    == CompileError::OffsetOverflow && balanced(self.toks()) && exists|t: Ast|
                    (#[trigger] ast_tokens(t)) == self.toks() && canonical_program(t)
                        && !compilable(t)),
            },
    {
        let mut this = self;
        let ghost start_emitted = this.program.code@;
        let ast = match this.parser.parse() {
            Ok(a) => a,
            Err(e) => {
                return Err(e);
            },
        };
        match this.compile_ast(&ast) {
            Ok(()) => {},
            Err(e) => {
                return Err(e);
            },
        }

        this.program.code.push(OpCode::Return);
        proof {
            assert(this.program.code@ =~= start_emitted + program_code(ast));
            if start_emitted.len() == 0 {
                let p = this.program.code@;
                assert(p =~= program_code(ast));
                lemma_branch_jump_pairing(ast);
                lemma_flat_body_ops(ast);
                assert(p.last() == OpCode::Return);
                assert forall|i: int| 0 <= i < p.len() - 1 implies (#[trigger] p[i])
                    != OpCode::Return && p[i] != OpCode::Nop by {
                    assert(p[i] == flat_code(ast)[i]);
                }
            }
        }
        Ok(this.program)
    }
}

proof fn lemma_paired_concat(a: Seq<OpCode>, b: Seq<OpCode>)
    requires
        branch_jump_paired(a),
        branch_jump_paired(b),
    ensures
        branch_jump_paired(a + b),
{
    let c = a + b;
    assert forall|i: int| 0 <= i < c.len() implies (#[trigger] c[i]) matches OpCode::Branch(d)
        ==> {
        &&& i + d < c.len()
        &&& c[i + d] matches OpCode::Jump(j) && (i + d) + 1 + j == i
    } by {
        if i < a.len() {
            assert(c[i] == a[i]);
            match c[i] {
                OpCode::Branch(d) => {
                    assert(a[i + d] == c[i + d]);
                },
                _ => {},
            }
        } else {
            assert(c[i] == b[i - a.len()]);
            match c[i] {
                OpCode::Branch(d) => {
                    assert(b[i - a.len() + d] == c[i + d]);
                },
                _ => {},
            }
        }
    }
}

proof fn lemma_flat_paired(t: Ast)
    requires
        compilable(t),
    ensures
        branch_jump_paired(flat_code(t)),
    decreases t,
{
    match t {
        Ast::Code { codes } => {
            lemma_flat_paired_seq(codes@);
        },
        Ast::Branch { inner } => {
            lemma_flat_paired_seq(inner@);
            let body = flat_code_seq(inner@);
            let n = body.len() as int;
            let w = flat_code(t);
            assert(w == seq![OpCode::Branch((n + 1) as u16)] + body + seq![
                OpCode::Jump((-n - 2) as i16),
            ]);
            assert(w.len() == n + 2);
            assert forall|i: int| 0 <= i < w.len() implies (#[trigger] w[i]) matches
                OpCode::Branch(d) ==> {
                &&& i + d < w.len()
                &&& w[i + d] matches OpCode::Jump(j) && (i + d) + 1 + j == i
            } by {
                if i == 0 {
                    assert(w[0] == OpCode::Branch((n + 1) as u16));
                    assert((n + 1) as u16 as int == n + 1);
                    assert(w[n + 1] == OpCode::Jump((-n - 2) as i16));
                    assert((-n - 2) as i16 as int == -n - 2);
                } else if i <= n {
                    assert(w[i] == body[i - 1]);
                    match w[i] {
                        OpCode::Branch(d) => {
                            assert(body[i - 1 + d] == w[i + d]);
                        },
                        _ => {},
                    }
                } else {
                    assert(w[i] == OpCode::Jump((-n - 2) as i16));
                }
            }
        },
        _ => {},
    }
}

proof fn lemma_flat_body_ops(t: Ast)
    ensures
        forall|i: int|
            0 <= i < flat_code(t).len() ==> (#[trigger] flat_code(t)[i]) != OpCode::Return
                && flat_code(t)[i] != OpCode::Nop,
    decreases t,
{
    match t {
        Ast::Code { codes } => {
            lemma_flat_body_ops_seq(codes@);
        },
        Ast::Branch { inner } => {
            lemma_flat_body_ops_seq(inner@);
            let body = flat_code_seq(inner@);
            let w = flat_code(t);
            assert forall|i: int| 0 <= i < w.len() implies (#[trigger] w[i]) != OpCode::Return
                && w[i] != OpCode::Nop by {
                if 1 <= i <= body.len() {
                    assert(w[i] == body[i - 1]);
                }
            }
        },
        _ => {},
    }
}

proof fn lemma_flat_body_ops_seq(s: Seq<Ast>)
    ensures
        forall|i: int|
            0 <= i < flat_code_seq(s).len() ==> (#[trigger] flat_code_seq(s)[i])
                != OpCode::Return && flat_code_seq(s)[i] != OpCode::Nop,
    decreases s,
{
    if s.len() > 0 {
        lemma_flat_body_ops_seq(s.drop_last());
        lemma_flat_body_ops(s.last());
        let a = flat_code_seq(s.drop_last());
        let b = flat_code(s.last());
        assert forall|i: int|
            0 <= i < flat_code_seq(s).len() implies (#[trigger] flat_code_seq(s)[i])
            != OpCode::Return && flat_code_seq(s)[i] != OpCode::Nop by {
            if i < a.len() {
                assert(flat_code_seq(s)[i] == a[i]);
            } else {
                assert(flat_code_seq(s)[i] == b[i - a.len()]);
            }
        }
    }
}

proof fn lemma_flat_paired_seq(s: Seq<Ast>)
    requires
        compilable_seq(s),
    ensures
        branch_jump_paired(flat_code_seq(s)),
    decreases s,
{
    if s.len() == 0 {
    } else {
        lemma_flat_paired_seq(s.drop_last());
        lemma_flat_paired(s.last());
        lemma_paired_concat(flat_code_seq(s.drop_last()), flat_code(s.last()));
    }
}

proof fn lemma_item_unique(t1: Ast, t2: Ast, r1: Seq<Token>, r2: Seq<Token>)
    requires
        canonical_item(t1),
        canonical_item(t2),
        ast_tokens(t1) + r1 == ast_tokens(t2) + r2,
    ensures
        ast_tokens(t1) == ast_tokens(t2),
        r1 == r2,
        flat_code(t1) == flat_code(t2),
    decreases ast_tokens(t1).len(), 0int,
{
    let u = ast_tokens(t1) + r1;
    assert(ast_tokens(t1).len() >= 1);
    assert(ast_tokens(t2).len() >= 1);
    assert(u[0] == ast_tokens(t1)[0]);
    assert(u[0] == ast_tokens(t2)[0]);
    match t1 {
        Ast::Branch { inner } => {
            let in1 = inner@;
            match t2 {
                Ast::Branch { inner: inner2 } => {
                    let in2 = inner2@;
                    let s1 = ast_tokens_seq(in1);
                    let s2 = ast_tokens_seq(in2);
                    let x1 = s1 + seq![Token::Jump] + r1;
                    let x2 = s2 + seq![Token::Jump] + r2;
                    assert(u =~= seq![Token::Branch] + x1);
                    assert(u =~= seq![Token::Branch] + x2);
                    assert(x1.len() == x2.len());
                    assert forall|i: int| 0 <= i < x1.len() implies x1[i] == x2[i] by {
                        assert(u[i + 1] == x1[i]);
                        assert(u[i + 1] == x2[i]);
                    }
                    assert(x1 =~= x2);
                    lemma_ast_tokens_seq_balanced(in1);
                    lemma_ast_tokens_seq_balanced(in2);
                    lemma_close_boundary(s1, s2, r1, r2);
                    lemma_seq_unique(in1, in2);
                },
                _ => {
                    assert(false);
                },
            }
        },
        _ => {
            match t2 {
                Ast::Branch { inner: inner2 } => {
                    assert(false);
                },
                _ => {
                    assert(t1 == t2);
                    assert(ast_tokens(t1) == ast_tokens(t2));
                    assert(ast_tokens(t1).len() == 1);
                    assert(ast_tokens(t2).len() == 1);
                    assert((ast_tokens(t1) + r1).len() == 1 + r1.len());
                    assert((ast_tokens(t2) + r2).len() == 1 + r2.len());
                    assert(r1.len() == r2.len());
                    assert forall|i: int| 0 <= i < r1.len() implies r1[i] == r2[i] by {
                        assert(u[i + 1] == r1[i]);
                        assert(u[i + 1] == r2[i]);
                    }
                    assert(r1 =~= r2);
                },
            }
        },
    }
}

proof fn lemma_seq_unique(s1: Seq<Ast>, s2: Seq<Ast>)
    requires
        canonical_seq(s1),
        canonical_seq(s2),
        ast_tokens_seq(s1) == ast_tokens_seq(s2),
    ensures
        flat_code_seq(s1) == flat_code_seq(s2),
    decreases ast_tokens_seq(s1).len(), 1int,
{
    if s1.len() == 0 && s2.len() == 0 {
        assert(flat_code_seq(s1) =~= flat_code_seq(s2));
    } else if s1.len() == 0 {
        lemma_ast_tokens_seq_first(s2);
        lemma_canonical_seq_first(s2);
        assert(ast_tokens(s2[0]).len() >= 1);
        assert(false);
    } else if s2.len() == 0 {
        lemma_ast_tokens_seq_first(s1);
        lemma_canonical_seq_first(s1);
        assert(ast_tokens(s1[0]).len() >= 1);
        assert(false);
    } else {
        lemma_ast_tokens_seq_first(s1);
        lemma_ast_tokens_seq_first(s2);
        lemma_canonical_seq_first(s1);
        lemma_canonical_seq_first(s2);
        assert(ast_tokens(s1[0]).len() >= 1);
        lemma_item_unique(
            s1[0],
            s2[0],
            ast_tokens_seq(s1.drop_first()),
            ast_tokens_seq(s2.drop_first()),
        );
        lemma_seq_unique(s1.drop_first(), s2.drop_first());
        lemma_flat_code_seq_first(s1);
        lemma_flat_code_seq_first(s2);
    }
}

/// The compiled program is a function of the source tokens alone: two
/// program trees in the parser's shape that read back as the same
/// token stream compile to the same instruction sequence.
pub proof fn lemma_tokens_determine_program(t1: Ast, t2: Ast)
    requires
        canonical_program(t1),
        canonical_program(t2),
        ast_tokens(t1) == ast_tokens(t2),
    ensures
        program_code(t1) == program_code(t2),
{
    match t1 {
        Ast::Code { codes } => {
            match t2 {
                Ast::Code { codes: codes2 } => {
                    lemma_seq_unique(codes@, codes2@);
                },
                _ => {},
            }
        },
        _ => {},
    }
}

/// Branch/jump pairing holds of every compiled program: each
/// `BranchIfZero` at index `b` with displacement `d` has at `b + d` the
/// `JumpBack` that closes its block, and that jump's displacement,
/// added to its own index plus one, returns control to the branch.
pub proof fn lemma_branch_jump_pairing(t: Ast)
    requires
        compilable(t),
    ensures
        branch_jump_paired(program_code(t)),
{
    lemma_flat_paired(t);
    assert(branch_jump_paired(seq![OpCode::Return]));
    lemma_paired_concat(flat_code(t), seq![OpCode::Return]);
}

/// Idempotent re-compilation: the compiled form is a function of the
/// program tree alone, so two compilations of the same tree yield
/// identical instruction sequences.
pub proof fn lemma_compile_deterministic(t: Ast, c1: Seq<OpCode>, c2: Seq<OpCode>)
    requires
        c1 == program_code(t),
        c2 == program_code(t),
    ensures
        c1 == c2,
{
}

} // verus!
