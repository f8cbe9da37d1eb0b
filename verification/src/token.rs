use vstd::prelude::*;

verus! {

/// The significant symbols of a source text. Every other character is
/// skipped by the lexer.
#[derive(Copy, Clone, Debug, PartialEq, Eq, Structural)]
pub enum Token {
    IncDp,
    DecDp,
    Inc,
    Dec,
    Output,
    Input,
    Branch,
    Jump,
    Eof,
}

/// The token a single character stands for, or `None` for a character
/// that carries no meaning.
pub open spec fn token_of(c: char) -> Option<Token> {
    match c {
        '>' => Some(Token::IncDp),
        '<' => Some(Token::DecDp),
        '+' => Some(Token::Inc),
        '-' => Some(Token::Dec),
        '.' => Some(Token::Output),
        ',' => Some(Token::Input),
        '[' => Some(Token::Branch),
        ']' => Some(Token::Jump),
        _ => None,
    }
}

/// The stream of significant tokens in a character sequence, in order,
/// with every other character dropped.
pub open spec fn significant_tokens(s: Seq<char>) -> Seq<Token>
    decreases s.len(),
{
    if s.len() == 0 {
        Seq::empty()
    } else {
        match token_of(s[0]) {
            Some(t) => seq![t] + significant_tokens(s.drop_first()),
            None => significant_tokens(s.drop_first()),
        }
    }
}

/// The running block balance of a token sequence: block-opens minus
/// block-closes.
pub open spec fn balance(s: Seq<Token>) -> int
    decreases s.len(),
{
    if s.len() == 0 {
        0
    } else {
        balance(s.drop_last()) + (if s.last() == Token::Branch {
            1int
        } else if s.last() == Token::Jump {
            -1int
        } else {
            0int
        })
    }
}

/// No prefix closes more blocks than it has opened.
pub open spec fn never_closes(s: Seq<Token>) -> bool {
    forall|i: int| 0 <= i <= s.len() ==> balance(#[trigger] s.take(i)) >= 0
}

/// The token stream follows the grammar: no prefix closes more blocks
/// than it has opened, and the whole stream closes every block it
/// opens.
pub open spec fn balanced(s: Seq<Token>) -> bool {
    balance(s) == 0 && never_closes(s)
}

pub proof fn lemma_balance_concat(a: Seq<Token>, b: Seq<Token>)
    ensures
        balance(a + b) == balance(a) + balance(b),
    decreases b.len(),
{
    if b.len() == 0 {
        assert(a + b =~= a);
    } else {
        lemma_balance_concat(a, b.drop_last());
        assert((a + b).drop_last() =~= a + b.drop_last());
        assert((a + b).last() == b.last());
    }
}

pub proof fn lemma_take_concat(a: Seq<Token>, b: Seq<Token>, i: int)
    requires
        0 <= i <= a.len() + b.len(),
    ensures
        i <= a.len() ==> (a + b).take(i) == a.take(i),
        i > a.len() ==> (a + b).take(i) == a + b.take(i - a.len()),
{
    if i <= a.len() {
        assert((a + b).take(i) =~= a.take(i));
    } else {
        assert((a + b).take(i) =~= a + b.take(i - a.len()));
    }
}

pub proof fn lemma_never_closes_concat(a: Seq<Token>, b: Seq<Token>)
    requires
        never_closes(a),
        never_closes(b),
        balance(a) >= 0,
    ensures
        never_closes(a + b),
{
    assert forall|i: int| 0 <= i <= (a + b).len() implies balance(#[trigger] (a + b).take(i))
        >= 0 by {
        lemma_take_concat(a, b, i);
        if i <= a.len() {
            assert(balance(a.take(i)) >= 0);
        } else {
            assert(balance(b.take(i - a.len())) >= 0);
            lemma_balance_concat(a, b.take(i - a.len()));
        }
    }
}

pub proof fn lemma_balance_empty()
    ensures
        balance(Seq::<Token>::empty()) == 0,
        never_closes(Seq::<Token>::empty()),
{
    assert forall|i: int|
        0 <= i <= Seq::<Token>::empty().len() implies balance(
        #[trigger] Seq::<Token>::empty().take(i),
    ) >= 0 by {
        assert(Seq::<Token>::empty().take(i) =~= Seq::<Token>::empty());
    }
}

pub proof fn lemma_balance_singleton(t: Token)
    ensures
        balance(seq![t]) == (if t == Token::Branch {
            1int
        } else if t == Token::Jump {
            -1int
        } else {
            0int
        }),
{
    assert(seq![t].drop_last() =~= Seq::<Token>::empty());
    assert(balance(Seq::<Token>::empty()) == 0);
    assert(seq![t].last() == t);
}

/// A block-close token ends a balanced stretch unambiguously: when two
/// balanced, never-closing stretches are each followed by a block-close
/// in one and the same stream, they are the same stretch.
pub proof fn lemma_close_boundary(a1: Seq<Token>, a2: Seq<Token>, w1: Seq<Token>, w2: Seq<Token>)
    requires
        a1 + seq![Token::Jump] + w1 == a2 + seq![Token::Jump] + w2,
        balance(a1) == 0,
        never_closes(a1),
        balance(a2) == 0,
        never_closes(a2),
    ensures
        a1 == a2,
        w1 == w2,
{
    let u = a1 + seq![Token::Jump] + w1;
    lemma_balance_singleton(Token::Jump);
    if a1.len() + 1 <= a2.len() {
        let i0 = a1.len() as int + 1;
        lemma_take_concat(a1 + seq![Token::Jump], w1, i0);
        assert(u =~= (a1 + seq![Token::Jump]) + w1);
        assert((a1 + seq![Token::Jump]).take(i0) =~= a1 + seq![Token::Jump]);
        lemma_balance_concat(a1, seq![Token::Jump]);
        assert(balance(u.take(i0)) == -1);
        assert(u =~= (a2 + seq![Token::Jump]) + w2);
        lemma_take_concat(a2 + seq![Token::Jump], w2, i0);
        assert((a2 + seq![Token::Jump]).take(i0) =~= a2.take(i0));
        assert(balance(a2.take(i0)) >= 0);
        assert(false);
    }
    if a2.len() + 1 <= a1.len() {
        let i0 = a2.len() as int + 1;
        lemma_take_concat(a2 + seq![Token::Jump], w2, i0);
        assert(u =~= (a2 + seq![Token::Jump]) + w2);
        assert((a2 + seq![Token::Jump]).take(i0) =~= a2 + seq![Token::Jump]);
        lemma_balance_concat(a2, seq![Token::Jump]);
        assert(balance(u.take(i0)) == -1);
        assert(u =~= (a1 + seq![Token::Jump]) + w1);
        lemma_take_concat(a1 + seq![Token::Jump], w1, i0);
        assert((a1 + seq![Token::Jump]).take(i0) =~= a1.take(i0));
        assert(balance(a1.take(i0)) >= 0);
        assert(false);
    }
    assert(a1.len() == a2.len());
    assert(u =~= (a1 + seq![Token::Jump]) + w1);
    assert(u =~= (a2 + seq![Token::Jump]) + w2);
    assert(u.len() == a1.len() + 1 + w1.len());
    assert(u.len() == a2.len() + 1 + w2.len());
    assert(w1.len() == w2.len());
    assert forall|i: int| 0 <= i < a1.len() implies a1[i] == a2[i] by {
        assert(u[i] == a1[i]);
        assert(u[i] == a2[i]);
    }
    assert(a1 =~= a2);
    assert forall|i: int| 0 <= i < w1.len() implies w1[i] == w2[i] by {
        let j = a1.len() as int + 1 + i;
        assert(u[j] == w1[i]);
        assert(u[j] == w2[i]);
    }
    assert(w1 =~= w2);
}

/// A single token that is no block-close opens at least as much as it
/// closes.
pub proof fn lemma_never_closes_singleton(t: Token)
    requires
        t != Token::Jump,
    ensures
        never_closes(seq![t]),
{
    let s = seq![t];
    assert(s.drop_last() =~= Seq::<Token>::empty());
    assert(balance(Seq::<Token>::empty()) == 0);
    assert(balance(s) >= 0);
    assert forall|i: int| 0 <= i <= s.len() implies balance(#[trigger] s.take(i)) >= 0 by {
        if i == 0 {
            assert(s.take(0) =~= Seq::<Token>::empty());
        } else {
            assert(s.take(1) =~= s);
        }
    }
    assert(never_closes(s));
}

} // verus!
