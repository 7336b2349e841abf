//! Tokens are the nodes of the tree that symbolization builds: a terminal
//! leaf holds a fragment of the original string, a non-terminal node holds a
//! label and the tokens it encompasses.

pub mod non_terminal_token;

use super::model::TokenView;
use super::model::collapse_ranges;
use super::model::token_at_path;
use super::model::replace_at_path;
use super::model::lemma_splice_one_index;
use super::model::node_of;
use super::model::range_span;
use super::model::ranges_wf;
use super::model::splice_one;
use super::model::splice_ranges;
use super::model::token_matches;
use super::model::token_text;
use super::symbol::Symbol;
use non_terminal_token::NonTerminalToken;
use vstd::prelude::*;

verus! {

/// A leaf of the token tree, holding literal text.
#[derive(Debug)]
pub struct TerminalToken(pub String);

impl Clone for TerminalToken {
    fn clone(&self) -> (r: Self)
        ensures
            r@ == self@,
    {
        TerminalToken(self.0.clone())
    }
}

impl View for TerminalToken {
    type V = Seq<char>;

    open spec fn view(&self) -> Seq<char> {
        self.0@
    }
}

impl TerminalToken {
    /// The literal text this leaf holds.
    pub fn get_terminals(&self) -> (r: &str)
        ensures
            r@ == self@,
    {
        self.0.as_str()
    }
}

/// A token is either a terminal leaf or a labeled node with children.
#[derive(Debug)]
pub enum Token {
    Terminal(TerminalToken),
    NonTerminalToken(NonTerminalToken),
}

impl Clone for Token {
    fn clone(&self) -> (r: Self)
        ensures
            r@ == self@,
        decreases *self,
    {
        match self {
            Token::Terminal(term) => Token::Terminal(term.clone()),
            Token::NonTerminalToken(n) => Token::NonTerminalToken(n.clone()),
        }
    }
}

/// The ghost view of a token tree.
pub open spec fn token_view(t: Token) -> TokenView
    decreases t,
{
    match t {
        Token::Terminal(term) => TokenView::Terminal(term.0@),
        Token::NonTerminalToken(n) => TokenView::Node {
            name: n.non_terminal_symbol@,
            children: token_seq_view(n.sub_tokens@),
        },
    }
}

/// The ghost view of a sequence of tokens, element by element.
pub open spec fn token_seq_view(ts: Seq<Token>) -> Seq<TokenView>
    decreases ts,
{
    if ts.len() == 0 {
        Seq::empty()
    } else {
        token_seq_view(ts.drop_last()).push(token_view(ts.last()))
    }
}

impl View for Token {
    type V = TokenView;

    open spec fn view(&self) -> TokenView {
        token_view(*self)
    }
}

/// The view of a token sequence indexes to the view of each token.
pub broadcast proof fn lemma_token_seq_view(ts: Seq<Token>)
    ensures
        (#[trigger] token_seq_view(ts)).len() == ts.len(),
        forall|i: int| 0 <= i < ts.len() ==> token_seq_view(ts)[i] == token_view(ts[i]),
    decreases ts,
{
    if ts.len() > 0 {
        lemma_token_seq_view(ts.drop_last());
    }
}

impl Token {
    /// Builds a terminal leaf from literal text (omit any delimiting quotes).
    pub fn from_terminal(terminal: &str) -> (r: Token)
        ensures
            r@ == TokenView::Terminal(terminal@),
    {
        Token::Terminal(TerminalToken(terminal.to_owned()))
    }

    /// Builds a labeled node from a symbol name (omit the angle brackets) and
    /// the child tokens it encompasses.
    pub fn from_non_terminal(non_terminal_symbol: &str, sub_tokens: Vec<Token>) -> (r: Token)
        ensures
            r@ == (TokenView::Node {
                name: non_terminal_symbol@,
                children: token_seq_view(sub_tokens@),
            }),
    {
        Token::NonTerminalToken(NonTerminalToken::new(non_terminal_symbol, sub_tokens))
    }

    /// True if this token is a terminal leaf.
    pub fn is_terminal(&self) -> (r: bool)
        ensures
            r == (self@ is Terminal),
    {
        match self {
            Token::Terminal(_) => true,
            Token::NonTerminalToken(_) => false,
        }
    }

    /// Whether this token is of the kind the symbol reference names: for a
    /// terminal symbol, a terminal leaf with that exact text; for a
    /// non-terminal symbol, a node with that label, whatever its children.
    pub fn is_of_type(&self, t: &Symbol) -> (r: bool)
        ensures
            r == token_matches(self@, t@),
    {
        match (self, t) {
            (Token::Terminal(term), Symbol::Terminal(text)) => term.0.eq(text),
            (Token::NonTerminalToken(n), Symbol::NonTerminal(name)) => n.non_terminal_symbol.eq(
                name,
            ),
            _ => false,
        }
    }

    /// The text this token stands for: for a node, the concatenation of the
    /// text of all its leaves, left to right.
    pub fn get_terminals(&self) -> (r: String)
        ensures
            r@ == token_text(self@),
        decreases *self,
    {
        match self {
            Token::Terminal(term) => term.0.clone(),
            Token::NonTerminalToken(n) => n.get_terminals(),
        }
    }

    /// Resolves a path of child offsets to the descendant it addresses, or
    /// nothing: for a terminal leaf, always nothing.
    pub fn get(&self, token_index: &TokenIndex) -> (r: Option<&Token>)
        ensures
            r is Some <==> token_at_path(self@, token_index@) is Some,
            r matches Some(c) ==> token_at_path(self@, token_index@) == Some(c@),
    {
        match self {
            Token::NonTerminalToken(non_terminal) => non_terminal.get_at_index(token_index),
            Token::Terminal(_) => None,
        }
    }

    /// Resolves a path of child offsets to a mutable reference to the
    /// descendant it addresses, or nothing: for a terminal leaf, or a path
    /// that resolves to nothing, the token is left unchanged.
    pub fn get_mut(&mut self, token_index: TokenIndex) -> (r: Option<&mut Token>)
        ensures
            r is Some <==> token_at_path(old(self)@, token_index@) is Some,
            r is Some ==> (*r.unwrap())@ == token_at_path(old(self)@, token_index@).unwrap()
                && final(self)@ == replace_at_path(
                old(self)@,
                token_index@,
                (*final(r.unwrap()))@,
            ),
            r is None ==> *final(self) == *old(self),
    {
        match self {
            Token::NonTerminalToken(non_terminal) => non_terminal.get_at_index_mut(token_index),
            Token::Terminal(_) => None,
        }
    }

    /// The paths of this token's immediate children, or nothing for a
    /// terminal leaf.
    pub fn get_child_indexes(&self) -> (r: Option<Vec<TokenIndex>>)
        ensures
            r is Some <==> self@ is Node,
            r matches Some(v) ==> {
                &&& v@.len() == self@->children.len()
                &&& forall|k: int| 0 <= k < v@.len() ==> (#[trigger] v@[k])@ == seq![k as usize]
            },
    {
        match self {
            Token::NonTerminalToken(non_terminal) => Some(non_terminal.get_child_indexes()),
            Token::Terminal(_) => None,
        }
    }

    /// The node's symbol name, or the terminal's own text.
    pub fn get_symbol(&self) -> (r: &str)
        ensures
            match self@ {
                TokenView::Terminal(text) => r@ == text,
                TokenView::Node { name, children: _ } => r@ == name,
            },
    {
        match self {
            Token::Terminal(terminal) => terminal.get_terminals(),
            Token::NonTerminalToken(inner) => inner.non_terminal_symbol.as_str(),
        }
    }

    /// This token's terminal leaf, or nothing if it is a node.
    pub fn to_terminal(self) -> (r: Option<TerminalToken>)
        ensures
            r matches Some(t) ==> self@ == TokenView::Terminal(t@),
            r is Some <==> self@ is Terminal,
    {
        match self {
            Token::Terminal(terminal) => Some(terminal),
            _ => None,
        }
    }

    /// This token's node, or nothing if it is a terminal leaf.
    pub fn to_non_terminal(self) -> (r: Option<NonTerminalToken>)
        ensures
            r matches Some(n) ==> self@ == n@,
            r is Some <==> self@ is Node,
    {
        match self {
            Token::NonTerminalToken(non_terminal) => Some(non_terminal),
            _ => None,
        }
    }

    /// A reference to this token's terminal leaf, or nothing.
    pub fn to_terminal_token_ref(&self) -> (r: Option<&TerminalToken>)
        ensures
            r matches Some(t) ==> self@ == TokenView::Terminal(t@),
            r is Some <==> self@ is Terminal,
    {
        match self {
            Token::Terminal(terminal) => Some(terminal),
            _ => None,
        }
    }

    /// A reference to this token's node, or nothing.
    pub fn to_non_terminal_ref(&self) -> (r: Option<&NonTerminalToken>)
        ensures
            r matches Some(n) ==> self@ == n@,
            r is Some <==> self@ is Node,
    {
        match self {
            Token::NonTerminalToken(non_terminal) => Some(non_terminal),
            _ => None,
        }
    }
}

/// A path of child offsets addressing a descendant of a token tree,
/// relative to a starting node: each step descends into the numbered child.
/// An empty path resolves to nothing.
#[derive(Debug)]
pub struct TokenIndex(pub Vec<usize>);

impl View for TokenIndex {
    type V = Seq<usize>;

    open spec fn view(&self) -> Seq<usize> {
        self.0@
    }
}

impl Clone for TokenIndex {
    fn clone(&self) -> (r: Self)
        ensures
            r@ == self@,
    {
        let mut steps: Vec<usize> = Vec::new();
        let mut i: usize = 0;
        while i < self.0.len()
            invariant
                i <= self.0@.len(),
                steps@ == self.0@.take(i as int),
            decreases self.0@.len() - i,
        {
            steps.push(self.0[i]);
            proof {
                assert(self.0@.take(i + 1) =~= self.0@.take(i as int).push(self.0@[i as int]));
            }
            i = i + 1;
        }
        proof {
            assert(self.0@.take(i as int) =~= self.0@);
        }
        TokenIndex(steps)
    }
}

/// Structural equality of two token trees: same shape, same labels, same
/// leaf text.
fn token_eq(a: &Token, b: &Token) -> (r: bool)
    ensures
        r == (a@ == b@),
    decreases *a,
{
    match a {
        Token::Terminal(ta) => match b {
            Token::Terminal(tb) => ta.0.eq(&tb.0),
            Token::NonTerminalToken(_) => false,
        },
        Token::NonTerminalToken(na) => match b {
            Token::Terminal(_) => false,
            Token::NonTerminalToken(nb) => node_eq(na, nb),
        },
    }
}

/// Structural equality of two nodes: same label, same children.
fn node_eq(a: &NonTerminalToken, b: &NonTerminalToken) -> (r: bool)
    ensures
        r == (a@ == b@),
    decreases *a,
{
    if !a.non_terminal_symbol.eq(&b.non_terminal_symbol) {
        return false;
    }
    proof {
        lemma_token_seq_view(a.sub_tokens@);
        lemma_token_seq_view(b.sub_tokens@);
    }
    if a.sub_tokens.len() != b.sub_tokens.len() {
        return false;
    }
    let mut i: usize = 0;
    while i < a.sub_tokens.len()
        invariant
            i <= a.sub_tokens@.len(),
            a.sub_tokens@.len() == b.sub_tokens@.len(),
            forall|k: int|
                0 <= k < i ==> token_view(#[trigger] a.sub_tokens@[k]) == token_view(
                    b.sub_tokens@[k],
                ),
        decreases a.sub_tokens@.len() - i,
    {
        if !token_eq(&a.sub_tokens[i], &b.sub_tokens[i]) {
            proof {
                lemma_token_seq_view(a.sub_tokens@);
                lemma_token_seq_view(b.sub_tokens@);
                assert(token_view(a.sub_tokens@[i as int]) != token_view(b.sub_tokens@[i as int]));
                assert(token_seq_view(a.sub_tokens@)[i as int] != token_seq_view(
                    b.sub_tokens@,
                )[i as int]);
                assert(token_seq_view(a.sub_tokens@) != token_seq_view(b.sub_tokens@));
            }
            return false;
        }
        i = i + 1;
    }
    proof {
        lemma_token_seq_view(a.sub_tokens@);
        lemma_token_seq_view(b.sub_tokens@);
        assert(token_seq_view(a.sub_tokens@) =~= token_seq_view(b.sub_tokens@));
    }
    true
}

impl PartialEq for Token {
    fn eq(&self, other: &Self) -> (r: bool) {
        token_eq(self, other)
    }
}

impl vstd::std_specs::cmp::PartialEqSpecImpl for Token {
    open spec fn obeys_eq_spec() -> bool {
        true
    }

    open spec fn eq_spec(&self, other: &Token) -> bool {
        self@ == other@
    }
}

impl Eq for Token {

}

/// Splicing nodes that wrap exactly the replaced tokens is, seen through
/// the views, the collapse of those ranges.
pub proof fn lemma_token_splice_views(
    toks: Seq<Token>,
    rs: Seq<(int, int)>,
    reps: Seq<Token>,
    name: Seq<char>,
)
    requires
        ranges_wf(rs, toks.len() as int),
        reps.len() == rs.len(),
        forall|k: int|
            0 <= k < rs.len() ==> token_view(#[trigger] reps[k]) == node_of(
                name,
                token_seq_view(toks.subrange(rs[k].0, rs[k].1)),
            ),
    ensures
        token_seq_view(splice_ranges(toks, rs, reps)) == collapse_ranges(
            token_seq_view(toks),
            rs,
            name,
        ),
    decreases rs.len(),
{
    lemma_token_seq_view(toks);
    if rs.len() > 0 {
        let r = rs.last();
        let rep = reps.last();
        let span = range_span(r);
        assert(0 <= r.0 <= r.1 <= toks.len());
        lemma_splice_one_index(toks, r, rep);
        let s1 = splice_one(toks, r, rep);
        let tv = token_seq_view(toks);
        assert(tv.len() == toks.len());
        lemma_splice_one_index(tv, r, node_of(name, tv.subrange(r.0, r.1)));
        let v1 = splice_one(tv, r, node_of(name, tv.subrange(r.0, r.1)));
        lemma_token_seq_view(s1);
        assert(token_seq_view(toks.subrange(r.0, r.1)) =~= tv.subrange(r.0, r.1)) by {
            lemma_token_seq_view(toks.subrange(r.0, r.1));
        }
        assert(token_seq_view(s1) =~= v1) by {
            assert forall|q: int| 0 <= q < s1.len() implies token_view(s1[q]) == v1[q] by {
                if q < r.0 {
                    assert(s1[q] == toks[q]);
                    assert(v1[q] == tv[q]);
                } else if q == r.0 {
                    assert(s1[q] == rep);
                    assert(v1[q] == node_of(name, tv.subrange(r.0, r.1)));
                    assert(token_view(rep) == node_of(
                        name,
                        token_seq_view(toks.subrange(r.0, r.1)),
                    ));
                } else {
                    assert(s1[q] == toks[q + span - 1]);
                    assert(v1[q] == tv[q + span - 1]);
                }
            }
        }
        let dl = rs.drop_last();
        assert(s1.len() == toks.len() - span + 1);
        assert forall|k: int| 0 <= k < dl.len() implies (#[trigger] dl[k]).1 <= r.0 by {
            assert(dl[k] == rs[k]);
            assert(rs[k].1 <= rs[rs.len() - 1].0);
        }
        assert(ranges_wf(dl, s1.len() as int)) by {
            assert forall|k: int| 0 <= k < dl.len() implies 0 <= (#[trigger] dl[k]).0 <= dl[k].1
                <= s1.len() by {
                assert(dl[k] == rs[k]);
            }
            assert forall|k: int, l: int| 0 <= k < l < dl.len() implies (#[trigger] dl[k]).1
                <= (#[trigger] dl[l]).0 by {
                assert(dl[k] == rs[k] && dl[l] == rs[l]);
            }
        }
        assert forall|k: int| 0 <= k < dl.len() implies token_view(#[trigger] reps.drop_last()[k])
            == node_of(name, token_seq_view(s1.subrange(dl[k].0, dl[k].1))) by {
            assert(reps.drop_last()[k] == reps[k]);
            assert(dl[k] == rs[k]);
            assert(s1.subrange(rs[k].0, rs[k].1) =~= toks.subrange(rs[k].0, rs[k].1)) by {
                assert forall|q: int| rs[k].0 <= q < rs[k].1 implies s1[q] == toks[q] by {
                    assert(q < r.0);
                }
            }
        }
        lemma_token_splice_views(s1, dl, reps.drop_last(), name);
        assert(collapse_ranges(tv, rs, name) == collapse_ranges(v1, dl, name));
        assert(token_seq_view(splice_ranges(toks, rs, reps)) == token_seq_view(
            splice_ranges(s1, dl, reps.drop_last()),
        ));
    }
}

} // verus!
