//! A non-terminal token: an interior node of the token tree, labeled with
//! the name of the grammar symbol it was collapsed into.

use super::super::model::SymbolView;
use super::super::model::TokenView;
use super::super::model::any_descendant_matches;
use super::super::model::first_match;
use super::super::model::first_subtree_match;
use super::super::model::lemma_first_match_at;
use super::super::model::lemma_first_match_none;
use super::super::model::lemma_first_subtree_match_at;
use super::super::model::lemma_first_subtree_match_none;
use super::super::model::matching_tokens;
use super::super::model::token_at_path;
use super::super::model::replace_at_path;
use super::super::model::token_descendants;
use super::super::model::token_matches;
use super::super::model::token_text;
use super::super::model::tokens_text;
use super::super::model::tokens_with_descendants;
use super::super::symbol::Symbol;
use super::Token;
use super::TokenIndex;
use super::token_seq_view;
use super::token_view;
use super::lemma_token_seq_view;
use vstd::prelude::*;

verus! {

/// An interior node of the token tree: a symbol name (angle brackets
/// excluded) and the ordered child tokens it encompasses.
#[derive(Debug)]
pub struct NonTerminalToken {
    /// The name of the non-terminal symbol this node was collapsed into.
    pub non_terminal_symbol: String,
    pub sub_tokens: Vec<Token>,
}

impl View for NonTerminalToken {
    type V = TokenView;

    open spec fn view(&self) -> TokenView {
        TokenView::Node { name: self.non_terminal_symbol@, children: token_seq_view(self.sub_tokens@) }
    }
}

impl Clone for NonTerminalToken {
    fn clone(&self) -> (r: Self)
        ensures
            r@ == self@,
        decreases *self,
    {
        let mut sub_tokens: Vec<Token> = Vec::new();
        let mut i: usize = 0;
        while i < self.sub_tokens.len()
            invariant
                i <= self.sub_tokens.len(),
                sub_tokens@.len() == i,
                forall|j: int|
                    0 <= j < i ==> token_view(#[trigger] sub_tokens@[j]) == token_view(
                        self.sub_tokens@[j],
                    ),
            decreases self.sub_tokens.len() - i,
        {
            sub_tokens.push(self.sub_tokens[i].clone());
            i = i + 1;
        }
        proof {
            lemma_token_seq_view(sub_tokens@);
            lemma_token_seq_view(self.sub_tokens@);
            assert(token_seq_view(sub_tokens@) =~= token_seq_view(self.sub_tokens@));
        }
        NonTerminalToken { non_terminal_symbol: self.non_terminal_symbol.clone(), sub_tokens }
    }
}

impl NonTerminalToken {
    /// Builds a node from a symbol name (omit the angle brackets) and its
    /// child tokens.
    pub fn new(name: &str, sub_tokens: Vec<Token>) -> (r: NonTerminalToken)
        ensures
            r@ == (TokenView::Node { name: name@, children: token_seq_view(sub_tokens@) }),
    {
        NonTerminalToken { non_terminal_symbol: name.to_owned(), sub_tokens }
    }

    /// The text this node stands for: the concatenation of the text of all
    /// its leaves, left to right.
    pub fn get_terminals(&self) -> (r: String)
        ensures
            r@ == token_text(self@),
        decreases *self,
    {
        let mut out = String::new();
        let mut i: usize = 0;
        proof {
            lemma_token_seq_view(self.sub_tokens@);
        }
        while i < self.sub_tokens.len()
            invariant
                i <= self.sub_tokens.len(),
                out@ == tokens_text(token_seq_view(self.sub_tokens@).subrange(0, i as int)),
            decreases self.sub_tokens.len() - i,
        {
            proof {
                lemma_token_seq_view(self.sub_tokens@);
            }
            let piece = self.sub_tokens[i].get_terminals();
            out.append(piece.as_str());
            proof {
                let views = token_seq_view(self.sub_tokens@);
                assert(views.subrange(0, (i + 1) as int).drop_last() =~= views.subrange(0, i as int));
                assert(views.subrange(0, (i + 1) as int).last() == views[i as int]);
            }
            i = i + 1;
        }
        proof {
            let views = token_seq_view(self.sub_tokens@);
            assert(views.subrange(0, self.sub_tokens@.len() as int) =~= views);
        }
        out
    }

    /// The view of a list of borrowed tokens, element by element.
    pub open spec fn spec_refs_views(ts: Seq<&Token>) -> Seq<TokenView> {
        ts.map_values(|t: &Token| token_view(*t))
    }

    /// The symbol reference this node answers to: its name as a
    /// non-terminal.
    pub fn get_type(&self) -> (r: Symbol)
        ensures
            r@ == SymbolView::NonTerminal(self@->name),
    {
        Symbol::NonTerminal(self.non_terminal_symbol.clone())
    }

    /// The paths of this node's immediate children relative to itself: one
    /// single-step path per child, in order.
    pub fn get_child_indexes(&self) -> (r: Vec<TokenIndex>)
        ensures
            r@.len() == self@->children.len(),
            forall|k: int| 0 <= k < r@.len() ==> (#[trigger] r@[k])@ == seq![k as usize],
    {
        proof {
            lemma_token_seq_view(self.sub_tokens@);
        }
        let mut out: Vec<TokenIndex> = Vec::new();
        let mut i: usize = 0;
        while i < self.sub_tokens.len()
            invariant
                i <= self.sub_tokens@.len(),
                out@.len() == i,
                forall|k: int| 0 <= k < i ==> (#[trigger] out@[k])@ == seq![k as usize],
            decreases self.sub_tokens@.len() - i,
        {
            let mut steps: Vec<usize> = Vec::new();
            steps.push(i);
            proof {
                assert(steps@ =~= seq![i]);
            }
            out.push(TokenIndex(steps));
            i = i + 1;
        }
        proof {
            lemma_token_seq_view(self.sub_tokens@);
        }
        out
    }

    /// Resolves a path of child offsets, relative to this node, to the
    /// descendant it addresses; nothing for an empty path, a step out of
    /// range, or a step into a terminal leaf.
    pub fn get_at_index(&self, token_index: &TokenIndex) -> (r: Option<&Token>)
        ensures
            r is Some <==> token_at_path(self@, token_index@) is Some,
            r matches Some(c) ==> token_at_path(self@, token_index@) == Some(c@),
    {
        proof {
            assert(token_index.0@.skip(0) =~= token_index.0@);
        }
        self.at_path(&token_index.0, 0)
    }

    /// Path resolution from step `pos` on.
    fn at_path(&self, path: &Vec<usize>, pos: usize) -> (r: Option<&Token>)
        requires
            pos <= path@.len(),
        ensures
            r is Some <==> token_at_path(self@, path@.skip(pos as int)) is Some,
            r matches Some(c) ==> token_at_path(self@, path@.skip(pos as int)) == Some(c@),
        decreases path@.len() - pos,
    {
        let ghost rest = path@.skip(pos as int);
        proof {
            lemma_token_seq_view(self.sub_tokens@);
        }
        if pos == path.len() {
            return None;
        }
        proof {
            assert(rest.len() == path@.len() - pos);
            assert(rest[0] == path@[pos as int]);
        }
        let i = path[pos];
        if i >= self.sub_tokens.len() {
            return None;
        }
        if pos + 1 == path.len() {
            proof {
                assert(token_at_path(self@, rest) == Some(token_seq_view(self.sub_tokens@)[i as int]));
            }
            return Some(&self.sub_tokens[i]);
        }
        proof {
            assert(rest.drop_first() =~= path@.skip(pos + 1));
            assert(token_at_path(self@, rest) == token_at_path(
                token_seq_view(self.sub_tokens@)[i as int],
                path@.skip(pos + 1),
            ));
        }
        match &self.sub_tokens[i] {
            Token::NonTerminalToken(non_terminal) => non_terminal.at_path(path, pos + 1),
            Token::Terminal(_) => {
                proof {
                    assert(path@.skip(pos + 1).len() > 0);
                }
                None
            },
        }
    }

    /// A reference to this node's child tokens, in order.
    pub fn get_child_tokens(&self) -> (r: &Vec<Token>)
        ensures
            r@ == self.sub_tokens@,
            token_seq_view(r@) == self@->children,
    {
        &self.sub_tokens
    }

    /// Every descendant of this node in left-to-right pre-order: each child
    /// is listed, then recursively its own children, so an ancestor comes
    /// before its descendants and a self-recursive label may appear many
    /// times nested.
    pub fn get_descendant_tokens(&self) -> (r: Vec<&Token>)
        ensures
            Self::spec_refs_views(r@) == token_descendants(self@),
        decreases *self,
    {
        proof {
            lemma_token_seq_view(self.sub_tokens@);
        }
        let ghost cv = token_seq_view(self.sub_tokens@);
        let mut out: Vec<&Token> = Vec::new();
        let mut i: usize = 0;
        while i < self.sub_tokens.len()
            invariant
                i <= self.sub_tokens@.len(),
                cv == token_seq_view(self.sub_tokens@),
                cv.len() == self.sub_tokens@.len(),
                forall|k: int|
                    0 <= k < self.sub_tokens@.len() ==> token_view(#[trigger] self.sub_tokens@[k])
                        == cv[k],
                Self::spec_refs_views(out@) == tokens_with_descendants(cv.take(i as int)),
            decreases self.sub_tokens@.len() - i,
        {
            let ghost before = out@;
            let sub_token = &self.sub_tokens[i];
            out.push(sub_token);
            match sub_token {
                Token::Terminal(_) => {
                    proof {
                        assert(token_descendants(cv[i as int]) =~= Seq::<TokenView>::empty());
                        assert(cv.take(i + 1).drop_last() =~= cv.take(i as int));
                        assert(cv.take(i + 1).last() == cv[i as int]);
                        assert(Self::spec_refs_views(out@) =~= tokens_with_descendants(
                            cv.take(i + 1),
                        ));
                    }
                },
                Token::NonTerminalToken(non_terminal) => {
                    let mut deeper = non_terminal.get_descendant_tokens();
                    let ghost mid = out@;
                    let ghost deeper_snap = deeper@;
                    out.append(&mut deeper);
                    proof {
                        assert(cv[i as int] == non_terminal@);
                        assert(cv.take(i + 1).drop_last() =~= cv.take(i as int));
                        assert(cv.take(i + 1).last() == cv[i as int]);
                        assert(Self::spec_refs_views(out@) =~= Self::spec_refs_views(mid)
                            + Self::spec_refs_views(deeper_snap));
                        assert(Self::spec_refs_views(mid) =~= Self::spec_refs_views(before).push(
                            token_view(*sub_token),
                        ));
                        assert(Self::spec_refs_views(before).push(token_view(*sub_token)) =~= Self::spec_refs_views(before) + seq![cv[i as int]]);
                        assert(Self::spec_refs_views(out@) =~= tokens_with_descendants(
                            cv.take(i + 1),
                        ));
                    }
                },
            }
            i = i + 1;
        }
        proof {
            assert(cv.take(i as int) =~= cv);
        }
        out
    }

    /// The children of this node that are of the symbol's kind, in order.
    pub fn get_child_tokens_of_type(&self, symbol_type: &Symbol) -> (r: Vec<&Token>)
        ensures
            Self::spec_refs_views(r@) == matching_tokens(self@->children, symbol_type@),
    {
        proof {
            lemma_token_seq_view(self.sub_tokens@);
        }
        let ghost cv = token_seq_view(self.sub_tokens@);
        let mut out: Vec<&Token> = Vec::new();
        let mut i: usize = 0;
        while i < self.sub_tokens.len()
            invariant
                i <= self.sub_tokens@.len(),
                cv == token_seq_view(self.sub_tokens@),
                cv.len() == self.sub_tokens@.len(),
                forall|k: int|
                    0 <= k < self.sub_tokens@.len() ==> token_view(#[trigger] self.sub_tokens@[k])
                        == cv[k],
                Self::spec_refs_views(out@) == matching_tokens(cv.take(i as int), symbol_type@),
            decreases self.sub_tokens@.len() - i,
        {
            let ghost before = out@;
            proof {
                assert(cv.take(i + 1).drop_last() =~= cv.take(i as int));
                assert(cv.take(i + 1).last() == cv[i as int]);
            }
            if self.sub_tokens[i].is_of_type(symbol_type) {
                out.push(&self.sub_tokens[i]);
                proof {
                    assert(Self::spec_refs_views(out@) =~= Self::spec_refs_views(before).push(
                        cv[i as int],
                    ));
                }
            }
            i = i + 1;
        }
        proof {
            assert(cv.take(i as int) =~= cv);
        }
        out
    }

    /// The descendants of this node that are of the symbol's kind, in
    /// pre-order.
    pub fn get_descendant_tokens_of_type(&self, symbol_type: &Symbol) -> (r: Vec<&Token>)
        ensures
            Self::spec_refs_views(r@) == matching_tokens(token_descendants(self@), symbol_type@),
    {
        let all = self.get_descendant_tokens();
        let ghost av = Self::spec_refs_views(all@);
        let mut out: Vec<&Token> = Vec::new();
        let mut i: usize = 0;
        while i < all.len()
            invariant
                i <= all@.len(),
                av == Self::spec_refs_views(all@),
                av.len() == all@.len(),
                forall|k: int|
                    0 <= k < all@.len() ==> token_view(*(#[trigger] all@[k])) == av[k],
                Self::spec_refs_views(out@) == matching_tokens(av.take(i as int), symbol_type@),
            decreases all@.len() - i,
        {
            let ghost before = out@;
            proof {
                assert(av.take(i + 1).drop_last() =~= av.take(i as int));
                assert(av.take(i + 1).last() == av[i as int]);
            }
            if all[i].is_of_type(symbol_type) {
                out.push(all[i]);
                proof {
                    assert(Self::spec_refs_views(out@) =~= Self::spec_refs_views(before).push(
                        av[i as int],
                    ));
                }
            }
            i = i + 1;
        }
        proof {
            assert(av.take(i as int) =~= av);
        }
        out
    }

    /// Whether some child of this node is of the symbol's kind.
    pub fn contains_child(&self, sub_token_type: &Symbol) -> (r: bool)
        ensures
            r == exists|k: int|
                0 <= k < self@->children.len() && token_matches(
                    #[trigger] self@->children[k],
                    sub_token_type@,
                ),
    {
        proof {
            lemma_token_seq_view(self.sub_tokens@);
        }
        let ghost cv = token_seq_view(self.sub_tokens@);
        let mut i: usize = 0;
        while i < self.sub_tokens.len()
            invariant
                i <= self.sub_tokens@.len(),
                cv == token_seq_view(self.sub_tokens@),
                cv.len() == self.sub_tokens@.len(),
                forall|k: int|
                    0 <= k < self.sub_tokens@.len() ==> token_view(#[trigger] self.sub_tokens@[k])
                        == cv[k],
                forall|k: int| 0 <= k < i ==> !token_matches(#[trigger] cv[k], sub_token_type@),
            decreases self.sub_tokens@.len() - i,
        {
            if self.sub_tokens[i].is_of_type(sub_token_type) {
                proof {
                    assert(self@->children == cv);
                    assert(token_matches(self@->children[i as int], sub_token_type@));
                }
                return true;
            }
            i = i + 1;
        }
        proof {
            assert(self@->children == cv);
            if exists|k: int|
                0 <= k < self@->children.len() && token_matches(
                    #[trigger] self@->children[k],
                    sub_token_type@,
                ) {
                let k = choose|k: int|
                    0 <= k < self@->children.len() && token_matches(
                        #[trigger] self@->children[k],
                        sub_token_type@,
                    );
            }
        }
        false
    }

    /// Whether some descendant of this node, at any depth, is of the
    /// symbol's kind.
    pub fn contains_descendant(&self, sub_token_type: &Symbol) -> (r: bool)
        ensures
            r == any_descendant_matches(self@, sub_token_type@),
        decreases *self,
    {
        proof {
            lemma_token_seq_view(self.sub_tokens@);
        }
        let ghost cv = token_seq_view(self.sub_tokens@);
        let mut i: usize = 0;
        while i < self.sub_tokens.len()
            invariant
                i <= self.sub_tokens@.len(),
                cv == token_seq_view(self.sub_tokens@),
                cv.len() == self.sub_tokens@.len(),
                forall|k: int|
                    0 <= k < self.sub_tokens@.len() ==> token_view(#[trigger] self.sub_tokens@[k])
                        == cv[k],
                forall|k: int|
                    0 <= k < i ==> !(token_matches(#[trigger] cv[k], sub_token_type@)
                        || any_descendant_matches(cv[k], sub_token_type@)),
            decreases self.sub_tokens@.len() - i,
        {
            if self.sub_tokens[i].is_of_type(sub_token_type) {
                proof {
                    assert(self@->children == cv);
                    assert(token_matches(self@->children[i as int], sub_token_type@));
                    assert(any_descendant_matches(self@, sub_token_type@));
                }
                return true;
            }
            let deeper = match &self.sub_tokens[i] {
                Token::NonTerminalToken(inner) => inner.contains_descendant(sub_token_type),
                _ => false,
            };
            if deeper {
                proof {
                    assert(self@->children == cv);
                    match self.sub_tokens@[i as int] {
                        Token::NonTerminalToken(inner) => {
                            assert(cv[i as int] == inner@);
                            assert(any_descendant_matches(self@->children[i as int], sub_token_type@));
                        },
                        Token::Terminal(_) => {},
                    }
                    assert(any_descendant_matches(self@, sub_token_type@));
                }
                return true;
            }
            proof {
                match self.sub_tokens@[i as int] {
                    Token::NonTerminalToken(inner) => {
                        assert(cv[i as int] == inner@);
                    },
                    Token::Terminal(_) => {
                        assert(!any_descendant_matches(cv[i as int], sub_token_type@));
                    },
                }
            }
            i = i + 1;
        }
        proof {
            assert(self@->children == cv);
            if any_descendant_matches(self@, sub_token_type@) {
                let k = choose|k: int|
                    0 <= k < cv.len() && (token_matches(#[trigger] cv[k], sub_token_type@)
                        || any_descendant_matches(cv[k], sub_token_type@));
            }
        }
        false
    }

    /// A reference to the first child of the symbol's kind, if any.
    pub fn find_child(&self, sub_token_type: &Symbol) -> (r: Option<&Token>)
        ensures
            r is Some <==> first_match(self@->children, sub_token_type@) is Some,
            r matches Some(c) ==> first_match(self@->children, sub_token_type@) matches Some(k)
                && c@ == self@->children[k],
    {
        proof {
            lemma_token_seq_view(self.sub_tokens@);
        }
        let ghost cv = token_seq_view(self.sub_tokens@);
        let mut i: usize = 0;
        while i < self.sub_tokens.len()
            invariant
                i <= self.sub_tokens@.len(),
                cv == token_seq_view(self.sub_tokens@),
                cv.len() == self.sub_tokens@.len(),
                forall|k: int|
                    0 <= k < self.sub_tokens@.len() ==> token_view(#[trigger] self.sub_tokens@[k])
                        == cv[k],
                forall|k: int| 0 <= k < i ==> !token_matches(#[trigger] cv[k], sub_token_type@),
            decreases self.sub_tokens@.len() - i,
        {
            if self.sub_tokens[i].is_of_type(sub_token_type) {
                proof {
                    assert(self@->children == cv);
                    lemma_first_match_at(cv, sub_token_type@, i as int);
                }
                return Some(&self.sub_tokens[i]);
            }
            i = i + 1;
        }
        proof {
            assert(self@->children == cv);
            lemma_first_match_none(cv, sub_token_type@);
        }
        None
    }

    /// A reference to the first child that is of the symbol's kind or has a
    /// descendant of it, if any.
    pub fn find_descendant(&self, sub_token_type: &Symbol) -> (r: Option<&Token>)
        ensures
            r is Some <==> first_subtree_match(self@->children, sub_token_type@) is Some,
            r matches Some(c) ==> first_subtree_match(self@->children, sub_token_type@)
                matches Some(k) && c@ == self@->children[k],
    {
        proof {
            lemma_token_seq_view(self.sub_tokens@);
        }
        let ghost cv = token_seq_view(self.sub_tokens@);
        let mut i: usize = 0;
        while i < self.sub_tokens.len()
            invariant
                i <= self.sub_tokens@.len(),
                cv == token_seq_view(self.sub_tokens@),
                cv.len() == self.sub_tokens@.len(),
                forall|k: int|
                    0 <= k < self.sub_tokens@.len() ==> token_view(#[trigger] self.sub_tokens@[k])
                        == cv[k],
                forall|k: int|
                    0 <= k < i ==> !(token_matches(#[trigger] cv[k], sub_token_type@)
                        || any_descendant_matches(cv[k], sub_token_type@)),
            decreases self.sub_tokens@.len() - i,
        {
            let direct = self.sub_tokens[i].is_of_type(sub_token_type);
            let deeper = match &self.sub_tokens[i] {
                Token::NonTerminalToken(inner) => inner.contains_descendant(sub_token_type),
                Token::Terminal(_) => false,
            };
            proof {
                match self.sub_tokens@[i as int] {
                    Token::NonTerminalToken(inner) => {
                        assert(cv[i as int] == inner@);
                    },
                    Token::Terminal(_) => {
                        assert(!any_descendant_matches(cv[i as int], sub_token_type@));
                    },
                }
            }
            if direct || deeper {
                proof {
                    assert(self@->children == cv);
                    lemma_first_subtree_match_at(cv, sub_token_type@, i as int);
                }
                return Some(&self.sub_tokens[i]);
            }
            i = i + 1;
        }
        proof {
            assert(self@->children == cv);
            lemma_first_subtree_match_none(cv, sub_token_type@);
        }
        None
    }

    /// A mutable reference to this node's child tokens.
    pub fn get_child_tokens_mut(&mut self) -> (r: &mut Vec<Token>)
        ensures
            *r == old(self).sub_tokens,
            final(self).non_terminal_symbol == old(self).non_terminal_symbol,
            final(self).sub_tokens == *final(r),
    {
        &mut self.sub_tokens
    }

    /// Resolves a path of child offsets, relative to this node, to a
    /// mutable reference to the descendant it addresses; where the path
    /// resolves to nothing, the node is left unchanged.
    pub fn get_at_index_mut(&mut self, token_index: TokenIndex) -> (r: Option<&mut Token>)
        ensures
            r is Some <==> token_at_path(old(self)@, token_index@) is Some,
            r is Some ==> (*r.unwrap())@ == token_at_path(old(self)@, token_index@).unwrap()
                && final(self)@ == replace_at_path(
                old(self)@,
                token_index@,
                (*final(r.unwrap()))@,
            ),
            r is None ==> *final(self) == *old(self),
    {
        proof {
            assert(token_index.0@.skip(0) =~= token_index.0@);
        }
        self.at_path_mut(&token_index.0, 0)
    }

    /// Mutable path resolution from step `pos` on.
    fn at_path_mut(&mut self, path: &Vec<usize>, pos: usize) -> (r: Option<&mut Token>)
        requires
            pos <= path@.len(),
        ensures
            r is Some <==> token_at_path(old(self)@, path@.skip(pos as int)) is Some,
            r is Some ==> (*r.unwrap())@ == token_at_path(
                old(self)@,
                path@.skip(pos as int),
            ).unwrap() && final(self)@ == replace_at_path(
                old(self)@,
                path@.skip(pos as int),
                (*final(r.unwrap()))@,
            ),
            r is None ==> *final(self) == *old(self),
        decreases path@.len() - pos,
    {
        let ghost rest = path@.skip(pos as int);
        proof {
            lemma_token_seq_view(self.sub_tokens@);
        }
        if pos == path.len() {
            return None;
        }
        proof {
            assert(rest.len() == path@.len() - pos);
            assert(rest[0] == path@[pos as int]);
        }
        let i = path[pos];
        if i >= self.sub_tokens.len() {
            return None;
        }
        if pos + 1 == path.len() {
            let ghost subs0 = self.sub_tokens@;
            let child = &mut self.sub_tokens[i];
            proof {
                assert(token_at_path(old(self)@, rest) == Some(token_seq_view(subs0)[i as int]));
            }
            assert(token_seq_view(subs0.update(i as int, *final(child))) =~= token_seq_view(
                subs0,
            ).update(i as int, (*final(child))@)) by {
                lemma_token_seq_view(subs0.update(i as int, *final(child)));
                lemma_token_seq_view(subs0);
            }
            return Some(child);
        }
        proof {
            assert(rest.drop_first() =~= path@.skip(pos + 1));
        }
        let ghost subs0 = self.sub_tokens@;
        proof {
            lemma_token_seq_view(subs0);
            assert(token_at_path(old(self)@, rest) == token_at_path(
                token_seq_view(subs0)[i as int],
                path@.skip(pos + 1),
            ));
        }
        // resolve the rest of the path read-only first, so that a miss
        // leaves the node untouched
        let resolves = match &self.sub_tokens[i] {
            Token::NonTerminalToken(deeper) => deeper.at_path(path, pos + 1).is_some(),
            Token::Terminal(_) => false,
        };
        if !resolves {
            proof {
                match self.sub_tokens@[i as int] {
                    Token::NonTerminalToken(deeper) => {
                        assert(token_seq_view(subs0)[i as int] == deeper@);
                    },
                    Token::Terminal(_) => {
                        assert(path@.skip(pos + 1).len() > 0);
                    },
                }
                assert(token_at_path(old(self)@, rest) is None);
            }
            return None;
        }
        proof {
            assert forall|x: Token| #[trigger] token_seq_view(subs0.update(i as int, x))
                =~= token_seq_view(subs0).update(i as int, token_view(x)) by {
                lemma_token_seq_view(subs0.update(i as int, x));
                lemma_token_seq_view(subs0);
            }
        }
        match &mut self.sub_tokens[i] {
            Token::NonTerminalToken(non_terminal) => non_terminal.at_path_mut(path, pos + 1),
            Token::Terminal(_) => vstd::pervasive::unreached(),
        }
    }

    /// A mutable reference to the first child of the symbol's kind, if any;
    /// otherwise the node is left unchanged.
    pub fn find_child_mut(&mut self, sub_token_type: &Symbol) -> (r: Option<&mut Token>)
        ensures
            r is Some <==> first_match(old(self)@->children, sub_token_type@) is Some,
            r is Some ==> (first_match(old(self)@->children, sub_token_type@) matches Some(k)
                && (*r.unwrap())@ == old(self)@->children[k] && final(self)@ == (TokenView::Node {
                name: old(self)@->name,
                children: old(self)@->children.update(k, (*final(r.unwrap()))@),
            })),
            r is None ==> *final(self) == *old(self),
    {
        proof {
            lemma_token_seq_view(self.sub_tokens@);
        }
        let ghost cv = token_seq_view(self.sub_tokens@);
        let mut i: usize = 0;
        while i < self.sub_tokens.len()
            invariant
                i <= self.sub_tokens@.len(),
                *self == *old(self),
                cv == token_seq_view(self.sub_tokens@),
                cv.len() == self.sub_tokens@.len(),
                forall|k: int|
                    0 <= k < self.sub_tokens@.len() ==> token_view(#[trigger] self.sub_tokens@[k])
                        == cv[k],
                forall|k: int| 0 <= k < i ==> !token_matches(#[trigger] cv[k], sub_token_type@),
            decreases self.sub_tokens@.len() - i,
        {
            if self.sub_tokens[i].is_of_type(sub_token_type) {
                proof {
                    assert(self@->children == cv);
                    lemma_first_match_at(cv, sub_token_type@, i as int);
                }
                let ghost subs0 = self.sub_tokens@;
                let child = &mut self.sub_tokens[i];
                proof {
                    lemma_token_seq_view(subs0.update(i as int, *final(child)));
                    lemma_token_seq_view(subs0);
                    assert(token_seq_view(subs0.update(i as int, *final(child))) =~= token_seq_view(
                        subs0,
                    ).update(i as int, (*final(child))@));
                }
                return Some(child);
            }
            i = i + 1;
        }
        proof {
            assert(self@->children == cv);
            lemma_first_match_none(cv, sub_token_type@);
        }
        None
    }

    /// A mutable reference to the first child that is of the symbol's kind
    /// or has a descendant of it, if any; otherwise the node is left
    /// unchanged.
    pub fn find_descendant_mut(&mut self, sub_token_type: &Symbol) -> (r: Option<&mut Token>)
        ensures
            r is Some <==> first_subtree_match(old(self)@->children, sub_token_type@) is Some,
            r is Some ==> (first_subtree_match(old(self)@->children, sub_token_type@)
                matches Some(k) && (*r.unwrap())@ == old(self)@->children[k] && final(self)@ == (
            TokenView::Node {
                name: old(self)@->name,
                children: old(self)@->children.update(k, (*final(r.unwrap()))@),
            })),
            r is None ==> *final(self) == *old(self),
    {
        proof {
            lemma_token_seq_view(self.sub_tokens@);
        }
        let ghost cv = token_seq_view(self.sub_tokens@);
        let mut i: usize = 0;
        while i < self.sub_tokens.len()
            invariant
                i <= self.sub_tokens@.len(),
                *self == *old(self),
                cv == token_seq_view(self.sub_tokens@),
                cv.len() == self.sub_tokens@.len(),
                forall|k: int|
                    0 <= k < self.sub_tokens@.len() ==> token_view(#[trigger] self.sub_tokens@[k])
                        == cv[k],
                forall|k: int|
                    0 <= k < i ==> !(token_matches(#[trigger] cv[k], sub_token_type@)
                        || any_descendant_matches(cv[k], sub_token_type@)),
            decreases self.sub_tokens@.len() - i,
        {
            let direct = self.sub_tokens[i].is_of_type(sub_token_type);
            let deeper = match &self.sub_tokens[i] {
                Token::NonTerminalToken(inner) => inner.contains_descendant(sub_token_type),
                Token::Terminal(_) => false,
            };
            proof {
                match self.sub_tokens@[i as int] {
                    Token::NonTerminalToken(inner) => {
                        assert(cv[i as int] == inner@);
                    },
                    Token::Terminal(_) => {
                        assert(!any_descendant_matches(cv[i as int], sub_token_type@));
                    },
                }
            }
            if direct || deeper {
                proof {
                    assert(self@->children == cv);
                    lemma_first_subtree_match_at(cv, sub_token_type@, i as int);
                }
                let ghost subs0 = self.sub_tokens@;
                let child = &mut self.sub_tokens[i];
                proof {
                    lemma_token_seq_view(subs0.update(i as int, *final(child)));
                    lemma_token_seq_view(subs0);
                    assert(token_seq_view(subs0.update(i as int, *final(child))) =~= token_seq_view(
                        subs0,
                    ).update(i as int, (*final(child))@));
                }
                return Some(child);
            }
            i = i + 1;
        }
        proof {
            assert(self@->children == cv);
            lemma_first_subtree_match_none(cv, sub_token_type@);
        }
        None
    }
}

} // verus!
