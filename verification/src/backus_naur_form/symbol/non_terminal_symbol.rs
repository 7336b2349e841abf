//! A non-terminal grammar symbol: a name and the rule whose choices say
//! which token windows collapse into it.

use super::super::Choice;
use super::super::keep_disjoint_ranges;
use super::super::model::NonTerminalSymbolView;
use super::super::model::SymbolView;
use super::super::model::choice_matches_at;
use super::super::model::choice_mentions;
use super::super::model::choice_ranges;
use super::super::model::choice_ranges_from;
use super::super::model::collapse_ranges;
use super::super::model::ranges_in_bounds;
use super::super::model::collapse_step;
use super::super::model::collapse_symbol;
use super::super::model::expression_ranges;
use super::super::model::fuel_limit;
use super::super::model::greedy_disjoint;
use super::super::model::has_match;
use super::super::model::lemma_expression_ranges_bounds;
use super::super::model::lemma_expression_ranges_has;
use super::super::model::lemma_greedy_disjoint_props;
use super::super::model::lemma_sort_ranges_props;
use super::super::model::node_of;
use super::super::model::non_recursive_choices;
use super::super::model::ranges_view;
use super::super::model::rec_iter;
use super::super::model::recursive_choices;
use super::super::model::sort_ranges;
use super::super::model::splice_ranges;
use super::super::model::token_matches;
use super::super::model::call_ensures_on;
use super::super::replace_ranges;
use super::super::rule::parse_rule_spec;
use super::super::rule::non_terminal_symbol_from_rule;
use super::super::rule::rule_wf;
use super::super::token::Token;
use super::super::token::lemma_token_seq_view;
use super::super::token::lemma_token_splice_views;
use super::super::token::token_seq_view;
use super::super::token::token_view;
use super::Symbol;
use vstd::prelude::*;

verus! {

/// The view of one choice: its symbol references in order.
pub open spec fn choice_view(c: Seq<Symbol>) -> Seq<SymbolView> {
    c.map_values(|s: Symbol| s@)
}

/// The view of an expression: its choices in order.
pub open spec fn expression_view(e: Seq<Choice>) -> Seq<Seq<SymbolView>> {
    e.map_values(|c: Choice| choice_view(c@))
}

/// The view of a list of borrowed choices.
pub open spec fn choice_refs_view(e: Seq<&Choice>) -> Seq<Seq<SymbolView>> {
    e.map_values(|c: &Choice| choice_view(c@))
}

/// A non-terminal symbol: its name (angle brackets excluded) and its rule,
/// the ordered choices whose windows collapse into it.
#[derive(Debug)]
pub struct NonTerminalSymbol {
    pub name: String,
    pub rule: Vec<Choice>,
}

impl View for NonTerminalSymbol {
    type V = NonTerminalSymbolView;

    open spec fn view(&self) -> NonTerminalSymbolView {
        NonTerminalSymbolView { name: self.name@, rule: expression_view(self.rule@) }
    }
}

impl Clone for NonTerminalSymbol {
    fn clone(&self) -> (r: Self)
        ensures
            r@ == self@,
    {
        let mut rule: Vec<Choice> = Vec::new();
        let mut i: usize = 0;
        while i < self.rule.len()
            invariant
                i <= self.rule.len(),
                rule@.len() == i,
                forall|k: int|
                    0 <= k < i ==> choice_view(#[trigger] rule@[k]@) == choice_view(
                        self.rule@[k]@,
                    ),
            decreases self.rule.len() - i,
        {
            let choice = &self.rule[i];
            let mut copy: Choice = Vec::new();
            let mut j: usize = 0;
            while j < choice.len()
                invariant
                    j <= choice.len(),
                    copy@.len() == j,
                    forall|k: int| 0 <= k < j ==> (#[trigger] copy@[k])@ == choice@[k]@,
                decreases choice.len() - j,
            {
                copy.push(choice[j].clone());
                j = j + 1;
            }
            proof {
                assert(choice_view(copy@) =~= choice_view(choice@));
            }
            rule.push(copy);
            i = i + 1;
        }
        proof {
            assert(expression_view(rule@) =~= expression_view(self.rule@));
        }
        NonTerminalSymbol { name: self.name.clone(), rule }
    }
}

/// Whether a choice mentions the given symbol name.
fn choice_contains_name(choice: &Choice, name: &String) -> (r: bool)
    ensures
        r == choice_mentions(choice_view(choice@), name@),
{
    let mut j: usize = 0;
    while j < choice.len()
        invariant
            j <= choice.len(),
            forall|k: int|
                0 <= k < j ==> choice_view(choice@)[k] != SymbolView::NonTerminal(name@),
        decreases choice.len() - j,
    {
        let hit = match &choice[j] {
            Symbol::Terminal(_) => false,
            Symbol::NonTerminal(n) => n.eq(name),
        };
        if hit {
            proof {
                assert(choice_view(choice@)[j as int] == SymbolView::NonTerminal(name@));
                assert(choice_view(choice@).contains(SymbolView::NonTerminal(name@)));
            }
            return true;
        }
        j = j + 1;
    }
    proof {
        if choice_mentions(choice_view(choice@), name@) {
            let k = choose|k: int|
                0 <= k < choice_view(choice@).len() && choice_view(choice@)[k]
                    == SymbolView::NonTerminal(name@);
        }
    }
    false
}

impl NonTerminalSymbol {
    /// Builds a symbol from its name and its rule.
    pub fn new(name: String, rule: Vec<Choice>) -> (r: Self)
        ensures
            r@ == (NonTerminalSymbolView { name: name@, rule: expression_view(rule@) }),
    {
        Self { name, rule }
    }

    /// Parses a rule string into a symbol. The rule must be well formed:
    /// `<name> ::= choice ( "|" choice )*`.
    pub fn from_rule(rule: &str) -> (r: Self)
        requires
            rule_wf(rule@),
        ensures
            r@ == parse_rule_spec(rule@).unwrap(),
    {
        non_terminal_symbol_from_rule(rule)
    }

    /// The rule: the choices that collapse into this symbol.
    pub fn get_rule(&self) -> (r: &Vec<Choice>)
        ensures
            expression_view(r@) == self@.rule,
    {
        &self.rule
    }

    /// The symbol's name, angle brackets excluded.
    pub fn get_name(&self) -> (r: &str)
        ensures
            r@ == self@.name,
    {
        self.name.as_str()
    }

    /// The choices that mention this symbol itself.
    fn get_recursive_choices(&self) -> (r: Vec<&Choice>)
        ensures
            choice_refs_view(r@) == recursive_choices(self@.rule, self@.name),
    {
        let mut out: Vec<&Choice> = Vec::new();
        let mut i: usize = 0;
        while i < self.rule.len()
            invariant
                i <= self.rule.len(),
                choice_refs_view(out@) == recursive_choices(
                    expression_view(self.rule@.take(i as int)),
                    self.name@,
                ),
            decreases self.rule.len() - i,
        {
            let ghost prefix = expression_view(self.rule@.take(i as int));
            let ghost prefix1 = expression_view(self.rule@.take(i + 1));
            proof {
                assert(prefix1.drop_last() =~= prefix);
                assert(prefix1.last() == choice_view(self.rule@[i as int]@));
            }
            if choice_contains_name(&self.rule[i], &self.name) {
                let ghost before = out@;
                out.push(&self.rule[i]);
                proof {
                    assert(choice_refs_view(out@) =~= choice_refs_view(before).push(
                        choice_view(self.rule@[i as int]@),
                    ));
                }
            }
            i = i + 1;
        }
        proof {
            assert(self.rule@.take(i as int) =~= self.rule@);
        }
        out
    }

    /// The choices that do not mention this symbol itself.
    fn get_non_recursive_choices(&self) -> (r: Vec<&Choice>)
        ensures
            choice_refs_view(r@) == non_recursive_choices(self@.rule, self@.name),
    {
        let mut out: Vec<&Choice> = Vec::new();
        let mut i: usize = 0;
        while i < self.rule.len()
            invariant
                i <= self.rule.len(),
                choice_refs_view(out@) == non_recursive_choices(
                    expression_view(self.rule@.take(i as int)),
                    self.name@,
                ),
            decreases self.rule.len() - i,
        {
            let ghost prefix = expression_view(self.rule@.take(i as int));
            let ghost prefix1 = expression_view(self.rule@.take(i + 1));
            proof {
                assert(prefix1.drop_last() =~= prefix);
                assert(prefix1.last() == choice_view(self.rule@[i as int]@));
            }
            if !choice_contains_name(&self.rule[i], &self.name) {
                let ghost before = out@;
                out.push(&self.rule[i]);
                proof {
                    assert(choice_refs_view(out@) =~= choice_refs_view(before).push(
                        choice_view(self.rule@[i as int]@),
                    ));
                }
            }
            i = i + 1;
        }
        proof {
            assert(self.rule@.take(i as int) =~= self.rule@);
        }
        out
    }

    /// Whether the window of tokens starting at `i` matches the choice
    /// element-wise.
    fn window_matches(tokenized_vec: &Vec<Token>, choice: &Choice, i: usize) -> (r: bool)
        requires
            i + choice@.len() <= tokenized_vec@.len(),
        ensures
            r == choice_matches_at(
                token_seq_view(tokenized_vec@),
                choice_view(choice@),
                i as int,
            ),
    {
        proof {
            lemma_token_seq_view(tokenized_vec@);
        }
        let total = tokenized_vec.len();
        let mut j: usize = 0;
        while j < choice.len()
            invariant
                j <= choice.len(),
                total == tokenized_vec@.len(),
                i + choice@.len() <= tokenized_vec@.len(),
                forall|k: int|
                    0 <= k < j ==> token_matches(
                        token_seq_view(tokenized_vec@)[i + k],
                        #[trigger] choice_view(choice@)[k],
                    ),
            decreases choice.len() - j,
        {
            proof {
                lemma_token_seq_view(tokenized_vec@);
            }
            if !tokenized_vec[i + j].is_of_type(&choice[j]) {
                proof {
                    assert(!token_matches(
                        token_seq_view(tokenized_vec@)[i + j],
                        choice_view(choice@)[j as int],
                    ));
                }
                return false;
            }
            j = j + 1;
        }
        true
    }

    /// Every candidate range of the given choices over the tokens, choice by
    /// choice in order, window positions ascending: the half-open index
    /// ranges whose tokens could collapse into one node.
    fn get_ranges_from_choices(tokenized_vec: &Vec<Token>, choices: &Vec<&Choice>) -> (r: Vec<
        (usize, usize),
    >)
        ensures
            ranges_view(r@) == expression_ranges(
                token_seq_view(tokenized_vec@),
                choice_refs_view(choices@),
            ),
    {
        let ghost toksv = token_seq_view(tokenized_vec@);
        proof {
            lemma_token_seq_view(tokenized_vec@);
        }
        let mut out: Vec<(usize, usize)> = Vec::new();
        let mut c: usize = 0;
        while c < choices.len()
            invariant
                c <= choices.len(),
                toksv == token_seq_view(tokenized_vec@),
                toksv.len() == tokenized_vec@.len(),
                ranges_view(out@) == expression_ranges(
                    toksv,
                    choice_refs_view(choices@.take(c as int)),
                ),
            decreases choices.len() - c,
        {
            let ghost prefix = choice_refs_view(choices@.take(c as int));
            let ghost prefix1 = choice_refs_view(choices@.take(c + 1));
            let choice = choices[c];
            let ghost cv = choice_view(choice@);
            proof {
                assert(prefix1.drop_last() =~= prefix);
                assert(prefix1.last() == cv);
            }
            if choice.len() > 0 && choice.len() <= tokenized_vec.len() {
                let last_start = tokenized_vec.len() - choice.len();
                let mut i: usize = 0;
                while i <= last_start
                    invariant
                        i <= last_start + 1,
                        tokenized_vec@.len() <= usize::MAX,
                        last_start == tokenized_vec@.len() - choice@.len(),
                        choice@.len() > 0,
                        toksv == token_seq_view(tokenized_vec@),
                        toksv.len() == tokenized_vec@.len(),
                        cv == choice_view(choice@),
                        cv.len() == choice@.len(),
                        choice_ranges(toksv, cv) == ranges_view(out@).skip(
                            expression_ranges(toksv, prefix).len() as int,
                        ) + choice_ranges_from(toksv, cv, i as int),
                        ranges_view(out@).take(expression_ranges(toksv, prefix).len() as int)
                            == expression_ranges(toksv, prefix),
                        expression_ranges(toksv, prefix).len() <= out@.len(),
                    decreases last_start + 1 - i,
                {
                    let ghost out_before = out@;
                    if Self::window_matches(tokenized_vec, choice, i) {
                        out.push((i, i + choice.len()));
                    }
                    proof {
                        assert(choice_ranges_from(toksv, cv, i as int) == (
                        if choice_matches_at(toksv, cv, i as int) {
                            seq![(i as int, i + cv.len() as int)] + choice_ranges_from(
                                toksv,
                                cv,
                                i + 1,
                            )
                        } else {
                            choice_ranges_from(toksv, cv, i + 1)
                        }));
                        let base = expression_ranges(toksv, prefix).len() as int;
                        assert(ranges_view(out@).take(base) =~= ranges_view(out_before).take(
                            base,
                        ));
                        if choice_matches_at(toksv, cv, i as int) {
                            assert(ranges_view(out@).skip(base) =~= ranges_view(
                                out_before,
                            ).skip(base) + seq![(i as int, i + cv.len() as int)]);
                            assert(choice_ranges(toksv, cv) == (ranges_view(out_before).skip(
                                base,
                            ) + seq![(i as int, i + cv.len() as int)]) + choice_ranges_from(
                                toksv,
                                cv,
                                i + 1,
                            )) by {
                                assert((ranges_view(out_before).skip(base) + seq![
                                    (i as int, i + cv.len() as int),
                                ]) + choice_ranges_from(toksv, cv, i + 1) =~= ranges_view(
                                    out_before,
                                ).skip(base) + (seq![(i as int, i + cv.len() as int)]
                                    + choice_ranges_from(toksv, cv, i + 1)));
                            }
                        }
                    }
                    i = i + 1;
                }
                proof {
                    assert(choice_ranges_from(toksv, cv, i as int) =~= Seq::<(int, int)>::empty());
                    let base = expression_ranges(toksv, prefix).len() as int;
                    assert(choice_ranges(toksv, cv) == ranges_view(out@).skip(base));
                    assert(ranges_view(out@) =~= ranges_view(out@).take(base) + ranges_view(
                        out@,
                    ).skip(base));
                    assert(ranges_view(out@) == expression_ranges(toksv, prefix1));
                }
            } else {
                proof {
                    if cv.len() > 0 {
                        assert(cv.len() > toksv.len());
                        assert(choice_ranges_from(toksv, cv, 0) == Seq::<(int, int)>::empty());
                    } else {
                        assert(choice_ranges_from(toksv, cv, 0) == Seq::<(int, int)>::empty());
                    }
                    assert(expression_ranges(toksv, prefix1) =~= expression_ranges(toksv, prefix));
                }
            }
            c = c + 1;
        }
        proof {
            assert(choices@.take(c as int) =~= choices@);
        }
        out
    }

    /// The candidate ranges where this symbol's recursive choices could
    /// collapse a window of the tokens.
    fn get_ranges_of_possible_recursive_symbolization(&self, tokenized_vec: &Vec<Token>) -> (r:
        Vec<(usize, usize)>)
        ensures
            ranges_view(r@) == expression_ranges(
                token_seq_view(tokenized_vec@),
                recursive_choices(self@.rule, self@.name),
            ),
    {
        let recursive = self.get_recursive_choices();
        Self::get_ranges_from_choices(tokenized_vec, &recursive)
    }

    /// The candidate ranges where this symbol's non-recursive choices could
    /// collapse a window of the tokens.
    fn get_ranges_of_possible_non_recursive_symbolization(&self, tokenized_vec: &Vec<Token>) -> (r:
        Vec<(usize, usize)>)
        ensures
            ranges_view(r@) == expression_ranges(
                token_seq_view(tokenized_vec@),
                non_recursive_choices(self@.rule, self@.name),
            ),
    {
        let non_recursive = self.get_non_recursive_choices();
        Self::get_ranges_from_choices(tokenized_vec, &non_recursive)
    }

    /// The candidate ranges where any choice of this symbol could collapse a
    /// window of the tokens, choice by choice in rule order.
    pub fn get_ranges_of_possible_symbolization(&self, tokenized_vec: &Vec<Token>) -> (r: Vec<
        (usize, usize),
    >)
        ensures
            ranges_view(r@) == expression_ranges(token_seq_view(tokenized_vec@), self@.rule),
    {
        let mut all: Vec<&Choice> = Vec::new();
        let mut i: usize = 0;
        while i < self.rule.len()
            invariant
                i <= self.rule.len(),
                all@.len() == i,
                forall|k: int| 0 <= k < i ==> #[trigger] all@[k]@ == self.rule@[k]@,
            decreases self.rule.len() - i,
        {
            all.push(&self.rule[i]);
            i = i + 1;
        }
        proof {
            assert(choice_refs_view(all@) =~= expression_view(self.rule@));
        }
        Self::get_ranges_from_choices(tokenized_vec, &all)
    }

    /// Whether some choice of this symbol matches a window of the tokens,
    /// so that a reduction by this symbol would still change them.
    pub(crate) fn further_symbolization_possible(&self, tokenized_vec: &Vec<Token>) -> (r: bool)
        ensures
            r == has_match(token_seq_view(tokenized_vec@), self@.rule),
    {
        let ranges = self.get_ranges_of_possible_symbolization(tokenized_vec);
        proof {
            lemma_expression_ranges_has(token_seq_view(tokenized_vec@), self@.rule);
            assert(ranges@.len() == ranges_view(ranges@).len());
        }
        !ranges.is_empty()
    }

    /// Collapses the given candidate windows, leftmost candidates kept where
    /// they overlap, into nodes labeled with this symbol's name.
    fn collapse_into(&self, vec: &mut Vec<Token>, raw_ranges: &Vec<(usize, usize)>)
        requires
            ranges_in_bounds(ranges_view(raw_ranges@), old(vec)@.len() as int),
        ensures
            token_seq_view(final(vec)@) == collapse_ranges(
                token_seq_view(old(vec)@),
                sort_ranges(greedy_disjoint(ranges_view(raw_ranges@))),
                self@.name,
            ),
    {
        let ghost t0 = vec@;
        let ghost v0 = token_seq_view(vec@);
        let ghost raw = ranges_view(raw_ranges@);
        let mut ranges = keep_disjoint_ranges(raw_ranges);
        let ghost kept = greedy_disjoint(raw);
        proof {
            lemma_greedy_disjoint_props(raw);
            assert forall|k: int| 0 <= k < kept.len() implies 0 <= (#[trigger] kept[k]).0
                <= kept[k].1 <= t0.len() by {
                assert(raw.contains(kept[k]));
                let j = choose|j: int| 0 <= j < raw.len() && raw[j] == kept[k];
                assert(0 <= raw[j].0 <= raw[j].1 <= t0.len());
            }
            lemma_sort_ranges_props(kept, t0.len() as int);
            lemma_token_seq_view(t0);
        }
        let name_ref = &self.name;
        let make_node = |removed: Vec<Token>| -> (r: Token)
            ensures
                r@ == node_of(name_ref@, token_seq_view(removed@)),
            { Token::from_non_terminal(name_ref.as_str(), removed) };
        proof {
            assert forall|arg: Vec<Token>| call_requires(make_node, (arg,)) by {}
        }
        replace_ranges(vec, &mut ranges, make_node);
        proof {
            let sorted = sort_ranges(kept);
            let reps = choose|reps: Seq<Token>|
                {
                    &&& reps.len() == kept.len()
                    &&& vec@ == splice_ranges(t0, sorted, reps)
                    &&& forall|k: int|
                        0 <= k < reps.len() ==> call_ensures_on(
                            make_node,
                            t0.subrange(sorted[k].0, sorted[k].1),
                            #[trigger] reps[k],
                        )
                };
            assert forall|k: int| 0 <= k < sorted.len() implies token_view(#[trigger] reps[k])
                == node_of(self@.name, token_seq_view(t0.subrange(sorted[k].0, sorted[k].1))) by {
                assert(call_ensures_on(make_node, t0.subrange(sorted[k].0, sorted[k].1), reps[k]));
                let arg = choose|arg: Vec<Token>|
                    arg@ == t0.subrange(sorted[k].0, sorted[k].1) && call_ensures(
                        make_node,
                        (arg,),
                        reps[k],
                    );
                assert(reps[k]@ == node_of(name_ref@, token_seq_view(arg@)));
            }
            lemma_token_splice_views(t0, sorted, reps, self@.name);
        }
    }

    /// Reduces the tokens by this symbol, in place: first every non-recursive
    /// choice's windows are collapsed at once, then the recursive choices are
    /// collapsed over and over until no recursive window matches. A grammar
    /// whose recursive choices never stop matching makes that fixpoint
    /// unreachable; the loop then stops only at an astronomically large
    /// round bound instead of running forever.
    pub fn symbolize_vec(&self, vec: &mut Vec<Token>)
        ensures
            token_seq_view(final(vec)@) == collapse_symbol(token_seq_view(old(vec)@), self@),
    {
        let ghost v0 = token_seq_view(vec@);
        let ghost namev = self@.name;
        let ghost nrv = non_recursive_choices(self@.rule, self@.name);
        let ghost rcv = recursive_choices(self@.rule, self@.name);
        proof {
            lemma_token_seq_view(vec@);
            lemma_expression_ranges_bounds(v0, nrv);
        }
        let raw = self.get_ranges_of_possible_non_recursive_symbolization(vec);
        self.collapse_into(vec, &raw);
        let ghost t1 = token_seq_view(vec@);
        proof {
            assert(t1 == collapse_step(v0, nrv, namev));
        }
        let mut fuel: usize = usize::MAX;
        loop
            invariant
                self@.name == namev,
                self@.rule == expression_view(self.rule@),
                rcv == recursive_choices(self@.rule, self@.name),
                fuel <= usize::MAX,
                rec_iter(t1, rcv, namev, fuel_limit()) == rec_iter(
                    token_seq_view(vec@),
                    rcv,
                    namev,
                    fuel as nat,
                ),
            ensures
                token_seq_view(vec@) == rec_iter(t1, rcv, namev, fuel_limit()),
            decreases fuel,
        {
            let ghost cur = token_seq_view(vec@);
            if fuel == 0 {
                proof {
                    assert(rec_iter(cur, rcv, namev, 0nat) == cur);
                }
                break;
            }
            let raw_rec = self.get_ranges_of_possible_recursive_symbolization(vec);
            if raw_rec.is_empty() {
                proof {
                    lemma_expression_ranges_has(cur, rcv);
                    assert(ranges_view(raw_rec@).len() == raw_rec@.len());
                    assert(!has_match(cur, rcv));
                    assert(rec_iter(cur, rcv, namev, fuel as nat) == cur);
                }
                break;
            }
            proof {
                lemma_expression_ranges_has(cur, rcv);
                assert(ranges_view(raw_rec@).len() == raw_rec@.len());
                assert(has_match(cur, rcv));
                lemma_expression_ranges_bounds(cur, rcv);
                lemma_token_seq_view(vec@);
                assert(rec_iter(cur, rcv, namev, fuel as nat) == rec_iter(
                    collapse_step(cur, rcv, namev),
                    rcv,
                    namev,
                    (fuel - 1) as nat,
                ));
            }
            self.collapse_into(vec, &raw_rec);
            proof {
                assert(token_seq_view(vec@) == collapse_step(cur, rcv, namev));
            }
            fuel = fuel - 1;
        }
    }
}

impl PartialEq for NonTerminalSymbol {
    fn eq(&self, other: &Self) -> (r: bool) {
        if !self.name.eq(&other.name) {
            return false;
        }
        if self.rule.len() != other.rule.len() {
            proof {
                assert(expression_view(self.rule@).len() == self.rule@.len());
                assert(expression_view(other.rule@).len() == other.rule@.len());
            }
            return false;
        }
        let mut i: usize = 0;
        while i < self.rule.len()
            invariant
                i <= self.rule@.len(),
                self.rule@.len() == other.rule@.len(),
                forall|k: int|
                    0 <= k < i ==> choice_view(#[trigger] self.rule@[k]@) == choice_view(
                        other.rule@[k]@,
                    ),
            decreases self.rule@.len() - i,
        {
            let a = &self.rule[i];
            let b = &other.rule[i];
            if a.len() != b.len() {
                proof {
                    assert(choice_view(a@).len() != choice_view(b@).len());
                    assert(expression_view(self.rule@)[i as int] != expression_view(
                        other.rule@,
                    )[i as int]);
                }
                return false;
            }
            let mut j: usize = 0;
            while j < a.len()
                invariant
                    j <= a@.len(),
                    a@.len() == b@.len(),
                    a@ == self.rule@[i as int]@,
                    b@ == other.rule@[i as int]@,
                    i < self.rule@.len(),
                    self.rule@.len() == other.rule@.len(),
                    forall|k: int| 0 <= k < j ==> (#[trigger] a@[k])@ == b@[k]@,
                decreases a@.len() - j,
            {
                if !a[j].eq(&b[j]) {
                    proof {
                        assert(choice_view(a@)[j as int] != choice_view(b@)[j as int]);
                        assert(choice_view(a@) != choice_view(b@));
                        assert(expression_view(self.rule@)[i as int] != expression_view(
                            other.rule@,
                        )[i as int]);
                    }
                    return false;
                }
                j = j + 1;
            }
            proof {
                assert(choice_view(a@) =~= choice_view(b@));
            }
            i = i + 1;
        }
        proof {
            assert(expression_view(self.rule@) =~= expression_view(other.rule@));
        }
        true
    }
}

impl vstd::std_specs::cmp::PartialEqSpecImpl for NonTerminalSymbol {
    open spec fn obeys_eq_spec() -> bool {
        true
    }

    open spec fn eq_spec(&self, other: &NonTerminalSymbol) -> bool {
        self@ == other@
    }
}

impl Eq for NonTerminalSymbol {

}

} // verus!
