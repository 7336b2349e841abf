//! Symbolization (string to token tree) and compilation (token tree to
//! string) driven by a grammar in Backus-Naur form.

pub mod model;
pub mod rule;
pub mod symbol;
pub mod token;

use model::BackusNaurFormView;
use model::NonTerminalSymbolView;
use model::SymbolView;
use model::TokenView;
use model::call_ensures_on;
use model::characterized;
use model::collapse_symbol;
use model::covered;
use model::disjoint_from_all;
use model::do_pass;
use model::fuel_limit;
use model::glob_iter;
use model::grammar_contains_symbol;
use model::greedy_disjoint;
use model::has_callback;
use model::has_match;
use model::lemma_insert_range_sorted_at;
use model::lemma_shrink_before_zero;
use model::lemma_sort_ranges_contains;
use model::lemma_sort_ranges_props;
use model::lemma_splice_ranges_cons;
use model::lemma_splice_ranges_shape;
use model::lemma_symbolize_round_trip;
use model::lemma_unproductive_pass;
use model::pairwise_disjoint;
use model::pass_productive;
use model::range_le;
use model::ranges_in_bounds;
use model::ranges_overlap;
use model::ranges_view;
use model::ranges_wf;
use model::shrink_before;
use model::sort_ranges;
use model::spec_symbolize;
use model::splice_one;
use model::splice_ranges;
use model::symbolize_order;
use model::texts_concat;
use model::token_text;
use model::tokens_text;
use model::total_span;
use rule::parse_rule_spec;
use rule::rule_wf;
use symbol::Symbol;
use symbol::non_terminal_symbol::NonTerminalSymbol;
use symbol::non_terminal_symbol::choice_view;
use symbol::non_terminal_symbol::expression_view;
use token::TerminalToken;
use token::Token;
use token::lemma_token_seq_view;
use token::non_terminal_token::NonTerminalToken;
use token::token_seq_view;
use token::token_view;
use vstd::prelude::*;
use vstd::string::StrSliceExecFns;

verus! {

/// The body of a rule: the ordered choices, each of which can collapse a
/// window of tokens into the rule's symbol.
pub type Expression = Vec<Choice>;

/// One alternative of a rule: an ordered list of symbol references that
/// matches a contiguous window of tokens element-wise.
pub type Choice = Vec<Symbol>;

/// Keeps each range that does not overlap an earlier kept one, in order:
/// the disjoint candidates that one collapse step replaces together.
pub(crate) fn keep_disjoint_ranges(ranges: &Vec<(usize, usize)>) -> (out: Vec<(usize, usize)>)
    ensures
        ranges_view(out@) == greedy_disjoint(ranges_view(ranges@)),
{
    let mut out: Vec<(usize, usize)> = Vec::new();
    let mut i: usize = 0;
    while i < ranges.len()
        invariant
            i <= ranges@.len(),
            ranges_view(out@) == greedy_disjoint(ranges_view(ranges@.take(i as int))),
        decreases ranges@.len() - i,
    {
        let r = ranges[i];
        let ghost rv = (r.0 as int, r.1 as int);
        let ghost kept = greedy_disjoint(ranges_view(ranges@.take(i as int)));
        let mut ok = true;
        let mut k: usize = 0;
        while k < out.len()
            invariant
                k <= out@.len(),
                ranges_view(out@) == kept,
                kept.len() == out@.len(),
                rv == (r.0 as int, r.1 as int),
                ok == (forall|l: int| 0 <= l < k ==> !ranges_overlap(rv, #[trigger] kept[l])),
            decreases out@.len() - k,
        {
            let q = out[k];
            proof {
                assert(kept[k as int] == (q.0 as int, q.1 as int));
            }
            if r.0 < q.1 && q.0 < r.1 {
                ok = false;
            }
            k = k + 1;
        }
        proof {
            assert(ok == disjoint_from_all(rv, kept));
            assert(ranges_view(ranges@.take(i + 1)).drop_last() =~= ranges_view(
                ranges@.take(i as int),
            ));
            assert(ranges_view(ranges@.take(i + 1)).last() == rv);
        }
        let ghost before = out@;
        if ok {
            out.push(r);
            proof {
                assert(ranges_view(out@) =~= kept.push(rv));
            }
        }
        i = i + 1;
    }
    proof {
        assert(ranges@.take(i as int) =~= ranges@);
    }
    out
}

/// Sorts pairs by ascending first, then ascending second component, with a
/// stable insertion sort: pairs with equal components keep their relative
/// order.
pub(crate) fn stable_sort_pairs(pairs: &Vec<(usize, usize)>) -> (sorted: Vec<(usize, usize)>)
    ensures
        ranges_view(sorted@) == sort_ranges(ranges_view(pairs@)),
{
    let mut sorted: Vec<(usize, usize)> = Vec::new();
    let mut i: usize = 0;
    while i < pairs.len()
        invariant
            i <= pairs@.len(),
            ranges_view(sorted@) == sort_ranges(ranges_view(pairs@.take(i as int))),
            sorted@.len() == i,
        decreases pairs@.len() - i,
    {
        let r = pairs[i];
        let mut pos: usize = sorted.len();
        while pos > 0 && (sorted[pos - 1].0 > r.0 || (sorted[pos - 1].0 == r.0 && sorted[pos
            - 1].1 > r.1))
            invariant
                pos <= sorted@.len(),
                forall|k: int|
                    pos <= k < sorted@.len() ==> ((#[trigger] sorted@[k]).0 > r.0 || (
                    sorted@[k].0 == r.0 && sorted@[k].1 > r.1)),
            decreases pos,
        {
            pos = pos - 1;
        }
        let ghost sorted_before = sorted@;
        sorted.insert(pos, r);
        proof {
            let prev = sort_ranges(ranges_view(pairs@.take(i as int)));
            let rv = (r.0 as int, r.1 as int);
            assert(ranges_view(sorted_before) == prev);
            assert forall|k: int| pos as int <= k < prev.len() implies !range_le(
                #[trigger] prev[k],
                rv,
            ) by {
                assert(prev[k] == (sorted_before[k].0 as int, sorted_before[k].1 as int));
            }
            if pos > 0 {
                assert(prev[pos - 1] == (sorted_before[pos - 1].0 as int, sorted_before[pos
                    - 1].1 as int));
                assert(range_le(prev[pos - 1], rv));
            }
            lemma_insert_range_sorted_at(rv, prev, pos as int);
            assert(ranges_view(pairs@.take(i + 1)).drop_last() =~= ranges_view(
                pairs@.take(i as int),
            ));
            assert(ranges_view(pairs@.take(i + 1)).last() == rv);
            assert(sorted@ == sorted_before.insert(pos as int, r));
            assert(ranges_view(sorted@) =~= prev.take(pos as int) + seq![rv] + prev.skip(
                pos as int,
            ));
        }
        i = i + 1;
    }
    proof {
        assert(pairs@.take(i as int) =~= pairs@);
    }
    sorted
}

/// Replaces each given half-open index range of `vec` with the single
/// element that `replace_with` makes of the removed sub-sequence. The ranges
/// are processed rightmost first, so replacing one never shifts the indices
/// of the still unprocessed ones; `ranges` is left sorted by ascending
/// start and width. The ranges must be pairwise disjoint and within bounds;
/// an empty range removes nothing, and the reducer's output for the empty
/// sub-sequence is inserted at its position.
///
/// Elements outside every range are kept unchanged, in their original
/// relative order, and the sequence shrinks by the covered width of each
/// range less the one replacement element that takes its place.
pub fn replace_ranges<A, F: Fn(Vec<A>) -> A>(
    vec: &mut Vec<A>,
    ranges: &mut Vec<(usize, usize)>,
    replace_with: F,
)
    requires
        pairwise_disjoint(ranges_view(old(ranges)@)),
        ranges_in_bounds(ranges_view(old(ranges)@), old(vec)@.len() as int),
        forall|arg: Vec<A>| call_requires(replace_with, (arg,)),
    ensures
        ranges_view(final(ranges)@) == sort_ranges(ranges_view(old(ranges)@)),
        final(vec)@.len() == old(vec)@.len() - total_span(ranges_view(old(ranges)@)) + old(
            ranges,
        )@.len(),
        forall|p: int|
            0 <= p < old(vec)@.len() && !covered(p, ranges_view(old(ranges)@)) ==> 0 <= p
                - shrink_before(p, ranges_view(old(ranges)@)) < final(vec)@.len() && final(vec)@[p
                - shrink_before(p, ranges_view(old(ranges)@))] == old(vec)@[p],
        exists|reps: Seq<A>|
            {
                &&& reps.len() == old(ranges)@.len()
                &&& final(vec)@ == splice_ranges(
                    old(vec)@,
                    sort_ranges(ranges_view(old(ranges)@)),
                    reps,
                )
                &&& forall|k: int|
                    0 <= k < reps.len() ==> call_ensures_on(
                        replace_with,
                        old(vec)@.subrange(
                            sort_ranges(ranges_view(old(ranges)@))[k].0,
                            sort_ranges(ranges_view(old(ranges)@))[k].1,
                        ),
                        #[trigger] reps[k],
                    )
            },
{
    let ghost rs0 = ranges_view(ranges@);
    let ghost v0 = vec@;
    proof {
        lemma_sort_ranges_props(rs0, v0.len() as int);
    }
    let ghost sorted_rs = sort_ranges(rs0);
    let sorted = stable_sort_pairs(ranges);
    *ranges = sorted;
    // Replace each range, rightmost first.
    let mut j: usize = ranges.len();
    let ghost mut reps: Seq<A> = Seq::empty();
    proof {
        assert(sorted_rs.skip(j as int) =~= Seq::<(int, int)>::empty());
    }
    while j > 0
        invariant
            j <= ranges@.len(),
            ranges@.len() == rs0.len(),
            ranges_view(ranges@) == sorted_rs,
            sorted_rs == sort_ranges(rs0),
            ranges_wf(sorted_rs, v0.len() as int),
            reps.len() == rs0.len() - j,
            vec@ == splice_ranges(v0, sorted_rs.skip(j as int), reps),
            forall|k: int|
                0 <= k < reps.len() ==> call_ensures_on(
                    replace_with,
                    v0.subrange(sorted_rs[j + k].0, sorted_rs[j + k].1),
                    #[trigger] reps[k],
                ),
            forall|arg: Vec<A>| call_requires(replace_with, (arg,)),
        decreases j,
    {
        j = j - 1;
        let r = ranges[j];
        let s = r.0;
        let e = r.1;
        let ghost cur0 = vec@;
        proof {
            assert((sorted_rs[j as int].0, sorted_rs[j as int].1) == (s as int, e as int));
            let ss = sorted_rs.skip(j + 1);
            assert forall|k: int| 0 <= k < ss.len() implies (#[trigger] ss[k]).1 >= (
            #[trigger] ss[k]).0 >= e as int by {
                assert(ss[k] == sorted_rs[j + 1 + k]);
                assert(sorted_rs[j as int].1 <= sorted_rs[j + 1 + k].0);
            }
            assert(ranges_wf(ss, v0.len() as int)) by {
                assert forall|k: int| 0 <= k < ss.len() implies 0 <= (#[trigger] ss[k]).0 <= ss[k].1
                    <= v0.len() by {
                    assert(ss[k] == sorted_rs[j + 1 + k]);
                }
                assert forall|k: int, l: int| 0 <= k < l < ss.len() implies (#[trigger] ss[k]).1
                    <= (#[trigger] ss[l]).0 by {
                    assert(ss[k] == sorted_rs[j + 1 + k] && ss[l] == sorted_rs[j + 1 + l]);
                }
            }
            lemma_splice_ranges_shape(v0, ss, reps);
            assert(0 <= sorted_rs[j as int].0 <= sorted_rs[j as int].1 <= v0.len());
            assert forall|p: int| 0 <= p < e as int implies !covered(p, ss) && shrink_before(
                p,
                ss,
            ) == 0 by {
                lemma_shrink_before_zero(p, ss);
                if covered(p, ss) {
                    let k = choose|k: int|
                        0 <= k < ss.len() && (#[trigger] ss[k]).0 <= p < ss[k].1;
                    assert(ss[k].0 >= e as int);
                }
            }
            assert forall|p: int| 0 <= p < e as int implies cur0[p] == v0[p] by {
                assert(p < v0.len());
                assert(cur0[p - shrink_before(p, ss)] == v0[p]);
            }
            assert(e as int <= cur0.len()) by {
                if e > 0 {
                    assert(0 <= (e - 1) as int - shrink_before((e - 1) as int, ss) < cur0.len());
                }
            }
        }
        let mut removed: Vec<A> = Vec::new();
        let mut c: usize = 0;
        while c < e - s
            invariant
                s <= e,
                e as int <= cur0.len(),
                c <= e - s,
                removed@ =~= cur0.subrange(s as int, s + c as int),
                vec@ =~= cur0.take(s as int) + cur0.skip(s + c as int),
                vec@.len() == cur0.len() - c,
            decreases e - s - c,
        {
            proof {
                assert(vec@[s as int] == cur0[s + c as int]);
                assert(vec@.remove(s as int) =~= cur0.take(s as int) + cur0.skip(s + c + 1 as int));
            }
            let elem = vec.remove(s);
            removed.push(elem);
            proof {
                assert(removed@ =~= cur0.subrange(s as int, s + c + 1 as int));
            }
            c = c + 1;
        }
        let ghost removed_snapshot = removed;
        let rep = replace_with(removed);
        let ghost repg = rep;
        proof {
            assert(vec@.insert(s as int, repg) =~= splice_one(cur0, (s as int, e as int), repg));
        }
        vec.insert(s, rep);
        proof {
            assert(removed_snapshot@ == v0.subrange(s as int, e as int));
            let ghost old_reps = reps;
            reps = seq![repg] + reps;
            lemma_splice_ranges_cons(v0, (s as int, e as int), repg, sorted_rs.skip(j + 1), old_reps);
            assert(sorted_rs.skip(j as int) =~= seq![(s as int, e as int)] + sorted_rs.skip(j + 1));
            assert(vec@ == splice_ranges(v0, sorted_rs.skip(j as int), reps)) by {
                assert(splice_ranges(v0, seq![(s as int, e as int)] + sorted_rs.skip(j + 1), seq![repg] + old_reps)
                    == splice_one(splice_ranges(v0, sorted_rs.skip(j + 1), old_reps), (s as int, e as int), repg));
            }
            assert forall|k: int| 0 <= k < reps.len() implies call_ensures_on(
                replace_with,
                v0.subrange(sorted_rs[j + k].0, sorted_rs[j + k].1),
                #[trigger] reps[k],
            ) by {
                if k == 0 {
                    assert(reps[0] == repg);
                    assert(call_ensures(replace_with, (removed_snapshot,), repg));
                } else {
                    assert(reps[k] == old_reps[k - 1]);
                }
            }
        }
    }
    proof {
        assert(sorted_rs.skip(0) =~= sorted_rs);
        lemma_splice_ranges_shape(v0, sorted_rs, reps);
        lemma_sort_ranges_props(rs0, v0.len() as int);
    }
}

/// Relies on `str`'s `PartialEq`: two string slices are equal exactly when
/// they hold the same characters in the same order.
pub assume_specification[ <str as PartialEq>::eq ](s: &str, other: &str) -> (res: bool)
    ensures
        res == (s@ == other@),
;

/// Relies on `String::push`: appends the one character to the end of the
/// string.
#[verifier::external_body]
fn push_char(s: &mut String, c: char)
    ensures
        final(s)@ == old(s)@ + seq![c],
{
    s.push(c);
}

/// The initial token sequence of a string: one terminal leaf per character.
/// The engine needs single-character leaves so that any window of the
/// original text can be collapsed.
pub fn characterize_string(string: &str) -> (r: Vec<Token>)
    ensures
        token_seq_view(r@) == characterized(string@),
{
    let n = string.unicode_len();
    let mut out: Vec<Token> = Vec::new();
    let mut i: usize = 0;
    while i < n
        invariant
            n == string@.len(),
            i <= n,
            out@.len() == i,
            forall|k: int|
                0 <= k < i ==> token_view(#[trigger] out@[k]) == TokenView::Terminal(
                    seq![string@[k]],
                ),
        decreases n - i,
    {
        let c = string.get_char(i);
        let mut text = String::new();
        push_char(&mut text, c);
        out.push(Token::Terminal(TerminalToken(text)));
        i = i + 1;
    }
    proof {
        lemma_token_seq_view(out@);
        assert(token_seq_view(out@) =~= characterized(string@));
    }
    out
}

/// The view of the rule list: each symbol's view with its priority.
pub open spec fn rules_view(rs: Seq<(NonTerminalSymbol, usize)>) -> Seq<
    (NonTerminalSymbolView, nat),
> {
    rs.map_values(|p: (NonTerminalSymbol, usize)| (p.0@, p.1 as nat))
}

/// The view of the callback table: the registered names in order.
pub open spec fn callback_names_view<C>(s: Seq<(String, C)>) -> Seq<Seq<char>> {
    s.map_values(|p: (String, C)| p.0@)
}

/// A compile callback: turns one node of the tree into output text. The
/// grammar is passed along so a callback may look up and invoke callbacks
/// for the node's own children; recursion into children is never automatic.
pub trait CompileFunction: Sized {
    /// What this callback's output is: a function of the callback value,
    /// the node and the grammar it is handed. It defaults to the node's own
    /// text, the pass-through meaning; an implementation with any other
    /// behaviour states its own and is proved to match it. An
    /// implementation the verifier never sees inherits the default without
    /// being held to it, as with any call from unverified code.
    open spec fn spec_compile(&self, token: TokenView, grammar: BackusNaurForm<Self>) -> Seq<
        char,
    > {
        token_text(token)
    }

    /// Turns the node into output text.
    fn compile(&self, token: &NonTerminalToken, bnf: &BackusNaurForm<Self>) -> (r: String)
        ensures
            r@ == self.spec_compile(token@, *bnf),
    ;
}

/// The compile callback that changes nothing: it hands back the node's own
/// text. Useful as the callback type of a grammar that only symbolizes.
#[derive(Debug)]
pub struct PassThrough;

impl CompileFunction for PassThrough {
    fn compile(&self, token: &NonTerminalToken, _bnf: &BackusNaurForm<Self>) -> String {
        token.get_terminals()
    }
}

/// The callback that decides a name: the value of the last registration
/// for that name, if any. The last registration wins; registration order,
/// not declaration order, decides.
pub open spec fn registered_callback<C>(table: Seq<(String, C)>, name: Seq<char>) -> Option<C>
    decreases table.len(),
{
    if table.len() == 0 {
        None
    } else if table.last().0@ == name {
        Some(table.last().1)
    } else {
        registered_callback(table.drop_last(), name)
    }
}

/// A name has a registered callback exactly when some registration carries
/// it.
pub proof fn lemma_registered_callback_some<C>(table: Seq<(String, C)>, name: Seq<char>)
    ensures
        registered_callback(table, name) is Some <==> callback_names_view(table).contains(name),
    decreases table.len(),
{
    let names = callback_names_view(table);
    if table.len() == 0 {
        if names.contains(name) {
            let k = choose|k: int| 0 <= k < names.len() && names[k] == name;
        }
    } else {
        let dl = table.drop_last();
        lemma_registered_callback_some(dl, name);
        assert(callback_names_view(dl) =~= names.drop_last());
        assert(names.last() == table.last().0@);
        if table.last().0@ == name {
            assert(names[names.len() - 1] == name);
            assert(names.contains(name));
        } else {
            if names.drop_last().contains(name) {
                let k = choose|k: int| 0 <= k < names.drop_last().len() && names.drop_last()[k]
                    == name;
                assert(names[k] == name);
            }
            if names.contains(name) {
                let k = choose|k: int| 0 <= k < names.len() && names[k] == name;
                assert(k < names.len() - 1);
                assert(names.drop_last()[k] == name);
            }
        }
    }
}

/// A grammar in Backus-Naur form: its symbols with their priorities, in
/// declaration order, and a table of per-name compile callbacks. A name may
/// legally be registered more than once with different priorities or rules;
/// each is applied independently.
#[derive(Debug)]
pub struct BackusNaurForm<C> {
    pub rules: Vec<(NonTerminalSymbol, usize)>,
    pub compile_functions: Vec<(String, C)>,
}

impl<C> View for BackusNaurForm<C> {
    type V = BackusNaurFormView;

    open spec fn view(&self) -> BackusNaurFormView {
        BackusNaurFormView {
            rules: rules_view(self.rules@),
            callback_names: callback_names_view(self.compile_functions@),
        }
    }
}

impl<C> Default for BackusNaurForm<C> {
    fn default() -> (r: Self)
        ensures
            r@.rules.len() == 0,
            r@.callback_names.len() == 0,
    {
        BackusNaurForm { rules: Vec::new(), compile_functions: Vec::new() }
    }
}

impl<C: CompileFunction> BackusNaurForm<C> {
    /// Registers a grammar symbol at the given priority. No conflict check
    /// is made against existing symbols of the same name.
    pub fn add_non_terminal_symbol(&mut self, non_terminal_symbol: NonTerminalSymbol, priority: usize)
        ensures
            final(self)@.rules == old(self)@.rules.push((non_terminal_symbol@, priority as nat)),
            final(self)@.callback_names == old(self)@.callback_names,
    {
        let ghost before = self.rules@;
        self.rules.push((non_terminal_symbol, priority));
        proof {
            assert(rules_view(self.rules@) =~= rules_view(before).push(
                (self.rules@.last().0@, self.rules@.last().1 as nat),
            ));
            assert(callback_names_view(self.compile_functions@) == old(self)@.callback_names);
        }
    }

    /// Parses a rule string and registers the grammar symbol it describes at
    /// the given priority. The rule must be well formed:
    /// `<name> ::= choice ( "|" choice )*`.
    pub fn add_non_terminal_symbol_from_rule(&mut self, rule: &str, priority: usize)
        requires
            rule_wf(rule@),
        ensures
            final(self)@.rules == old(self)@.rules.push(
                (parse_rule_spec(rule@).unwrap(), priority as nat),
            ),
            final(self)@.callback_names == old(self)@.callback_names,
    {
        self.add_non_terminal_symbol(NonTerminalSymbol::from_rule(rule), priority);
    }

    /// True if some registered grammar symbol has the given name (angle
    /// brackets excluded).
    pub fn contains_symbol(&self, name: &str) -> (r: bool)
        ensures
            r == grammar_contains_symbol(self@, name@),
    {
        let mut i: usize = 0;
        while i < self.rules.len()
            invariant
                i <= self.rules@.len(),
                forall|k: int| 0 <= k < i ==> (#[trigger] rules_view(self.rules@)[k]).0.name != name@,
            decreases self.rules@.len() - i,
        {
            if self.rules[i].0.get_name().eq(name) {
                proof {
                    assert(rules_view(self.rules@)[i as int].0.name == name@);
                    assert(self@.rules[i as int].0.name == name@);
                    assert(grammar_contains_symbol(self@, name@));
                }
                return true;
            }
            proof {
                assert(rules_view(self.rules@)[i as int].0.name != name@);
            }
            i = i + 1;
        }
        proof {
            if grammar_contains_symbol(self@, name@) {
                let k = choose|k: int|
                    0 <= k < self@.rules.len() && (#[trigger] self@.rules[k]).0.name == name@;
            }
        }
        false
    }

    /// Registers a compile callback for a name; a later registration for
    /// the same name wins over an earlier one, and registrations for other
    /// names are untouched.
    pub fn add_compile_function(&mut self, non_terminal_symbol: &str, f: C)
        ensures
            final(self).rules@ == old(self).rules@,
            final(self)@.rules == old(self)@.rules,
            final(self)@.callback_names == old(self)@.callback_names.push(non_terminal_symbol@),
            final(self).compile_functions@.drop_last() == old(self).compile_functions@,
            final(self).compile_functions@.last().0@ == non_terminal_symbol@,
            final(self).compile_functions@.last().1 == f,
            registered_callback(final(self).compile_functions@, non_terminal_symbol@) == Some(f),
            forall|other: Seq<char>|
                other != non_terminal_symbol@ ==> registered_callback(
                    final(self).compile_functions@,
                    other,
                ) == registered_callback(old(self).compile_functions@, other),
    {
        let ghost before = self.compile_functions@;
        self.compile_functions.push((non_terminal_symbol.to_owned(), f));
        proof {
            assert(callback_names_view(self.compile_functions@) =~= callback_names_view(
                before,
            ).push(non_terminal_symbol@));
            assert(rules_view(self.rules@) == old(self)@.rules);
            assert(self.compile_functions@.drop_last() =~= before);
        }
    }

    /// Compiles one node with the callback registered for its label, the
    /// last registration winning; `None` if no callback is registered for
    /// it. The pass-through fallback is the caller's business.
    pub fn compile_token(&self, non_terminal: &NonTerminalToken) -> (r: Option<String>)
        ensures
            r is Some <==> has_callback(self@, non_terminal.non_terminal_symbol@),
            r matches Some(text) ==> (registered_callback(
                self.compile_functions@,
                non_terminal.non_terminal_symbol@,
            ) matches Some(cb) && text@ == cb.spec_compile(non_terminal@, *self)),
    {
        let ghost name = non_terminal.non_terminal_symbol@;
        let ghost table = self.compile_functions@;
        let mut i: usize = self.compile_functions.len();
        proof {
            assert(table.take(table.len() as int) =~= table);
        }
        while i > 0
            invariant
                i <= self.compile_functions@.len(),
                table == self.compile_functions@,
                name == non_terminal.non_terminal_symbol@,
                registered_callback(table, name) == registered_callback(
                    table.take(i as int),
                    name,
                ),
                forall|k: int|
                    i <= k < self.compile_functions@.len()
                        ==> (#[trigger] callback_names_view(self.compile_functions@)[k])
                        != non_terminal.non_terminal_symbol@,
            decreases i,
        {
            i = i - 1;
            proof {
                assert(table.take(i + 1).drop_last() =~= table.take(i as int));
                assert(table.take(i + 1).last() == table[i as int]);
            }
            let entry = &self.compile_functions[i];
            if entry.0.eq(&non_terminal.non_terminal_symbol) {
                proof {
                    assert(callback_names_view(self.compile_functions@)[i as int]
                        == non_terminal.non_terminal_symbol@);
                    assert(has_callback(self@, non_terminal.non_terminal_symbol@));
                    assert(registered_callback(table, name) == Some(table[i as int].1));
                }
                return Some(entry.1.compile(non_terminal, self));
            }
            proof {
                assert(callback_names_view(self.compile_functions@)[i as int] == self.compile_functions@[i as int].0@);
                assert(table[i as int].0@ != name);
            }
        }
        proof {
            if has_callback(self@, non_terminal.non_terminal_symbol@) {
                let k = choose|k: int|
                    0 <= k < self@.callback_names.len() && self@.callback_names[k]
                        == non_terminal.non_terminal_symbol@;
            }
        }
        None
    }

    /// Turns the string into its fully collapsed token sequence, the AST:
    /// one terminal leaf per character, repeatedly reduced by every rule in
    /// full passes, higher priorities first, until a whole pass finds no
    /// matching window. The leaves of the result always spell the original
    /// string exactly. On a grammar whose choices never stop matching the
    /// fixpoint is unreachable, and the pass loop stops only at an
    /// astronomically large bound instead of running forever.
    pub fn symbolize_string(&self, string: &str) -> (r: Vec<Token>)
        ensures
            token_seq_view(r@) == spec_symbolize(self@.rules, string@),
            tokens_text(token_seq_view(r@)) == string@,
    {
        let ghost rules_v = self@.rules;
        let ghost ov = symbolize_order(rules_v);
        let ghost spec_pairs = Seq::new(rules_v.len(), |k: int| (rules_v[k].1 as int, k));
        let mut tokenized_string = characterize_string(string);
        let ghost init = token_seq_view(tokenized_string@);
        // Pair each rule's priority with its declaration index and sort
        // stably by priority; walking the result backwards visits higher
        // priorities first and, within one priority, later declarations
        // before earlier ones.
        let mut prio_idx: Vec<(usize, usize)> = Vec::new();
        let mut i: usize = 0;
        while i < self.rules.len()
            invariant
                i <= self.rules@.len(),
                prio_idx@.len() == i,
                forall|k: int|
                    0 <= k < i ==> #[trigger] prio_idx@[k] == (self.rules@[k].1, k as usize),
            decreases self.rules@.len() - i,
        {
            prio_idx.push((self.rules[i].1, i));
            i = i + 1;
        }
        proof {
            assert(ranges_view(prio_idx@) =~= spec_pairs);
            lemma_sort_ranges_contains(spec_pairs);
        }
        let sorted = stable_sort_pairs(&prio_idx);
        let ghost sorted_spec = sort_ranges(spec_pairs);
        proof {
            assert(ranges_view(sorted@) == sorted_spec);
            assert forall|j: int| 0 <= j < sorted_spec.len() implies 0 <= (
            #[trigger] sorted_spec[j]).1 < rules_v.len() by {
                assert(spec_pairs.contains(sorted_spec[j]));
                let k = choose|k: int| 0 <= k < spec_pairs.len() && spec_pairs[k] == sorted_spec[j];
            }
            assert(ov.len() == rules_v.len()) by {
                assert(sorted_spec.reverse().len() == sorted_spec.len());
            }
        }
        let mut fuel: usize = usize::MAX;
        loop
            invariant
                rules_v == self@.rules,
                ov == symbolize_order(rules_v),
                ov.len() == rules_v.len(),
                rules_v.len() == self.rules@.len(),
                sorted_spec == sort_ranges(spec_pairs),
                spec_pairs == Seq::new(rules_v.len(), |k: int| (rules_v[k].1 as int, k)),
                ranges_view(sorted@) == sorted_spec,
                sorted@.len() == rules_v.len(),
                forall|j: int|
                    0 <= j < sorted_spec.len() ==> 0 <= (#[trigger] sorted_spec[j]).1
                        < rules_v.len(),
                fuel <= usize::MAX,
                glob_iter(init, ov, fuel_limit()) == glob_iter(
                    token_seq_view(tokenized_string@),
                    ov,
                    fuel as nat,
                ),
            ensures
                token_seq_view(tokenized_string@) == glob_iter(init, ov, fuel_limit()),
            decreases fuel,
        {
            let ghost pass_start = token_seq_view(tokenized_string@);
            if fuel == 0 {
                proof {
                    assert(glob_iter(pass_start, ov, 0nat) == pass_start);
                }
                break;
            }
            let mut modified_this_iteration = false;
            let mut j: usize = sorted.len();
            proof {
                assert(ov.skip(0) =~= ov);
            }
            while j > 0
                invariant
                    rules_v == self@.rules,
                    ov == symbolize_order(rules_v),
                    ov.len() == rules_v.len(),
                    rules_v.len() == self.rules@.len(),
                    sorted_spec == sort_ranges(spec_pairs),
                    spec_pairs == Seq::new(rules_v.len(), |k: int| (rules_v[k].1 as int, k)),
                    ranges_view(sorted@) == sorted_spec,
                    sorted@.len() == rules_v.len(),
                    forall|jj: int|
                        0 <= jj < sorted_spec.len() ==> 0 <= (#[trigger] sorted_spec[jj]).1
                            < rules_v.len(),
                    j <= sorted@.len(),
                    do_pass(pass_start, ov) == do_pass(
                        token_seq_view(tokenized_string@),
                        ov.skip(sorted@.len() - j),
                    ),
                    pass_productive(pass_start, ov) == (modified_this_iteration
                        || pass_productive(
                        token_seq_view(tokenized_string@),
                        ov.skip(sorted@.len() - j),
                    )),
                decreases j,
            {
                let ghost m = sorted@.len() - j;
                let ghost cur = token_seq_view(tokenized_string@);
                j = j - 1;
                let idx = sorted[j].1;
                proof {
                    assert(sorted_spec[j as int] == (sorted@[j as int].0 as int, sorted@[
                        j as int].1 as int));
                    assert(0 <= sorted_spec[j as int].1 < rules_v.len());
                    assert(idx as int == sorted_spec[j as int].1);
                    assert(sorted_spec.reverse()[m] == sorted_spec[j as int]);
                    assert(ov[m] == rules_v[sorted_spec[j as int].1].0);
                    assert(rules_v[idx as int] == (self.rules@[idx as int].0@, self.rules@[
                        idx as int].1 as nat));
                    assert(ov[m] == self.rules@[idx as int].0@);
                    assert(ov.skip(m).first() == ov[m]);
                    assert(ov.skip(m).drop_first() =~= ov.skip(m + 1));
                }
                let non_terminal_symbol = &self.rules[idx].0;
                if non_terminal_symbol.further_symbolization_possible(&tokenized_string) {
                    modified_this_iteration = true;
                }
                proof {
                    assert(pass_productive(cur, ov.skip(m)) == (has_match(
                        cur,
                        ov[m].rule,
                    ) || pass_productive(collapse_symbol(cur, ov[m]), ov.skip(m + 1))));
                    assert(do_pass(cur, ov.skip(m)) == do_pass(
                        collapse_symbol(cur, ov[m]),
                        ov.skip(m + 1),
                    ));
                }
                non_terminal_symbol.symbolize_vec(&mut tokenized_string);
            }
            proof {
                let cur = token_seq_view(tokenized_string@);
                assert(ov.skip(0) =~= ov);
                assert(ov.skip(sorted@.len() - 0) =~= Seq::<NonTerminalSymbolView>::empty());
                assert(do_pass(cur, Seq::<NonTerminalSymbolView>::empty()) == cur);
                assert(!pass_productive(cur, Seq::<NonTerminalSymbolView>::empty()));
                assert(do_pass(pass_start, ov) == cur);
                assert(pass_productive(pass_start, ov) == modified_this_iteration);
            }
            if !modified_this_iteration {
                proof {
                    lemma_unproductive_pass(pass_start, ov);
                    assert(token_seq_view(tokenized_string@) == pass_start);
                    assert(glob_iter(pass_start, ov, fuel as nat) == pass_start);
                }
                break;
            }
            proof {
                assert(glob_iter(pass_start, ov, fuel as nat) == glob_iter(
                    do_pass(pass_start, ov),
                    ov,
                    (fuel - 1) as nat,
                ));
            }
            fuel = fuel - 1;
        }
        proof {
            assert(init == characterized(string@));
            assert(token_seq_view(tokenized_string@) == spec_symbolize(self@.rules, string@));
            lemma_symbolize_round_trip(self@.rules, string@);
        }
        tokenized_string
    }

    /// Compiles a string: symbolizes it, then maps each uppermost token to
    /// output text. A node whose label has a registered callback contributes
    /// that callback's output, the last registration for the label winning;
    /// any other node, and any terminal, contributes its own text verbatim.
    /// Only the uppermost tokens are compiled: recursion into children is a
    /// callback's own business, never automatic.
    pub fn compile_string(&self, string: &str) -> (r: String)
        ensures
            r@ == spec_compile_string(*self, string@),
    {
        let symbolized_string = self.symbolize_string(string);
        let ghost toks = spec_symbolize(self@.rules, string@);
        let ghost outs = toks.map_values(|t: TokenView| token_output(*self, t));
        proof {
            lemma_token_seq_view(symbolized_string@);
            assert(outs.len() == toks.len());
        }
        let mut r = String::new();
        let mut i: usize = 0;
        proof {
            assert(outs.take(0) =~= Seq::<Seq<char>>::empty());
        }
        while i < symbolized_string.len()
            invariant
                i <= symbolized_string@.len(),
                toks == token_seq_view(symbolized_string@),
                toks.len() == symbolized_string@.len(),
                forall|k: int|
                    0 <= k < symbolized_string@.len() ==> token_view(
                        #[trigger] symbolized_string@[k],
                    ) == toks[k],
                outs == toks.map_values(|t: TokenView| token_output(*self, t)),
                outs.len() == toks.len(),
                r@ == texts_concat(outs.take(i as int)),
            decreases symbolized_string@.len() - i,
        {
            let piece: String = match &symbolized_string[i] {
                Token::NonTerminalToken(non_terminal) => match self.compile_token(non_terminal) {
                    Some(compiled) => compiled,
                    None => {
                        proof {
                            lemma_registered_callback_some(
                                self.compile_functions@,
                                non_terminal.non_terminal_symbol@,
                            );
                        }
                        non_terminal.get_terminals()
                    },
                },
                Token::Terminal(terminal) => terminal.0.clone(),
            };
            proof {
                assert(piece@ == token_output(*self, toks[i as int]));
                assert(outs[i as int] == token_output(*self, toks[i as int]));
                assert(outs.take(i + 1).drop_last() =~= outs.take(i as int));
                assert(outs.take(i + 1).last() == outs[i as int]);
            }
            r.append(piece.as_str());
            i = i + 1;
        }
        proof {
            assert(outs.take(i as int) =~= outs);
        }
        r
    }

    /// True exactly when symbolizing the string yields a single uppermost
    /// token: the grammar covers the whole input with one root.
    pub fn compiles_to_root_token(&self, string: &str) -> (r: bool)
        ensures
            r == (spec_symbolize(self@.rules, string@).len() == 1),
    {
        let symbolized = self.symbolize_string(string);
        proof {
            lemma_token_seq_view(symbolized@);
        }
        symbolized.len() == 1
    }
}

impl<C> PartialEq for BackusNaurForm<C> {
    fn eq(&self, other: &Self) -> (r: bool) {
        if self.rules.len() != other.rules.len() {
            proof {
                assert(rules_view(self.rules@).len() == self.rules@.len());
                assert(rules_view(other.rules@).len() == other.rules@.len());
            }
            return false;
        }
        let mut i: usize = 0;
        while i < self.rules.len()
            invariant
                i <= self.rules@.len(),
                self.rules@.len() == other.rules@.len(),
                forall|k: int|
                    0 <= k < i ==> #[trigger] rules_view(self.rules@)[k] == rules_view(
                        other.rules@,
                    )[k],
            decreases self.rules@.len() - i,
        {
            let a = &self.rules[i];
            let b = &other.rules[i];
            if !(a.0.eq(&b.0) && a.1 == b.1) {
                proof {
                    assert(rules_view(self.rules@)[i as int] == (a.0@, a.1 as nat));
                    assert(rules_view(other.rules@)[i as int] == (b.0@, b.1 as nat));
                }
                return false;
            }
            proof {
                assert(rules_view(self.rules@)[i as int] == (a.0@, a.1 as nat));
                assert(rules_view(other.rules@)[i as int] == (b.0@, b.1 as nat));
            }
            i = i + 1;
        }
        proof {
            assert(rules_view(self.rules@) =~= rules_view(other.rules@));
        }
        true
    }
}

impl<C> vstd::std_specs::cmp::PartialEqSpecImpl for BackusNaurForm<C> {
    open spec fn obeys_eq_spec() -> bool {
        true
    }

    open spec fn eq_spec(&self, other: &BackusNaurForm<C>) -> bool {
        self@.rules == other@.rules
    }
}

/// The canonical text of one symbol reference: a terminal quoted, a
/// non-terminal bracketed, each followed by one space.
pub open spec fn spec_stringify_symbol(s: SymbolView) -> Seq<char> {
    match s {
        SymbolView::Terminal(t) => seq!['"'] + t + seq!['"', ' '],
        SymbolView::NonTerminal(n) => seq!['<'] + n + seq!['>', ' '],
    }
}

/// The canonical text of a choice's symbols, in order.
pub open spec fn spec_stringify_symbols(c: Seq<SymbolView>) -> Seq<char>
    decreases c.len(),
{
    if c.len() == 0 {
        Seq::empty()
    } else {
        spec_stringify_symbols(c.drop_last()) + spec_stringify_symbol(c.last())
    }
}

/// The canonical text of one choice: a pipe and space first for every
/// choice but the first, then its symbols.
pub open spec fn spec_stringify_choice(c: Seq<SymbolView>, index: int) -> Seq<char> {
    if index != 0 {
        seq!['|', ' '] + spec_stringify_symbols(c)
    } else {
        spec_stringify_symbols(c)
    }
}

/// The canonical text of a whole expression: its choices in order,
/// separated by pipes.
pub open spec fn spec_stringify_expression(e: Seq<Seq<SymbolView>>) -> Seq<char>
    decreases e.len(),
{
    if e.len() == 0 {
        Seq::empty()
    } else {
        spec_stringify_expression(e.drop_last()) + spec_stringify_choice(e.last(), e.len() - 1)
    }
}

/// Writes one choice back as rule text: each terminal quoted, each
/// non-terminal bracketed, a leading pipe for every choice but the first.
pub fn stringify_choice(choice: &Choice, index: usize) -> (r: String)
    ensures
        r@ == spec_stringify_choice(choice_view(choice@), index as int),
{
    let ghost cv = choice_view(choice@);
    let mut out = String::new();
    if index != 0 {
        push_char(&mut out, '|');
        push_char(&mut out, ' ');
    }
    let ghost header = out@;
    let mut j: usize = 0;
    while j < choice.len()
        invariant
            j <= choice@.len(),
            cv == choice_view(choice@),
            cv.len() == choice@.len(),
            out@ == header + spec_stringify_symbols(cv.take(j as int)),
            header == if index != 0 {
                seq!['|', ' ']
            } else {
                Seq::<char>::empty()
            },
        decreases choice@.len() - j,
    {
        let ghost before = out@;
        proof {
            assert(cv.take(j + 1).drop_last() =~= cv.take(j as int));
            assert(cv.take(j + 1).last() == cv[j as int]);
        }
        match &choice[j] {
            Symbol::Terminal(inner) => {
                push_char(&mut out, '"');
                out.append(inner.as_str());
                push_char(&mut out, '"');
                push_char(&mut out, ' ');
                proof {
                    assert(out@ =~= before + spec_stringify_symbol(cv[j as int]));
                }
            },
            Symbol::NonTerminal(inner) => {
                push_char(&mut out, '<');
                out.append(inner.as_str());
                push_char(&mut out, '>');
                push_char(&mut out, ' ');
                proof {
                    assert(out@ =~= before + spec_stringify_symbol(cv[j as int]));
                }
            },
        }
        proof {
            assert(out@ =~= header + spec_stringify_symbols(cv.take(j + 1)));
        }
        j = j + 1;
    }
    proof {
        assert(cv.take(j as int) =~= cv);
        if index == 0 {
            assert(out@ =~= spec_stringify_symbols(cv));
        }
    }
    out
}

/// Writes a whole expression back as rule text: its choices in order,
/// separated by pipes.
pub fn stringify_expression(expression: &Expression) -> (r: String)
    ensures
        r@ == spec_stringify_expression(expression_view(expression@)),
{
    let ghost ev = expression_view(expression@);
    let mut out = String::new();
    let mut i: usize = 0;
    proof {
        assert(ev.take(0) =~= Seq::<Seq<SymbolView>>::empty());
    }
    while i < expression.len()
        invariant
            i <= expression@.len(),
            ev == expression_view(expression@),
            ev.len() == expression@.len(),
            out@ == spec_stringify_expression(ev.take(i as int)),
        decreases expression@.len() - i,
    {
        let ghost before = out@;
        proof {
            assert(ev.take(i + 1).drop_last() =~= ev.take(i as int));
            assert(ev.take(i + 1).last() == ev[i as int]);
        }
        let piece = stringify_choice(&expression[i], i);
        proof {
            assert(choice_view(expression@[i as int]@) =~= ev[i as int]);
        }
        out.append(piece.as_str());
        proof {
            assert(out@ =~= spec_stringify_expression(ev.take(i + 1)));
        }
        i = i + 1;
    }
    proof {
        assert(ev.take(i as int) =~= ev);
    }
    out
}

/// What one uppermost token contributes to the compiled output: a
/// terminal's own text; for a node, the output of the last callback
/// registered for its label, or the node's own text where none is.
pub open spec fn token_output<C: CompileFunction>(bnf: BackusNaurForm<C>, t: TokenView) -> Seq<
    char,
> {
    match t {
        TokenView::Terminal(text) => text,
        TokenView::Node { name, children: _ } => match registered_callback(
            bnf.compile_functions@,
            name,
        ) {
            Some(cb) => cb.spec_compile(t, bnf),
            None => token_text(t),
        },
    }
}

/// What `compile_string` returns: the string symbolized, and each
/// uppermost token's contribution concatenated in order.
pub open spec fn spec_compile_string<C: CompileFunction>(
    bnf: BackusNaurForm<C>,
    s: Seq<char>,
) -> Seq<char> {
    texts_concat(spec_symbolize(bnf@.rules, s).map_values(|t: TokenView| token_output(bnf, t)))
}

/// Concatenating each token's own text is flattening.
proof fn lemma_texts_concat_token_texts(ts: Seq<TokenView>)
    ensures
        texts_concat(ts.map_values(|t: TokenView| token_text(t))) == tokens_text(ts),
    decreases ts.len(),
{
    let outs = ts.map_values(|t: TokenView| token_text(t));
    if ts.len() == 0 {
        assert(outs =~= Seq::<Seq<char>>::empty());
    } else {
        lemma_texts_concat_token_texts(ts.drop_last());
        assert(outs.drop_last() =~= ts.drop_last().map_values(|t: TokenView| token_text(t)));
        assert(outs.last() == token_text(ts.last()));
        assert(texts_concat(outs) == texts_concat(outs.drop_last()) + outs.last());
    }
}

/// Pass-through compilation: under a grammar whose callbacks all pass
/// through, compiling a string returns exactly that string — every
/// uppermost token contributes its own text, and the collapsed tree spells
/// the input.
pub proof fn lemma_pass_through_compile(bnf: BackusNaurForm<PassThrough>, s: Seq<char>)
    ensures
        spec_compile_string(bnf, s) == s,
{
    let toks = spec_symbolize(bnf@.rules, s);
    let outs = toks.map_values(|t: TokenView| token_output(bnf, t));
    assert(outs =~= toks.map_values(|t: TokenView| token_text(t))) by {
        assert forall|k: int| 0 <= k < toks.len() implies token_output(bnf, #[trigger] toks[k])
            == token_text(toks[k]) by {}
    }
    lemma_texts_concat_token_texts(toks);
    lemma_symbolize_round_trip(bnf@.rules, s);
}

} // verus!
