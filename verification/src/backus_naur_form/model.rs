//! The mathematical model of the engine: ghost views of symbols and tokens,
//! and the specification-level meaning of matching, collapsing and the
//! symbolization fixpoint that the executable code is proved against.

use vstd::prelude::*;

verus! {

/// Ghost view of a grammar symbol reference: either an exact literal text or
/// the name of a non-terminal (angle brackets excluded).
pub enum SymbolView {
    Terminal(Seq<char>),
    NonTerminal(Seq<char>),
}

/// Ghost view of a token: a terminal leaf holding literal text, or a labeled
/// node with an ordered sequence of children.
#[verifier::ext_equal]
pub enum TokenView {
    Terminal(Seq<char>),
    Node { name: Seq<char>, children: Seq<TokenView> },
}

/// The text a token stands for: its own text for a terminal, the
/// concatenation of its leaves' text, left to right, for a node.
pub open spec fn token_text(t: TokenView) -> Seq<char>
    decreases t,
{
    match t {
        TokenView::Terminal(s) => s,
        TokenView::Node { name: _, children } => tokens_text(children),
    }
}

/// The concatenated text of a sequence of tokens, left to right.
pub open spec fn tokens_text(ts: Seq<TokenView>) -> Seq<char>
    decreases ts,
{
    if ts.len() == 0 {
        Seq::empty()
    } else {
        tokens_text(ts.drop_last()) + token_text(ts.last())
    }
}

/// Whether a token is of the kind a symbol reference names: a terminal
/// symbol matches a terminal token with the same text, a non-terminal symbol
/// matches a node with the same name. Children are never compared.
pub open spec fn token_matches(t: TokenView, s: SymbolView) -> bool {
    match s {
        SymbolView::Terminal(text) => t == TokenView::Terminal(text),
        SymbolView::NonTerminal(symbol_name) => t matches TokenView::Node { name, children: _ }
            && name == symbol_name,
    }
}

/// Whether the window of `toks` starting at `i` matches `choice` element-wise.
pub open spec fn choice_matches_at(toks: Seq<TokenView>, choice: Seq<SymbolView>, i: int) -> bool {
    &&& 0 <= i
    &&& i + choice.len() <= toks.len()
    &&& forall|j: int| 0 <= j < choice.len() ==> token_matches(toks[i + j], #[trigger] choice[j])
}

/// The candidate ranges of one choice over `toks` from position `i` on, as
/// half-open index ranges in ascending position order. An empty choice never
/// yields a range: there is no window to collapse.
pub open spec fn choice_ranges_from(toks: Seq<TokenView>, choice: Seq<SymbolView>, i: int) -> Seq<
    (int, int),
>
    decreases toks.len() - i,
{
    if choice.len() == 0 || i < 0 || i + choice.len() > toks.len() {
        Seq::empty()
    } else if choice_matches_at(toks, choice, i) {
        seq![(i, i + choice.len() as int)] + choice_ranges_from(toks, choice, i + 1)
    } else {
        choice_ranges_from(toks, choice, i + 1)
    }
}

/// All candidate ranges of one choice, in ascending position order.
pub open spec fn choice_ranges(toks: Seq<TokenView>, choice: Seq<SymbolView>) -> Seq<(int, int)> {
    choice_ranges_from(toks, choice, 0)
}

/// The candidate ranges of a list of choices, choice by choice in order,
/// positions ascending within each choice.
pub open spec fn expression_ranges(toks: Seq<TokenView>, choices: Seq<Seq<SymbolView>>) -> Seq<
    (int, int),
>
    decreases choices.len(),
{
    if choices.len() == 0 {
        Seq::empty()
    } else {
        expression_ranges(toks, choices.drop_last()) + choice_ranges(toks, choices.last())
    }
}

/// Whether two half-open ranges share at least one index.
pub open spec fn ranges_overlap(a: (int, int), b: (int, int)) -> bool {
    a.0 < b.1 && b.0 < a.1
}

/// Whether a range overlaps none of a list of ranges.
pub open spec fn disjoint_from_all(r: (int, int), kept: Seq<(int, int)>) -> bool {
    forall|k: int| 0 <= k < kept.len() ==> !ranges_overlap(r, #[trigger] kept[k])
}

/// Keeps each range that does not overlap an earlier kept one, in order.
/// On a list of pairwise-disjoint ranges this keeps every range.
pub open spec fn greedy_disjoint(rs: Seq<(int, int)>) -> Seq<(int, int)>
    decreases rs.len(),
{
    if rs.len() == 0 {
        Seq::empty()
    } else {
        let kept = greedy_disjoint(rs.drop_last());
        if disjoint_from_all(rs.last(), kept) {
            kept.push(rs.last())
        } else {
            kept
        }
    }
}

/// The sort order of ranges: ascending start, then ascending end, so that
/// an empty range sorts before a wider one at the same start. Pairs whose
/// keys are equal keep their relative order (a stable insertion).
pub open spec fn range_le(a: (int, int), b: (int, int)) -> bool {
    a.0 < b.0 || (a.0 == b.0 && a.1 <= b.1)
}

/// Inserts a range into a sorted list, after any range it does not order
/// strictly below.
pub open spec fn insert_range_sorted(r: (int, int), rs: Seq<(int, int)>) -> Seq<(int, int)>
    decreases rs.len(),
{
    if rs.len() == 0 {
        seq![r]
    } else if range_le(rs.last(), r) {
        rs.push(r)
    } else {
        insert_range_sorted(r, rs.drop_last()).push(rs.last())
    }
}

/// Sorts ranges by ascending start, then ascending end; ranges with equal
/// keys keep their relative order (a stable insertion sort).
pub open spec fn sort_ranges(rs: Seq<(int, int)>) -> Seq<(int, int)>
    decreases rs.len(),
{
    if rs.len() == 0 {
        Seq::empty()
    } else {
        insert_range_sorted(rs.last(), sort_ranges(rs.drop_last()))
    }
}

/// Whether a list of ranges is sorted, pairwise disjoint and within
/// bounds: the shape range replacement relies on. An empty range is
/// admitted; it covers no index and only marks an insertion point.
pub open spec fn ranges_wf(rs: Seq<(int, int)>, len: int) -> bool {
    &&& forall|k: int| 0 <= k < rs.len() ==> 0 <= (#[trigger] rs[k]).0 <= rs[k].1 <= len
    &&& forall|k: int, l: int| 0 <= k < l < rs.len() ==> (#[trigger] rs[k]).1 <= (#[trigger] rs[l]).0
}

/// One in-place range replacement: the tokens of the half-open range make
/// the children of a single new element.
pub open spec fn splice_one<A>(s: Seq<A>, r: (int, int), rep: A) -> Seq<A> {
    s.take(r.0) + seq![rep] + s.skip(r.1)
}

/// Replaces every range, rightmost first so the earlier, still unprocessed
/// ranges keep their indices; `reps` gives the replacement element of each
/// range, in range order.
pub open spec fn splice_ranges<A>(s: Seq<A>, rs: Seq<(int, int)>, reps: Seq<A>) -> Seq<A>
    decreases rs.len(),
{
    if rs.len() == 0 {
        s
    } else {
        splice_ranges(splice_one(s, rs.last(), reps.last()), rs.drop_last(), reps.drop_last())
    }
}

/// The view of executable ranges: each `(usize, usize)` pair as mathematical
/// integers.
pub open spec fn ranges_view(rs: Seq<(usize, usize)>) -> Seq<(int, int)> {
    rs.map_values(|r: (usize, usize)| (r.0 as int, r.1 as int))
}

/// How many indices a half-open range covers.
pub open spec fn range_span(r: (int, int)) -> int {
    r.1 - r.0
}

/// The total number of indices the ranges cover.
pub open spec fn total_span(rs: Seq<(int, int)>) -> int
    decreases rs.len(),
{
    if rs.len() == 0 {
        0
    } else {
        total_span(rs.drop_last()) + range_span(rs.last())
    }
}

/// Whether index `p` lies inside one of the ranges.
pub open spec fn covered(p: int, rs: Seq<(int, int)>) -> bool {
    exists|k: int| 0 <= k < rs.len() && (#[trigger] rs[k]).0 <= p < rs[k].1
}

/// By how much the indices left of `p` shrink when every range wholly left
/// of `p` is replaced by a single element.
pub open spec fn shrink_before(p: int, rs: Seq<(int, int)>) -> int
    decreases rs.len(),
{
    if rs.len() == 0 {
        0
    } else {
        shrink_before(p, rs.drop_last()) + if rs.last().1 <= p {
            range_span(rs.last()) - 1
        } else {
            0
        }
    }
}

/// Whether the ranges are pairwise disjoint, in any order.
pub open spec fn pairwise_disjoint(rs: Seq<(int, int)>) -> bool {
    forall|k: int, l: int|
        0 <= k < l < rs.len() ==> !ranges_overlap(#[trigger] rs[k], #[trigger] rs[l])
}

/// Whether each range lies within a sequence of length `len`. An empty
/// range (`start == end`) is admitted.
pub open spec fn ranges_in_bounds(rs: Seq<(int, int)>, len: int) -> bool {
    forall|k: int| 0 <= k < rs.len() ==> 0 <= (#[trigger] rs[k]).0 <= rs[k].1 <= len
}

/// Prepending a range (and its replacement) to a replacement pass is the
/// same as splicing that range into the result of the rest of the pass:
/// the recursion works right to left, so the leftmost range goes last.
pub proof fn lemma_splice_ranges_cons<A>(
    s: Seq<A>,
    r: (int, int),
    rep: A,
    rs: Seq<(int, int)>,
    reps: Seq<A>,
)
    requires
        reps.len() == rs.len(),
    ensures
        splice_ranges(s, seq![r] + rs, seq![rep] + reps) == splice_one(
            splice_ranges(s, rs, reps),
            r,
            rep,
        ),
    decreases rs.len(),
{
    let rs1 = seq![r] + rs;
    let reps1 = seq![rep] + reps;
    assert(rs1.len() == rs.len() + 1);
    if rs.len() == 0 {
        assert(rs1.last() == r);
        assert(reps1.last() == rep);
        assert(rs1.drop_last() =~= Seq::<(int, int)>::empty());
        assert(reps1.drop_last() =~= Seq::<A>::empty());
        assert(splice_ranges(s, rs1, reps1) == splice_ranges(
            splice_one(s, r, rep),
            rs1.drop_last(),
            reps1.drop_last(),
        ));
        assert(splice_ranges(splice_one(s, r, rep), rs1.drop_last(), reps1.drop_last())
            == splice_one(s, r, rep));
        assert(splice_ranges(s, rs, reps) == s);
    } else {
        assert(rs1.last() == rs.last());
        assert(reps1.last() == reps.last());
        assert(rs1.drop_last() =~= seq![r] + rs.drop_last());
        assert(reps1.drop_last() =~= seq![rep] + reps.drop_last());
        let s1 = splice_one(s, rs.last(), reps.last());
        assert(splice_ranges(s, rs1, reps1) == splice_ranges(
            s1,
            seq![r] + rs.drop_last(),
            seq![rep] + reps.drop_last(),
        ));
        lemma_splice_ranges_cons(s1, r, rep, rs.drop_last(), reps.drop_last());
        assert(splice_ranges(s1, seq![r] + rs.drop_last(), seq![rep] + reps.drop_last())
            == splice_one(splice_ranges(s1, rs.drop_last(), reps.drop_last()), r, rep));
        assert(splice_ranges(s, rs, reps) == splice_ranges(
            s1,
            rs.drop_last(),
            reps.drop_last(),
        ));
    }
}

/// If no range reaches left of `p`, nothing left of `p` shrinks.
pub proof fn lemma_shrink_before_zero(p: int, rs: Seq<(int, int)>)
    requires
        forall|k: int| 0 <= k < rs.len() ==> (#[trigger] rs[k]).1 > p,
    ensures
        shrink_before(p, rs) == 0,
    decreases rs.len(),
{
    if rs.len() > 0 {
        lemma_shrink_before_zero(p, rs.drop_last());
    }
}

/// How one splice moves the elements around the replaced range; for an
/// empty range nothing is removed and the replacement is inserted.
pub proof fn lemma_splice_one_index<A>(s: Seq<A>, r: (int, int), rep: A)
    requires
        0 <= r.0 <= r.1 <= s.len(),
    ensures
        splice_one(s, r, rep).len() == s.len() - range_span(r) + 1,
        forall|q: int| 0 <= q < r.0 ==> splice_one(s, r, rep)[q] == s[q],
        splice_one(s, r, rep)[r.0] == rep,
        forall|q: int|
            r.0 < q < splice_one(s, r, rep).len() ==> splice_one(s, r, rep)[q] == s[q + range_span(
                r,
            ) - 1],
{
}

/// The shape of a whole replacement pass over well-formed ranges: the new
/// length, and where every element outside the ranges ends up, unchanged
/// and in its original relative order.
pub proof fn lemma_splice_ranges_shape<A>(s: Seq<A>, rs: Seq<(int, int)>, reps: Seq<A>)
    requires
        ranges_wf(rs, s.len() as int),
        reps.len() == rs.len(),
    ensures
        splice_ranges(s, rs, reps).len() == s.len() - total_span(rs) + rs.len(),
        forall|p: int|
            0 <= p < s.len() && !covered(p, rs) ==> 0 <= p - shrink_before(p, rs) < splice_ranges(
                s,
                rs,
                reps,
            ).len() && splice_ranges(s, rs, reps)[p - shrink_before(p, rs)] == s[p],
    decreases rs.len(),
{
    if rs.len() > 0 {
        let r = rs.last();
        let rep = reps.last();
        let span = range_span(r);
        assert(0 <= r.0 <= r.1 <= s.len());
        lemma_splice_one_index(s, r, rep);
        let s1 = splice_one(s, r, rep);
        let dl = rs.drop_last();
        assert forall|k: int| 0 <= k < dl.len() implies (#[trigger] dl[k]).1 <= r.0 by {
            assert(rs[k] == dl[k]);
            assert(rs[k].1 <= rs[rs.len() - 1].0);
        }
        assert(ranges_wf(dl, s1.len() as int));
        lemma_splice_ranges_shape(s1, dl, reps.drop_last());
        let result = splice_ranges(s, rs, reps);
        assert(result == splice_ranges(s1, dl, reps.drop_last()));
        assert(result.len() == s.len() - total_span(rs) + rs.len());
        assert forall|p: int| 0 <= p < s.len() && !covered(p, rs) implies 0 <= p - shrink_before(
            p,
            rs,
        ) < result.len() && result[p - shrink_before(p, rs)] == s[p] by {
            assert(!(r.0 <= p < r.1));
            assert forall|k: int| 0 <= k < dl.len() implies !((#[trigger] dl[k]).0 <= p
                < dl[k].1) by {
                assert(rs[k] == dl[k]);
            }
            assert(!covered(p, dl));
            if p < r.0 {
                assert(s1[p] == s[p]);
                assert(shrink_before(p, rs) == shrink_before(p, dl));
                assert(result[p - shrink_before(p, dl)] == s1[p]);
            } else {
                assert(p >= r.1);
                let p1 = p - span + 1;
                assert(r.0 < p1 < s1.len());
                assert(s1[p1] == s[p1 + span - 1]);
                assert(s1[p1] == s[p]);
                assert(!covered(p1, dl));
                assert(shrink_before(p1, dl) == shrink_before(p, dl)) by {
                    lemma_shrink_before_same(p1, p, dl);
                }
                assert(shrink_before(p, rs) == shrink_before(p, dl) + span - 1);
                assert(p - shrink_before(p, rs) == p1 - shrink_before(p1, dl));
                assert(result[p1 - shrink_before(p1, dl)] == s1[p1]);
            }
        }
    }
}

/// Two positions with the same ranges wholly to their left shrink alike.
pub proof fn lemma_shrink_before_same(p1: int, p2: int, rs: Seq<(int, int)>)
    requires
        forall|k: int| 0 <= k < rs.len() ==> ((#[trigger] rs[k]).1 <= p1 <==> rs[k].1 <= p2),
    ensures
        shrink_before(p1, rs) == shrink_before(p2, rs),
    decreases rs.len(),
{
    if rs.len() > 0 {
        lemma_shrink_before_same(p1, p2, rs.drop_last());
    }
}

/// A stable insertion into a sorted, pairwise-disjoint list of ranges keeps
/// it sorted and disjoint, and only adds the new range.
pub proof fn lemma_insert_range_wf(r: (int, int), rs: Seq<(int, int)>, len: int)
    requires
        ranges_wf(rs, len),
        0 <= r.0 <= r.1 <= len,
        disjoint_from_all(r, rs),
    ensures
        ranges_wf(insert_range_sorted(r, rs), len),
        insert_range_sorted(r, rs).len() == rs.len() + 1,
        forall|j: int|
            0 <= j < insert_range_sorted(r, rs).len() ==> (#[trigger] insert_range_sorted(r, rs)[j]
                == r || rs.contains(insert_range_sorted(r, rs)[j])),
    decreases rs.len(),
{
    let result = insert_range_sorted(r, rs);
    if rs.len() == 0 {
        assert(result =~= seq![r]);
    } else if range_le(rs.last(), r) {
        assert(result =~= rs.push(r));
        let last = rs.last();
        assert(!ranges_overlap(r, last));
        assert(last.1 <= r.0) by {
            if last.0 < r.0 {
                if last.1 > r.0 {
                    assert(ranges_overlap(r, last));
                }
            } else {
                assert(last.0 == r.0 && last.1 <= r.1);
                if last.1 > last.0 {
                    assert(ranges_overlap(r, last));
                }
            }
        }
        assert forall|k: int| 0 <= k < rs.len() implies (#[trigger] rs[k]).1 <= r.0 by {
            if k < rs.len() - 1 {
                assert(rs[k].1 <= rs[rs.len() - 1].0);
            }
        }
        assert forall|j: int| 0 <= j < result.len() implies (#[trigger] result[j] == r
            || rs.contains(result[j])) by {
            if j < rs.len() {
                assert(rs[j] == result[j]);
            }
        }
    } else {
        let last = rs.last();
        let dl = rs.drop_last();
        assert(!ranges_overlap(r, last));
        assert(r.1 <= last.0) by {
            if r.0 < last.0 {
                if r.1 > last.0 {
                    assert(ranges_overlap(r, last));
                }
            } else {
                assert(r.0 == last.0 && r.1 < last.1);
                if r.1 > r.0 {
                    assert(ranges_overlap(r, last));
                }
            }
        }
        lemma_drop_last_wf(rs, len);
        assert forall|k: int| 0 <= k < dl.len() implies !ranges_overlap(r, #[trigger] dl[k]) by {
            assert(dl[k] == rs[k]);
        }
        lemma_insert_range_wf(r, dl, len);
        let inner = insert_range_sorted(r, dl);
        assert(result == inner.push(last));
        assert forall|j: int| 0 <= j < inner.len() implies (#[trigger] inner[j]).1 <= last.0 by {
            if inner[j] == r {
            } else {
                let k = choose|k: int| 0 <= k < dl.len() && dl[k] == inner[j];
                assert(rs[k].1 <= rs[rs.len() - 1].0);
            }
        }
        assert forall|k: int, l: int| 0 <= k < l < result.len() implies (#[trigger] result[k]).1
            <= (#[trigger] result[l]).0 by {
            if l < inner.len() {
                assert(result[k] == inner[k] && result[l] == inner[l]);
            } else {
                assert(result[l] == last);
                assert(result[k] == inner[k]);
            }
        }
        assert forall|k: int| 0 <= k < result.len() implies 0 <= (#[trigger] result[k]).0
            <= result[k].1 <= len by {
            if k < inner.len() {
                assert(result[k] == inner[k]);
            }
        }
        assert forall|j: int| 0 <= j < result.len() implies (#[trigger] result[j] == r
            || rs.contains(result[j])) by {
            if j < inner.len() {
                assert(result[j] == inner[j]);
                if inner[j] != r {
                    let k = choose|k: int| 0 <= k < dl.len() && dl[k] == inner[j];
                    assert(rs[k] == result[j]);
                }
            } else {
                assert(rs[rs.len() - 1] == result[j]);
            }
        }
    }
}

/// Dropping the last range of a well-formed list keeps it well formed.
pub proof fn lemma_drop_last_wf(rs: Seq<(int, int)>, len: int)
    requires
        ranges_wf(rs, len),
        rs.len() > 0,
    ensures
        ranges_wf(rs.drop_last(), len),
{
    let dl = rs.drop_last();
    assert forall|k: int| 0 <= k < dl.len() implies 0 <= (#[trigger] dl[k]).0 <= dl[k].1 <= len by {
        assert(dl[k] == rs[k]);
    }
    assert forall|k: int, l: int| 0 <= k < l < dl.len() implies (#[trigger] dl[k]).1
        <= (#[trigger] dl[l]).0 by {
        assert(dl[k] == rs[k] && dl[l] == rs[l]);
    }
}

/// A stable insertion adds the span of the new range, and its shrink effect
/// at every position right of the new range.
pub proof fn lemma_insert_range_span(r: (int, int), rs: Seq<(int, int)>)
    ensures
        total_span(insert_range_sorted(r, rs)) == total_span(rs) + range_span(r),
        forall|p: int|
            shrink_before(p, insert_range_sorted(r, rs)) == shrink_before(p, rs) + if r.1 <= p {
                range_span(r) - 1
            } else {
                0
            },
    decreases rs.len(),
{
    let result = insert_range_sorted(r, rs);
    if rs.len() == 0 {
        assert(result =~= seq![r]);
        assert(result.last() == r);
        assert(result.drop_last() =~= Seq::<(int, int)>::empty());
        assert(total_span(result.drop_last()) == 0);
        assert(total_span(rs) == 0);
        assert(total_span(result) == total_span(rs) + range_span(r));
        assert forall|p: int| shrink_before(p, result) == shrink_before(p, rs) + (if r.1 <= p {
            range_span(r) - 1
        } else {
            0
        }) by {
            assert(shrink_before(p, result.drop_last()) == 0);
            assert(shrink_before(p, rs) == 0);
            assert(shrink_before(p, result) == shrink_before(p, result.drop_last()) + if result.last().1 <= p {
                range_span(result.last()) - 1
            } else {
                0
            });
        }
    } else if range_le(rs.last(), r) {
        assert(result =~= rs.push(r));
        assert(result.last() == r);
        assert(result.drop_last() =~= rs);
        assert(total_span(result.drop_last()) == total_span(rs));
        assert(total_span(result) == total_span(rs) + range_span(r));
        assert forall|p: int| shrink_before(p, result) == shrink_before(p, rs) + (if r.1 <= p {
            range_span(r) - 1
        } else {
            0
        }) by {
            assert(shrink_before(p, result.drop_last()) == shrink_before(p, rs));
            assert(shrink_before(p, result) == shrink_before(p, result.drop_last()) + if result.last().1 <= p {
                range_span(result.last()) - 1
            } else {
                0
            });
        }
    } else {
        let last = rs.last();
        let dl = rs.drop_last();
        lemma_insert_range_span(r, dl);
        let inner = insert_range_sorted(r, dl);
        assert(result == inner.push(last));
        assert(result.last() == last);
        assert(result.drop_last() =~= inner);
        assert forall|p: int| #[trigger] shrink_before(p, result) == shrink_before(p, rs) + (if r.1
            <= p {
            range_span(r) - 1
        } else {
            0
        }) by {
            assert(shrink_before(p, result) == shrink_before(p, inner) + if last.1 <= p {
                range_span(last) - 1
            } else {
                0
            });
            assert(shrink_before(p, inner) == shrink_before(p, dl) + if r.1 <= p {
                range_span(r) - 1
            } else {
                0
            });
            assert(shrink_before(p, rs) == shrink_before(p, dl) + if last.1 <= p {
                range_span(last) - 1
            } else {
                0
            });
        }
    }
}

/// A stable insertion covers the new range's indices and the old ones.
pub proof fn lemma_insert_range_covered(r: (int, int), rs: Seq<(int, int)>)
    ensures
        forall|p: int|
            #[trigger] covered(p, insert_range_sorted(r, rs)) <==> (r.0 <= p < r.1 || covered(
                p,
                rs,
            )),
    decreases rs.len(),
{
    let result = insert_range_sorted(r, rs);
    if rs.len() == 0 {
        assert(result =~= seq![r]);
        assert forall|p: int| covered(p, result) <==> (r.0 <= p < r.1 || covered(p, rs)) by {
            if r.0 <= p < r.1 {
                assert(result[0].0 <= p < result[0].1);
            }
        }
    } else if range_le(rs.last(), r) {
        assert(result =~= rs.push(r));
        assert forall|p: int| covered(p, result) <==> (r.0 <= p < r.1 || covered(p, rs)) by {
            if covered(p, result) {
                let k = choose|k: int| 0 <= k < result.len() && (#[trigger] result[k]).0 <= p
                    < result[k].1;
                if k < rs.len() {
                    assert(rs[k].0 <= p < rs[k].1);
                }
            }
            if r.0 <= p < r.1 {
                assert(result[rs.len() as int].0 <= p < result[rs.len() as int].1);
            }
            if covered(p, rs) {
                let k = choose|k: int| 0 <= k < rs.len() && (#[trigger] rs[k]).0 <= p < rs[k].1;
                assert(result[k].0 <= p < result[k].1);
            }
        }
    } else {
        let last = rs.last();
        let dl = rs.drop_last();
        lemma_insert_range_covered(r, dl);
        let inner = insert_range_sorted(r, dl);
        assert(result == inner.push(last));
        assert forall|p: int| covered(p, result) <==> (r.0 <= p < r.1 || covered(p, rs)) by {
            if covered(p, result) {
                let k = choose|k: int| 0 <= k < result.len() && (#[trigger] result[k]).0 <= p
                    < result[k].1;
                if k < inner.len() {
                    assert(inner[k].0 <= p < inner[k].1);
                    assert(covered(p, inner));
                    if !(r.0 <= p < r.1) {
                        assert(covered(p, dl));
                        let k2 = choose|k2: int| 0 <= k2 < dl.len() && (#[trigger] dl[k2]).0 <= p
                            < dl[k2].1;
                        assert(dl[k2] == rs[k2]);
                        assert(rs[k2].0 <= p < rs[k2].1);
                    }
                } else {
                    assert(rs[rs.len() - 1].0 <= p < rs[rs.len() - 1].1);
                }
            }
            if r.0 <= p < r.1 {
                assert(covered(p, inner));
                let k = choose|k: int| 0 <= k < inner.len() && (#[trigger] inner[k]).0 <= p
                    < inner[k].1;
                assert(result[k].0 <= p < result[k].1);
            }
            if covered(p, rs) {
                let k = choose|k: int| 0 <= k < rs.len() && (#[trigger] rs[k]).0 <= p < rs[k].1;
                if k < rs.len() - 1 {
                    assert(dl[k].0 <= p < dl[k].1);
                    assert(covered(p, dl));
                    assert(covered(p, inner));
                    let k2 = choose|k2: int| 0 <= k2 < inner.len() && (#[trigger] inner[k2]).0 <= p
                        < inner[k2].1;
                    assert(result[k2].0 <= p < result[k2].1);
                } else {
                    assert(result[result.len() - 1].0 <= p < result[result.len() - 1].1);
                }
            }
        }
    }
}

/// Where a stable insertion puts the new range: right after the last range
/// that does not order strictly above it.
pub proof fn lemma_insert_range_sorted_at(r: (int, int), rs: Seq<(int, int)>, pos: int)
    requires
        0 <= pos <= rs.len(),
        forall|k: int| pos <= k < rs.len() ==> !range_le(#[trigger] rs[k], r),
        pos > 0 ==> range_le(rs[pos - 1], r),
    ensures
        insert_range_sorted(r, rs) == rs.take(pos) + seq![r] + rs.skip(pos),
    decreases rs.len(),
{
    if rs.len() == 0 {
        assert(insert_range_sorted(r, rs) =~= rs.take(pos) + seq![r] + rs.skip(pos));
    } else if range_le(rs.last(), r) {
        assert(pos == rs.len());
        assert(insert_range_sorted(r, rs) == rs.push(r));
        assert(rs.push(r) =~= rs.take(pos) + seq![r] + rs.skip(pos));
    } else {
        assert(pos < rs.len());
        let dl = rs.drop_last();
        assert forall|k: int| pos <= k < dl.len() implies !range_le(#[trigger] dl[k], r) by {
            assert(dl[k] == rs[k]);
        }
        if pos > 0 {
            assert(dl[pos - 1] == rs[pos - 1]);
        }
        lemma_insert_range_sorted_at(r, dl, pos);
        assert(insert_range_sorted(r, rs) == insert_range_sorted(r, dl).push(rs.last()));
        assert((dl.take(pos) + seq![r] + dl.skip(pos)).push(rs.last()) =~= rs.take(pos) + seq![r]
            + rs.skip(pos));
    }
}

/// Sorting pairwise-disjoint, in-bounds ranges by start yields a
/// well-formed list of the same ranges: same indices covered, same total
/// span, same shrink effect at every position.
pub proof fn lemma_sort_ranges_props(rs: Seq<(int, int)>, len: int)
    requires
        pairwise_disjoint(rs),
        ranges_in_bounds(rs, len),
    ensures
        ranges_wf(sort_ranges(rs), len),
        sort_ranges(rs).len() == rs.len(),
        total_span(sort_ranges(rs)) == total_span(rs),
        forall|p: int| covered(p, sort_ranges(rs)) <==> covered(p, rs),
        forall|p: int| shrink_before(p, sort_ranges(rs)) == shrink_before(p, rs),
        forall|j: int|
            0 <= j < sort_ranges(rs).len() ==> rs.contains(#[trigger] sort_ranges(rs)[j]),
    decreases rs.len(),
{
    if rs.len() > 0 {
        let last = rs.last();
        let dl = rs.drop_last();
        assert forall|k: int, l: int| 0 <= k < l < dl.len() implies !ranges_overlap(
            #[trigger] dl[k],
            #[trigger] dl[l],
        ) by {
            assert(dl[k] == rs[k] && dl[l] == rs[l]);
        }
        assert forall|k: int| 0 <= k < dl.len() implies 0 <= (#[trigger] dl[k]).0 <= dl[k].1
            <= len by {
            assert(dl[k] == rs[k]);
        }
        lemma_sort_ranges_props(dl, len);
        let sorted_dl = sort_ranges(dl);
        assert forall|k: int| 0 <= k < sorted_dl.len() implies !ranges_overlap(
            last,
            #[trigger] sorted_dl[k],
        ) by {
            let j = choose|j: int| 0 <= j < dl.len() && dl[j] == sorted_dl[k];
            assert(rs[j] == dl[j]);
            assert(!ranges_overlap(rs[j], rs[rs.len() - 1]));
        }
        assert(0 <= last.0 <= last.1 <= len);
        lemma_insert_range_wf(last, sorted_dl, len);
        lemma_insert_range_span(last, sorted_dl);
        lemma_insert_range_covered(last, sorted_dl);
        let result = sort_ranges(rs);
        assert(result == insert_range_sorted(last, sorted_dl));
        assert(total_span(rs) == total_span(dl) + range_span(last));
        assert forall|p: int| covered(p, result) <==> covered(p, rs) by {
            assert(covered(p, result) <==> (last.0 <= p < last.1 || covered(p, sorted_dl)));
            if covered(p, rs) && !(last.0 <= p < last.1) {
                let k = choose|k: int| 0 <= k < rs.len() && (#[trigger] rs[k]).0 <= p < rs[k].1;
                assert(dl[k].0 <= p < dl[k].1);
                assert(covered(p, dl));
            }
            if covered(p, dl) {
                let k = choose|k: int| 0 <= k < dl.len() && (#[trigger] dl[k]).0 <= p < dl[k].1;
                assert(rs[k].0 <= p < rs[k].1);
            }
            if last.0 <= p < last.1 {
                assert(rs[rs.len() - 1].0 <= p < rs[rs.len() - 1].1);
            }
        }
        assert forall|p: int| shrink_before(p, result) == shrink_before(p, rs) by {
            assert(shrink_before(p, result) == shrink_before(p, sorted_dl) + if last.1 <= p {
                range_span(last) - 1
            } else {
                0
            });
            assert(shrink_before(p, sorted_dl) == shrink_before(p, dl));
            assert(shrink_before(p, rs) == shrink_before(p, dl) + if last.1 <= p {
                range_span(last) - 1
            } else {
                0
            });
        }
        assert forall|j: int| 0 <= j < result.len() implies rs.contains(#[trigger] result[j]) by {
            if result[j] == last {
                assert(rs[rs.len() - 1] == result[j]);
            } else {
                assert(sorted_dl.contains(result[j]));
                let k = choose|k: int| 0 <= k < sorted_dl.len() && sorted_dl[k] == result[j];
                let k2 = choose|k2: int| 0 <= k2 < dl.len() && dl[k2] == sorted_dl[k];
                assert(rs[k2] == result[j]);
            }
        }
    }
}

/// Whether `rep` is a possible result of the reducer on a vector holding
/// exactly the elements `arg_view`.
pub open spec fn call_ensures_on<A, F: Fn(Vec<A>) -> A>(f: F, arg_view: Seq<A>, rep: A) -> bool {
    exists|arg: Vec<A>| arg@ == arg_view && call_ensures(f, (arg,), rep)
}

/// A labeled node wrapping the given children.
pub open spec fn node_of(name: Seq<char>, children: Seq<TokenView>) -> TokenView {
    TokenView::Node { name, children }
}

/// Collapses every given range of a token sequence into a node labeled
/// `name` whose children are the tokens of the range. The ranges must be
/// sorted by start and pairwise disjoint for the index arithmetic to hold.
pub open spec fn collapse_ranges(toks: Seq<TokenView>, rs: Seq<(int, int)>, name: Seq<char>) -> Seq<
    TokenView,
>
    decreases rs.len(),
{
    if rs.len() == 0 {
        toks
    } else {
        let r = rs.last();
        collapse_ranges(
            splice_one(toks, r, node_of(name, toks.subrange(r.0, r.1))),
            rs.drop_last(),
            name,
        )
    }
}

/// Ghost view of a grammar symbol with its rule: the symbol's name and its
/// ordered choices.
#[verifier::ext_equal]
pub struct NonTerminalSymbolView {
    pub name: Seq<char>,
    pub rule: Seq<Seq<SymbolView>>,
}

/// Whether a choice mentions the named symbol: such a choice is recursive
/// for that symbol.
pub open spec fn choice_mentions(choice: Seq<SymbolView>, name: Seq<char>) -> bool {
    choice.contains(SymbolView::NonTerminal(name))
}

/// The choices of a rule that mention the symbol's own name, in order.
pub open spec fn recursive_choices(rule: Seq<Seq<SymbolView>>, name: Seq<char>) -> Seq<
    Seq<SymbolView>,
>
    decreases rule.len(),
{
    if rule.len() == 0 {
        Seq::empty()
    } else {
        let rest = recursive_choices(rule.drop_last(), name);
        if choice_mentions(rule.last(), name) {
            rest.push(rule.last())
        } else {
            rest
        }
    }
}

/// The choices of a rule that do not mention the symbol's own name, in order.
pub open spec fn non_recursive_choices(rule: Seq<Seq<SymbolView>>, name: Seq<char>) -> Seq<
    Seq<SymbolView>,
>
    decreases rule.len(),
{
    if rule.len() == 0 {
        Seq::empty()
    } else {
        let rest = non_recursive_choices(rule.drop_last(), name);
        if choice_mentions(rule.last(), name) {
            rest
        } else {
            rest.push(rule.last())
        }
    }
}

/// Whether some non-empty choice of the list matches a window of the tokens.
pub open spec fn has_match(toks: Seq<TokenView>, choices: Seq<Seq<SymbolView>>) -> bool {
    exists|c: Seq<SymbolView>, i: int|
        choices.contains(c) && c.len() > 0 && choice_matches_at(toks, c, i)
}

/// One collapse over a list of choices: every candidate window that does not
/// overlap an earlier candidate becomes a node labeled `name`.
pub open spec fn collapse_step(
    toks: Seq<TokenView>,
    choices: Seq<Seq<SymbolView>>,
    name: Seq<char>,
) -> Seq<TokenView> {
    collapse_ranges(toks, sort_ranges(greedy_disjoint(expression_ranges(toks, choices))), name)
}

/// Collapsing the recursive choices over and over, at most `fuel` times,
/// stopping as soon as no recursive window matches.
pub open spec fn rec_iter(
    toks: Seq<TokenView>,
    rec_choices: Seq<Seq<SymbolView>>,
    name: Seq<char>,
    fuel: nat,
) -> Seq<TokenView>
    decreases fuel,
{
    if fuel == 0 || !has_match(toks, rec_choices) {
        toks
    } else {
        rec_iter(collapse_step(toks, rec_choices, name), rec_choices, name, (fuel - 1) as nat)
    }
}

/// The cap on fixpoint rounds: the engine stops collapsing after this many
/// rounds even if windows still match, rather than running forever on a
/// grammar whose choices never stop matching. No terminating grammar comes
/// anywhere near it.
pub open spec fn fuel_limit() -> nat {
    usize::MAX as nat
}

/// One whole reduction by a grammar symbol, as `symbolize_vec` performs it:
/// the non-recursive choices once, then the recursive choices to fixpoint
/// (capped at `fuel_limit` rounds).
pub open spec fn collapse_symbol(toks: Seq<TokenView>, sym: NonTerminalSymbolView) -> Seq<
    TokenView,
> {
    let after = collapse_step(toks, non_recursive_choices(sym.rule, sym.name), sym.name);
    rec_iter(after, recursive_choices(sym.rule, sym.name), sym.name, fuel_limit())
}

/// One full pass of the global fixpoint: every rule reduced once, in order.
pub open spec fn do_pass(toks: Seq<TokenView>, rules: Seq<NonTerminalSymbolView>) -> Seq<TokenView>
    decreases rules.len(),
{
    if rules.len() == 0 {
        toks
    } else {
        do_pass(collapse_symbol(toks, rules.first()), rules.drop_first())
    }
}

/// Whether a full pass finds a window for some rule at the moment that rule
/// is visited.
pub open spec fn pass_productive(toks: Seq<TokenView>, rules: Seq<NonTerminalSymbolView>) -> bool
    decreases rules.len(),
{
    if rules.len() == 0 {
        false
    } else {
        has_match(toks, rules.first().rule) || pass_productive(
            collapse_symbol(toks, rules.first()),
            rules.drop_first(),
        )
    }
}

/// Full passes over the rules, at most `fuel` of them, stopping once a pass
/// would find no window for any rule.
pub open spec fn glob_iter(
    toks: Seq<TokenView>,
    rules: Seq<NonTerminalSymbolView>,
    fuel: nat,
) -> Seq<TokenView>
    decreases fuel,
{
    if fuel == 0 || !pass_productive(toks, rules) {
        toks
    } else {
        glob_iter(do_pass(toks, rules), rules, (fuel - 1) as nat)
    }
}

/// Whether `fuel` full passes reach the global fixpoint.
pub open spec fn glob_done(toks: Seq<TokenView>, rules: Seq<NonTerminalSymbolView>, fuel: nat) -> bool {
    !pass_productive(glob_iter(toks, rules, fuel), rules)
}

/// The order in which `symbolize_string` visits the rules: a stable
/// ascending sort of (priority, declaration index), then the whole list
/// reversed, so higher priorities come first and, within one priority,
/// later declarations come before earlier ones.
pub open spec fn symbolize_order(rules: Seq<(NonTerminalSymbolView, nat)>) -> Seq<
    NonTerminalSymbolView,
> {
    let prio_idx = Seq::new(rules.len(), |k: int| (rules[k].1 as int, k));
    sort_ranges(prio_idx).reverse().map_values(|p: (int, int)| rules[p.1].0)
}

/// The initial token sequence of a string: one terminal leaf per character.
pub open spec fn characterized(s: Seq<char>) -> Seq<TokenView> {
    Seq::new(s.len(), |i: int| TokenView::Terminal(seq![s[i]]))
}

/// What `symbolize_string` returns: the single-character leaves of the
/// input, collapsed by full passes in priority order until no rule matches
/// anywhere. Meaningful where that fixpoint is reached at all; on a grammar
/// whose choices never stop matching, `symbolize_string` does not return.
pub open spec fn spec_symbolize(
    rules: Seq<(NonTerminalSymbolView, nat)>,
    s: Seq<char>,
) -> Seq<TokenView> {
    glob_iter(characterized(s), symbolize_order(rules), fuel_limit())
}

/// Concatenated text distributes over concatenation of token sequences.
pub proof fn lemma_tokens_text_concat(a: Seq<TokenView>, b: Seq<TokenView>)
    ensures
        tokens_text(a + b) == tokens_text(a) + tokens_text(b),
    decreases b.len(),
{
    if b.len() == 0 {
        assert(a + b =~= a);
        assert(tokens_text(b) == Seq::<char>::empty());
        assert(tokens_text(a) + tokens_text(b) =~= tokens_text(a));
    } else {
        lemma_tokens_text_concat(a, b.drop_last());
        assert((a + b).drop_last() =~= a + b.drop_last());
        assert((a + b).last() == b.last());
        assert(tokens_text(a + b) == tokens_text(a + b.drop_last()) + token_text(b.last()));
        assert(tokens_text(b) == tokens_text(b.drop_last()) + token_text(b.last()));
        assert(tokens_text(a) + (tokens_text(b.drop_last()) + token_text(b.last())) =~= (
        tokens_text(a) + tokens_text(b.drop_last())) + token_text(b.last()));
    }
}

/// Splicing a node made of exactly the replaced tokens keeps the text.
pub proof fn lemma_splice_node_text(toks: Seq<TokenView>, r: (int, int), name: Seq<char>)
    requires
        0 <= r.0 <= r.1 <= toks.len(),
    ensures
        tokens_text(splice_one(toks, r, node_of(name, toks.subrange(r.0, r.1)))) == tokens_text(
            toks,
        ),
{
    let node = node_of(name, toks.subrange(r.0, r.1));
    let mid = seq![node];
    assert(toks =~= (toks.take(r.0) + toks.subrange(r.0, r.1)) + toks.skip(r.1));
    lemma_tokens_text_concat(toks.take(r.0) + toks.subrange(r.0, r.1), toks.skip(r.1));
    lemma_tokens_text_concat(toks.take(r.0), toks.subrange(r.0, r.1));
    assert(splice_one(toks, r, node) =~= (toks.take(r.0) + mid) + toks.skip(r.1));
    lemma_tokens_text_concat(toks.take(r.0) + mid, toks.skip(r.1));
    lemma_tokens_text_concat(toks.take(r.0), mid);
    assert(tokens_text(mid) == token_text(node)) by {
        assert(mid.drop_last() =~= Seq::<TokenView>::empty());
        assert(tokens_text(mid.drop_last()) == Seq::<char>::empty());
        assert(mid.last() == node);
        assert(Seq::<char>::empty() + token_text(node) =~= token_text(node));
    }
    assert(token_text(node) == tokens_text(toks.subrange(r.0, r.1)));
}

/// Collapsing well-formed ranges into nodes keeps the concatenated text:
/// regrouping never drops, duplicates or reorders characters.
pub proof fn lemma_collapse_ranges_text(toks: Seq<TokenView>, rs: Seq<(int, int)>, name: Seq<char>)
    requires
        ranges_wf(rs, toks.len() as int),
    ensures
        tokens_text(collapse_ranges(toks, rs, name)) == tokens_text(toks),
    decreases rs.len(),
{
    if rs.len() > 0 {
        let r = rs.last();
        assert(0 <= r.0 <= r.1 <= toks.len());
        lemma_splice_node_text(toks, r, name);
        let s1 = splice_one(toks, r, node_of(name, toks.subrange(r.0, r.1)));
        let dl = rs.drop_last();
        assert(s1.len() == toks.len() - (r.1 - r.0) + 1);
        assert forall|k: int| 0 <= k < dl.len() implies 0 <= (#[trigger] dl[k]).0 <= dl[k].1
            <= s1.len() by {
            assert(dl[k] == rs[k]);
            assert(rs[k].1 <= rs[rs.len() - 1].0);
        }
        assert forall|k: int, l: int| 0 <= k < l < dl.len() implies (#[trigger] dl[k]).1
            <= (#[trigger] dl[l]).0 by {
            assert(dl[k] == rs[k] && dl[l] == rs[l]);
        }
        lemma_collapse_ranges_text(s1, dl, name);
    }
}

/// Every candidate range of one choice is a non-empty window within bounds.
pub proof fn lemma_choice_ranges_from_bounds(toks: Seq<TokenView>, c: Seq<SymbolView>, i: int)
    ensures
        ranges_in_bounds(choice_ranges_from(toks, c, i), toks.len() as int),
    decreases toks.len() - i,
{
    if !(c.len() == 0 || i < 0 || i + c.len() > toks.len()) {
        lemma_choice_ranges_from_bounds(toks, c, i + 1);
        let rest = choice_ranges_from(toks, c, i + 1);
        let result = choice_ranges_from(toks, c, i);
        if choice_matches_at(toks, c, i) {
            assert(result == seq![(i, i + c.len() as int)] + rest);
            assert forall|k: int| 0 <= k < result.len() implies 0 <= (#[trigger] result[k]).0
                <= result[k].1 <= toks.len() by {
                if k > 0 {
                    assert(result[k] == rest[k - 1]);
                }
            }
        }
    }
}

/// Every candidate range of a list of choices is non-empty and in bounds.
pub proof fn lemma_expression_ranges_bounds(toks: Seq<TokenView>, cs: Seq<Seq<SymbolView>>)
    ensures
        ranges_in_bounds(expression_ranges(toks, cs), toks.len() as int),
    decreases cs.len(),
{
    if cs.len() > 0 {
        lemma_expression_ranges_bounds(toks, cs.drop_last());
        lemma_choice_ranges_from_bounds(toks, cs.last(), 0);
        let a = expression_ranges(toks, cs.drop_last());
        let b = choice_ranges(toks, cs.last());
        let result = expression_ranges(toks, cs);
        assert(result == a + b);
        assert forall|k: int| 0 <= k < result.len() implies 0 <= (#[trigger] result[k]).0
            <= result[k].1 <= toks.len() by {
            if k < a.len() {
                assert(result[k] == a[k]);
            } else {
                assert(result[k] == b[k - a.len()]);
            }
        }
    }
}

/// What the greedy filter keeps: pairwise-disjoint ranges drawn from the
/// candidates, in candidate order.
pub proof fn lemma_greedy_disjoint_props(rs: Seq<(int, int)>)
    ensures
        pairwise_disjoint(greedy_disjoint(rs)),
        forall|j: int| 0 <= j < greedy_disjoint(rs).len() ==> rs.contains(#[trigger] greedy_disjoint(rs)[j]),
    decreases rs.len(),
{
    if rs.len() > 0 {
        lemma_greedy_disjoint_props(rs.drop_last());
        let dl = rs.drop_last();
        let kept = greedy_disjoint(dl);
        let result = greedy_disjoint(rs);
        assert forall|j: int| 0 <= j < kept.len() implies rs.contains(#[trigger] kept[j]) by {
            assert(dl.contains(kept[j]));
            let k = choose|k: int| 0 <= k < dl.len() && dl[k] == kept[j];
            assert(rs[k] == kept[j]);
        }
        if disjoint_from_all(rs.last(), kept) {
            assert(result == kept.push(rs.last()));
            assert forall|k: int, l: int| 0 <= k < l < result.len() implies !ranges_overlap(
                #[trigger] result[k],
                #[trigger] result[l],
            ) by {
                if l < kept.len() {
                    assert(result[k] == kept[k] && result[l] == kept[l]);
                } else {
                    assert(result[l] == rs.last());
                    assert(result[k] == kept[k]);
                    assert(!ranges_overlap(rs.last(), kept[k]));
                }
            }
            assert forall|j: int| 0 <= j < result.len() implies rs.contains(
                #[trigger] result[j],
            ) by {
                if j < kept.len() {
                    assert(result[j] == kept[j]);
                } else {
                    assert(result[j] == rs.last());
                    assert(rs[rs.len() - 1] == rs.last());
                }
            }
        }
    }
}

/// The ranges a collapse step replaces are well formed: sorted, disjoint,
/// non-empty and within bounds.
pub proof fn lemma_collapse_step_ranges_wf(toks: Seq<TokenView>, cs: Seq<Seq<SymbolView>>)
    ensures
        ranges_wf(
            sort_ranges(greedy_disjoint(expression_ranges(toks, cs))),
            toks.len() as int,
        ),
{
    lemma_expression_ranges_bounds(toks, cs);
    lemma_greedy_disjoint_props(expression_ranges(toks, cs));
    let er = expression_ranges(toks, cs);
    let g = greedy_disjoint(er);
    assert forall|k: int| 0 <= k < g.len() implies 0 <= (#[trigger] g[k]).0 <= g[k].1
        <= toks.len() by {
        assert(er.contains(g[k]));
        let j = choose|j: int| 0 <= j < er.len() && er[j] == g[k];
        assert(0 <= er[j].0 <= er[j].1 <= toks.len());
    }
    lemma_sort_ranges_props(g, toks.len() as int);
}

/// One collapse step keeps the concatenated text.
pub proof fn lemma_collapse_step_text(toks: Seq<TokenView>, cs: Seq<Seq<SymbolView>>, name: Seq<char>)
    ensures
        tokens_text(collapse_step(toks, cs, name)) == tokens_text(toks),
{
    lemma_collapse_step_ranges_wf(toks, cs);
    lemma_collapse_ranges_text(
        toks,
        sort_ranges(greedy_disjoint(expression_ranges(toks, cs))),
        name,
    );
}

/// A choice has a candidate range at or after `i` exactly when it matches
/// some window there.
pub proof fn lemma_choice_ranges_from_has(toks: Seq<TokenView>, c: Seq<SymbolView>, i: int)
    requires
        0 <= i,
        c.len() > 0,
    ensures
        choice_ranges_from(toks, c, i).len() > 0 <==> exists|i2: int|
            i2 >= i && choice_matches_at(toks, c, i2),
    decreases toks.len() - i,
{
    if i + c.len() > toks.len() {
        assert forall|i2: int| i2 >= i implies !choice_matches_at(toks, c, i2) by {}
    } else {
        lemma_choice_ranges_from_has(toks, c, i + 1);
        if choice_matches_at(toks, c, i) {
            assert(choice_ranges_from(toks, c, i).len() > 0);
        } else {
            assert(choice_ranges_from(toks, c, i) == choice_ranges_from(toks, c, i + 1));
            if exists|i2: int| i2 >= i && choice_matches_at(toks, c, i2) {
                let i2 = choose|i2: int| i2 >= i && choice_matches_at(toks, c, i2);
                assert(i2 >= i + 1);
            }
        }
    }
}

/// The candidate list of a list of choices is non-empty exactly when some
/// non-empty choice matches a window.
pub proof fn lemma_expression_ranges_has(toks: Seq<TokenView>, cs: Seq<Seq<SymbolView>>)
    ensures
        expression_ranges(toks, cs).len() > 0 <==> has_match(toks, cs),
    decreases cs.len(),
{
    if cs.len() == 0 {
        assert(!has_match(toks, cs)) by {
            if has_match(toks, cs) {
                let (c, i) = choose|c: Seq<SymbolView>, i: int|
                    cs.contains(c) && c.len() > 0 && choice_matches_at(toks, c, i);
                assert(cs.contains(c));
                let k = choose|k: int| 0 <= k < cs.len() && cs[k] == c;
            }
        }
    } else {
        let dl = cs.drop_last();
        let last = cs.last();
        lemma_expression_ranges_has(toks, dl);
        if last.len() > 0 {
            lemma_choice_ranges_from_has(toks, last, 0);
        }
        if expression_ranges(toks, cs).len() > 0 {
            if expression_ranges(toks, dl).len() > 0 {
                let (c, i) = choose|c: Seq<SymbolView>, i: int|
                    dl.contains(c) && c.len() > 0 && choice_matches_at(toks, c, i);
                let k = choose|k: int| 0 <= k < dl.len() && dl[k] == c;
                assert(cs[k] == c);
                assert(cs.contains(c));
                assert(has_match(toks, cs));
            } else {
                assert(choice_ranges(toks, last).len() > 0);
                assert(last.len() > 0) by {
                    if last.len() == 0 {
                        assert(choice_ranges_from(toks, last, 0) == Seq::<(int, int)>::empty());
                    }
                }
                let i2 = choose|i2: int| i2 >= 0 && choice_matches_at(toks, last, i2);
                assert(cs[cs.len() - 1] == last);
                assert(cs.contains(last));
                assert(has_match(toks, cs));
            }
        }
        if has_match(toks, cs) {
            let (c, i) = choose|c: Seq<SymbolView>, i: int|
                cs.contains(c) && c.len() > 0 && choice_matches_at(toks, c, i);
            let k = choose|k: int| 0 <= k < cs.len() && cs[k] == c;
            assert(i >= 0);
            if k < cs.len() - 1 {
                assert(dl[k] == c);
                assert(dl.contains(c));
                assert(has_match(toks, dl));
            } else {
                assert(c == last);
                assert(choice_ranges(toks, last).len() > 0);
            }
            assert(expression_ranges(toks, cs).len() >= choice_ranges(toks, last).len());
            assert(expression_ranges(toks, cs).len() >= expression_ranges(toks, dl).len());
        }
    }
}

/// The recursive and non-recursive choices are drawn from the rule.
pub proof fn lemma_partition_choices_subset(rule: Seq<Seq<SymbolView>>, name: Seq<char>)
    ensures
        forall|j: int|
            0 <= j < recursive_choices(rule, name).len() ==> rule.contains(
                #[trigger] recursive_choices(rule, name)[j],
            ),
        forall|j: int|
            0 <= j < non_recursive_choices(rule, name).len() ==> rule.contains(
                #[trigger] non_recursive_choices(rule, name)[j],
            ),
    decreases rule.len(),
{
    if rule.len() > 0 {
        let dl = rule.drop_last();
        lemma_partition_choices_subset(dl, name);
        assert forall|j: int| 0 <= j < recursive_choices(dl, name).len() implies rule.contains(
            #[trigger] recursive_choices(dl, name)[j],
        ) by {
            assert(dl.contains(recursive_choices(dl, name)[j]));
            let k = choose|k: int| 0 <= k < dl.len() && dl[k] == recursive_choices(dl, name)[j];
            assert(rule[k] == dl[k]);
        }
        assert forall|j: int| 0 <= j < non_recursive_choices(dl, name).len() implies rule.contains(
            #[trigger] non_recursive_choices(dl, name)[j],
        ) by {
            assert(dl.contains(non_recursive_choices(dl, name)[j]));
            let k = choose|k: int| 0 <= k < dl.len() && dl[k] == non_recursive_choices(dl, name)[j];
            assert(rule[k] == dl[k]);
        }
        assert(rule[rule.len() - 1] == rule.last());
        assert(rule.contains(rule.last()));
    }
}

/// No match over a list of choices means no match over any sub-list of it.
pub proof fn lemma_no_match_subset(
    toks: Seq<TokenView>,
    cs: Seq<Seq<SymbolView>>,
    sub: Seq<Seq<SymbolView>>,
)
    requires
        !has_match(toks, cs),
        forall|j: int| 0 <= j < sub.len() ==> cs.contains(#[trigger] sub[j]),
    ensures
        !has_match(toks, sub),
{
    if has_match(toks, sub) {
        let (c, i) = choose|c: Seq<SymbolView>, i: int|
            sub.contains(c) && c.len() > 0 && choice_matches_at(toks, c, i);
        let k = choose|k: int| 0 <= k < sub.len() && sub[k] == c;
        assert(cs.contains(sub[k]));
        assert(has_match(toks, cs));
    }
}

/// A collapse step with no matching window changes nothing.
pub proof fn lemma_no_match_collapse_step(
    toks: Seq<TokenView>,
    cs: Seq<Seq<SymbolView>>,
    name: Seq<char>,
)
    requires
        !has_match(toks, cs),
    ensures
        collapse_step(toks, cs, name) == toks,
{
    lemma_expression_ranges_has(toks, cs);
    assert(expression_ranges(toks, cs) =~= Seq::<(int, int)>::empty());
    assert(greedy_disjoint(expression_ranges(toks, cs)) == Seq::<(int, int)>::empty());
    assert(sort_ranges(Seq::<(int, int)>::empty()) == Seq::<(int, int)>::empty());
    assert(collapse_ranges(toks, Seq::<(int, int)>::empty(), name) == toks);
}

/// A reduction by a symbol none of whose choices match changes nothing.
pub proof fn lemma_no_match_collapse_symbol(toks: Seq<TokenView>, sym: NonTerminalSymbolView)
    requires
        !has_match(toks, sym.rule),
    ensures
        collapse_symbol(toks, sym) == toks,
{
    lemma_partition_choices_subset(sym.rule, sym.name);
    let nr = non_recursive_choices(sym.rule, sym.name);
    let rc = recursive_choices(sym.rule, sym.name);
    lemma_no_match_subset(toks, sym.rule, nr);
    lemma_no_match_subset(toks, sym.rule, rc);
    lemma_no_match_collapse_step(toks, nr, sym.name);
    assert(collapse_step(toks, nr, sym.name) == toks);
    assert(rec_iter(toks, rc, sym.name, fuel_limit()) == toks);
}

/// An unproductive pass changes nothing.
pub proof fn lemma_unproductive_pass(toks: Seq<TokenView>, rules: Seq<NonTerminalSymbolView>)
    requires
        !pass_productive(toks, rules),
    ensures
        do_pass(toks, rules) == toks,
    decreases rules.len(),
{
    if rules.len() > 0 {
        lemma_no_match_collapse_symbol(toks, rules.first());
        lemma_unproductive_pass(toks, rules.drop_first());
    }
}

/// Once the global fixpoint loop is done, more fuel changes nothing.
pub proof fn lemma_glob_iter_stable(
    toks: Seq<TokenView>,
    rules: Seq<NonTerminalSymbolView>,
    n: nat,
    m: nat,
)
    requires
        glob_done(toks, rules, n),
        n <= m,
    ensures
        glob_iter(toks, rules, m) == glob_iter(toks, rules, n),
    decreases n,
{
    if !pass_productive(toks, rules) {
        assert(glob_iter(toks, rules, m) == toks);
        assert(glob_iter(toks, rules, n) == toks);
    } else {
        assert(n > 0) by {
            if n == 0 {
                assert(glob_iter(toks, rules, 0) == toks);
            }
        }
        let stepped = do_pass(toks, rules);
        assert(glob_iter(toks, rules, n) == glob_iter(stepped, rules, (n - 1) as nat));
        assert(glob_iter(toks, rules, m) == glob_iter(stepped, rules, (m - 1) as nat));
        lemma_glob_iter_stable(stepped, rules, (n - 1) as nat, (m - 1) as nat);
    }
}

/// Where some number of passes within the round cap reaches the global
/// fixpoint, the symbolization result is that true fixpoint: no rule
/// matches a window of it anywhere.
pub proof fn lemma_symbolize_reaches_fixpoint(
    rules: Seq<(NonTerminalSymbolView, nat)>,
    s: Seq<char>,
    n: nat,
)
    requires
        n <= fuel_limit(),
        glob_done(characterized(s), symbolize_order(rules), n),
    ensures
        spec_symbolize(rules, s) == glob_iter(characterized(s), symbolize_order(rules), n),
        !pass_productive(spec_symbolize(rules, s), symbolize_order(rules)),
{
    lemma_glob_iter_stable(characterized(s), symbolize_order(rules), n, fuel_limit());
}

/// The recursive collapse loop keeps the concatenated text.
pub proof fn lemma_rec_iter_text(
    toks: Seq<TokenView>,
    rc: Seq<Seq<SymbolView>>,
    name: Seq<char>,
    fuel: nat,
)
    ensures
        tokens_text(rec_iter(toks, rc, name, fuel)) == tokens_text(toks),
    decreases fuel,
{
    if fuel > 0 && has_match(toks, rc) {
        lemma_collapse_step_text(toks, rc, name);
        lemma_rec_iter_text(collapse_step(toks, rc, name), rc, name, (fuel - 1) as nat);
    }
}

/// A whole reduction by one symbol keeps the concatenated text.
pub proof fn lemma_collapse_symbol_text(toks: Seq<TokenView>, sym: NonTerminalSymbolView)
    ensures
        tokens_text(collapse_symbol(toks, sym)) == tokens_text(toks),
{
    let nr = non_recursive_choices(sym.rule, sym.name);
    let rc = recursive_choices(sym.rule, sym.name);
    let after = collapse_step(toks, nr, sym.name);
    lemma_collapse_step_text(toks, nr, sym.name);
    lemma_rec_iter_text(after, rc, sym.name, fuel_limit());
}

/// A full pass keeps the concatenated text.
pub proof fn lemma_do_pass_text(toks: Seq<TokenView>, rules: Seq<NonTerminalSymbolView>)
    ensures
        tokens_text(do_pass(toks, rules)) == tokens_text(toks),
    decreases rules.len(),
{
    if rules.len() > 0 {
        lemma_collapse_symbol_text(toks, rules.first());
        lemma_do_pass_text(collapse_symbol(toks, rules.first()), rules.drop_first());
    }
}

/// Any number of full passes keeps the concatenated text.
pub proof fn lemma_glob_iter_text(toks: Seq<TokenView>, rules: Seq<NonTerminalSymbolView>, fuel: nat)
    ensures
        tokens_text(glob_iter(toks, rules, fuel)) == tokens_text(toks),
    decreases fuel,
{
    if fuel > 0 && pass_productive(toks, rules) {
        lemma_do_pass_text(toks, rules);
        lemma_glob_iter_text(do_pass(toks, rules), rules, (fuel - 1) as nat);
    }
}

/// The single-character leaves of a string spell the string itself.
pub proof fn lemma_characterized_text(s: Seq<char>)
    ensures
        tokens_text(characterized(s)) == s,
    decreases s.len(),
{
    if s.len() == 0 {
        assert(characterized(s) =~= Seq::<TokenView>::empty());
        assert(tokens_text(characterized(s)) =~= s);
    } else {
        lemma_characterized_text(s.drop_last());
        let cs = characterized(s);
        assert(cs.drop_last() =~= characterized(s.drop_last()));
        assert(cs.last() == TokenView::Terminal(seq![s[s.len() - 1]]));
        assert(token_text(cs.last()) == seq![s[s.len() - 1]]);
        assert(tokens_text(cs) == tokens_text(cs.drop_last()) + token_text(cs.last()));
        assert(tokens_text(cs.drop_last()) == s.drop_last());
        assert(tokens_text(cs) == s.drop_last() + seq![s[s.len() - 1]]);
        assert(s.drop_last() + seq![s[s.len() - 1]] =~= s);
    }
}

/// The round trip: whatever the grammar, the collapsed tree of a string
/// still spells exactly that string.
pub proof fn lemma_symbolize_round_trip(rules: Seq<(NonTerminalSymbolView, nat)>, s: Seq<char>)
    ensures
        tokens_text(spec_symbolize(rules, s)) == s,
{
    let order = symbolize_order(rules);
    let init = characterized(s);
    lemma_glob_iter_text(init, order, fuel_limit());
    lemma_characterized_text(s);
}

/// Idempotence of full collapse: running `symbolize` again on the flattened
/// output of a terminating `symbolize` run rebuilds the same tree, since
/// flattening returns exactly the original input string.
pub proof fn lemma_symbolize_idempotent(rules: Seq<(NonTerminalSymbolView, nat)>, s: Seq<char>)
    ensures
        spec_symbolize(rules, tokens_text(spec_symbolize(rules, s))) == spec_symbolize(rules, s),
{
    lemma_symbolize_round_trip(rules, s);
}

/// Ghost view of a whole grammar: its rules with their priorities, in
/// declaration order, and the names that have a compile callback, in
/// registration order.
#[verifier::ext_equal]
pub struct BackusNaurFormView {
    pub rules: Seq<(NonTerminalSymbolView, nat)>,
    pub callback_names: Seq<Seq<char>>,
}

/// Whether a compile callback is registered for the name.
pub open spec fn has_callback(g: BackusNaurFormView, name: Seq<char>) -> bool {
    g.callback_names.contains(name)
}

/// Whether some registered grammar symbol has the name.
pub open spec fn grammar_contains_symbol(g: BackusNaurFormView, name: Seq<char>) -> bool {
    exists|k: int| 0 <= k < g.rules.len() && (#[trigger] g.rules[k]).0.name == name
}

/// The concatenation of a list of text fragments, in order.
pub open spec fn texts_concat(ss: Seq<Seq<char>>) -> Seq<char>
    decreases ss.len(),
{
    if ss.len() == 0 {
        Seq::empty()
    } else {
        texts_concat(ss.drop_last()) + ss.last()
    }
}

/// A stable insertion adds exactly the new element.
pub proof fn lemma_insert_range_contains(r: (int, int), rs: Seq<(int, int)>)
    ensures
        insert_range_sorted(r, rs).len() == rs.len() + 1,
        forall|j: int|
            0 <= j < insert_range_sorted(r, rs).len() ==> (#[trigger] insert_range_sorted(r, rs)[j]
                == r || rs.contains(insert_range_sorted(r, rs)[j])),
    decreases rs.len(),
{
    let result = insert_range_sorted(r, rs);
    if rs.len() == 0 {
        assert(result =~= seq![r]);
    } else if range_le(rs.last(), r) {
        assert(result =~= rs.push(r));
        assert forall|j: int| 0 <= j < result.len() implies (#[trigger] result[j] == r
            || rs.contains(result[j])) by {
            if j < rs.len() {
                assert(rs[j] == result[j]);
            }
        }
    } else {
        let dl = rs.drop_last();
        lemma_insert_range_contains(r, dl);
        let inner = insert_range_sorted(r, dl);
        assert(result == inner.push(rs.last()));
        assert forall|j: int| 0 <= j < result.len() implies (#[trigger] result[j] == r
            || rs.contains(result[j])) by {
            if j < inner.len() {
                assert(result[j] == inner[j]);
                if inner[j] != r {
                    let k = choose|k: int| 0 <= k < dl.len() && dl[k] == inner[j];
                    assert(rs[k] == result[j]);
                }
            } else {
                assert(rs[rs.len() - 1] == result[j]);
            }
        }
    }
}

/// The stable sort keeps exactly the input pairs, whatever they hold.
pub proof fn lemma_sort_ranges_contains(rs: Seq<(int, int)>)
    ensures
        sort_ranges(rs).len() == rs.len(),
        forall|j: int|
            0 <= j < sort_ranges(rs).len() ==> rs.contains(#[trigger] sort_ranges(rs)[j]),
    decreases rs.len(),
{
    if rs.len() > 0 {
        let dl = rs.drop_last();
        lemma_sort_ranges_contains(dl);
        let sorted_dl = sort_ranges(dl);
        lemma_insert_range_contains(rs.last(), sorted_dl);
        let result = sort_ranges(rs);
        assert(result == insert_range_sorted(rs.last(), sorted_dl));
        assert forall|j: int| 0 <= j < result.len() implies rs.contains(#[trigger] result[j]) by {
            if result[j] == rs.last() {
                assert(rs[rs.len() - 1] == result[j]);
            } else {
                assert(sorted_dl.contains(result[j]));
                let k = choose|k: int| 0 <= k < sorted_dl.len() && sorted_dl[k] == result[j];
                assert(dl.contains(sorted_dl[k]));
                let k2 = choose|k2: int| 0 <= k2 < dl.len() && dl[k2] == sorted_dl[k];
                assert(rs[k2] == result[j]);
            }
        }
    }
}

/// The token a path of child offsets addresses, relative to the given
/// token: each step descends into the numbered child. An empty path, a step
/// out of range, and a step into a terminal all resolve to nothing.
pub open spec fn token_at_path(t: TokenView, path: Seq<usize>) -> Option<TokenView>
    decreases path.len(),
{
    if path.len() == 0 {
        None
    } else {
        match t {
            TokenView::Terminal(_) => None,
            TokenView::Node { name: _, children } => {
                if path[0] >= children.len() {
                    None
                } else if path.len() == 1 {
                    Some(children[path[0] as int])
                } else {
                    token_at_path(children[path[0] as int], path.drop_first())
                }
            },
        }
    }
}

/// Every descendant of a token in left-to-right pre-order: each child is
/// listed, then recursively its own children.
pub open spec fn token_descendants(t: TokenView) -> Seq<TokenView>
    decreases t,
{
    match t {
        TokenView::Terminal(_) => Seq::empty(),
        TokenView::Node { name: _, children } => tokens_with_descendants(children),
    }
}

/// The tokens of a sequence together with all their descendants, in
/// left-to-right pre-order.
pub open spec fn tokens_with_descendants(ts: Seq<TokenView>) -> Seq<TokenView>
    decreases ts,
{
    if ts.len() == 0 {
        Seq::empty()
    } else {
        tokens_with_descendants(ts.drop_last()) + seq![ts.last()] + token_descendants(ts.last())
    }
}

/// The tokens of a sequence that are of the symbol's kind, in order.
pub open spec fn matching_tokens(ts: Seq<TokenView>, s: SymbolView) -> Seq<TokenView>
    decreases ts,
{
    if ts.len() == 0 {
        Seq::empty()
    } else {
        let rest = matching_tokens(ts.drop_last(), s);
        if token_matches(ts.last(), s) {
            rest.push(ts.last())
        } else {
            rest
        }
    }
}

/// The position of the first token of the symbol's kind, if any.
pub open spec fn first_match(ts: Seq<TokenView>, s: SymbolView) -> Option<int>
    decreases ts.len(),
{
    if ts.len() == 0 {
        None
    } else if token_matches(ts.first(), s) {
        Some(0)
    } else {
        match first_match(ts.drop_first(), s) {
            Some(k) => Some(k + 1),
            None => None,
        }
    }
}

/// Whether some descendant of the token is of the symbol's kind.
pub open spec fn any_descendant_matches(t: TokenView, s: SymbolView) -> bool
    decreases t,
{
    match t {
        TokenView::Terminal(_) => false,
        TokenView::Node { name: _, children } => exists|k: int|
            0 <= k < children.len() && (token_matches(#[trigger] children[k], s)
                || any_descendant_matches(children[k], s)),
    }
}

/// The position of the first token that is of the symbol's kind or has a
/// descendant of it, if any.
pub open spec fn first_subtree_match(ts: Seq<TokenView>, s: SymbolView) -> Option<int>
    decreases ts.len(),
{
    if ts.len() == 0 {
        None
    } else if token_matches(ts.first(), s) || any_descendant_matches(ts.first(), s) {
        Some(0)
    } else {
        match first_subtree_match(ts.drop_first(), s) {
            Some(k) => Some(k + 1),
            None => None,
        }
    }
}

/// Pinpoints the first match: a match at `k` with none before it.
pub proof fn lemma_first_match_at(ts: Seq<TokenView>, s: SymbolView, k: int)
    requires
        0 <= k < ts.len(),
        token_matches(ts[k], s),
        forall|l: int| 0 <= l < k ==> !token_matches(#[trigger] ts[l], s),
    ensures
        first_match(ts, s) == Some(k),
    decreases k,
{
    if k == 0 {
        assert(ts.first() == ts[0]);
    } else {
        assert(!token_matches(ts.first(), s));
        let rest = ts.drop_first();
        assert(rest[k - 1] == ts[k]);
        assert forall|l: int| 0 <= l < k - 1 implies !token_matches(#[trigger] rest[l], s) by {
            assert(rest[l] == ts[l + 1]);
        }
        lemma_first_match_at(rest, s, k - 1);
    }
}

/// No token of the symbol's kind, no first match.
pub proof fn lemma_first_match_none(ts: Seq<TokenView>, s: SymbolView)
    requires
        forall|l: int| 0 <= l < ts.len() ==> !token_matches(#[trigger] ts[l], s),
    ensures
        first_match(ts, s) is None,
    decreases ts.len(),
{
    if ts.len() > 0 {
        assert(!token_matches(ts.first(), s));
        let rest = ts.drop_first();
        assert forall|l: int| 0 <= l < rest.len() implies !token_matches(#[trigger] rest[l], s) by {
            assert(rest[l] == ts[l + 1]);
        }
        lemma_first_match_none(rest, s);
    }
}

/// Pinpoints the first subtree match: a hit at `k` with none before it.
pub proof fn lemma_first_subtree_match_at(ts: Seq<TokenView>, s: SymbolView, k: int)
    requires
        0 <= k < ts.len(),
        token_matches(ts[k], s) || any_descendant_matches(ts[k], s),
        forall|l: int|
            0 <= l < k ==> !(token_matches(#[trigger] ts[l], s) || any_descendant_matches(
                ts[l],
                s,
            )),
    ensures
        first_subtree_match(ts, s) == Some(k),
    decreases k,
{
    if k == 0 {
        assert(ts.first() == ts[0]);
    } else {
        assert(!(token_matches(ts.first(), s) || any_descendant_matches(ts.first(), s)));
        let rest = ts.drop_first();
        assert(rest[k - 1] == ts[k]);
        assert forall|l: int| 0 <= l < k - 1 implies !(token_matches(#[trigger] rest[l], s)
            || any_descendant_matches(rest[l], s)) by {
            assert(rest[l] == ts[l + 1]);
        }
        lemma_first_subtree_match_at(rest, s, k - 1);
    }
}

/// No token of or over the symbol's kind, no first subtree match.
pub proof fn lemma_first_subtree_match_none(ts: Seq<TokenView>, s: SymbolView)
    requires
        forall|l: int|
            0 <= l < ts.len() ==> !(token_matches(#[trigger] ts[l], s) || any_descendant_matches(
                ts[l],
                s,
            )),
    ensures
        first_subtree_match(ts, s) is None,
    decreases ts.len(),
{
    if ts.len() > 0 {
        let rest = ts.drop_first();
        assert(!(token_matches(ts.first(), s) || any_descendant_matches(ts.first(), s)));
        assert forall|l: int| 0 <= l < rest.len() implies !(token_matches(#[trigger] rest[l], s)
            || any_descendant_matches(rest[l], s)) by {
            assert(rest[l] == ts[l + 1]);
        }
        lemma_first_subtree_match_none(rest, s);
    }
}

/// The tree with the descendant a path addresses replaced by `sub`; where
/// the path resolves to nothing, the tree unchanged.
pub open spec fn replace_at_path(t: TokenView, path: Seq<usize>, sub: TokenView) -> TokenView
    decreases path.len(),
{
    match t {
        TokenView::Terminal(_) => t,
        TokenView::Node { name, children } => {
            if path.len() == 0 || path[0] >= children.len() {
                t
            } else if path.len() == 1 {
                TokenView::Node { name, children: children.update(path[0] as int, sub) }
            } else {
                TokenView::Node {
                    name,
                    children: children.update(
                        path[0] as int,
                        replace_at_path(children[path[0] as int], path.drop_first(), sub),
                    ),
                }
            }
        },
    }
}

} // verus!
