//! The rule-text parser: turns a `<name> ::= choice ( "|" choice )*` string
//! into a structured grammar symbol. Each choice is a whitespace-separated
//! sequence of `"literal"` terminals and `<name>` non-terminal references;
//! quotes and brackets must balance and every choice must be non-empty, or
//! the rule text is malformed and parses to nothing.

use super::Choice;
use super::model::SymbolView;
use super::push_char;
use super::symbol::Symbol;
use super::model::NonTerminalSymbolView;
use super::symbol::non_terminal_symbol::NonTerminalSymbol;
use super::symbol::non_terminal_symbol::choice_view;
use super::symbol::non_terminal_symbol::expression_view;
use vstd::prelude::*;
use vstd::string::StrSliceExecFns;

verus! {

/// What `char::is_whitespace` decides: whether the character has the
/// Unicode whitespace property. The decision depends on the character
/// alone.
pub uninterp spec fn spec_is_whitespace(c: char) -> bool;

/// Relies on `char::is_whitespace`: the Unicode whitespace property of the
/// character.
#[verifier::external_body]
fn char_is_whitespace(c: char) -> (r: bool)
    ensures
        r == spec_is_whitespace(c),
{
    c.is_whitespace()
}

/// Whether the three characters of the replacement marker `::=` stand at
/// position `i`.
pub open spec fn marker_at(s: Seq<char>, i: int) -> bool {
    &&& 0 <= i
    &&& i + 3 <= s.len()
    &&& s[i] == ':'
    &&& s[i + 1] == ':'
    &&& s[i + 2] == '='
}

/// The first replacement marker at or after position `i`, if any.
pub open spec fn first_marker_from(s: Seq<char>, i: int) -> Option<int>
    decreases s.len() - i,
{
    if i < 0 || i + 3 > s.len() {
        None
    } else if marker_at(s, i) {
        Some(i)
    } else {
        first_marker_from(s, i + 1)
    }
}

/// The first replacement marker of the rule text, if any.
pub open spec fn first_marker(s: Seq<char>) -> Option<int> {
    first_marker_from(s, 0)
}

/// How many whitespace characters the text starts with.
pub open spec fn leading_ws(s: Seq<char>) -> int
    decreases s.len(),
{
    if s.len() == 0 || !spec_is_whitespace(s.first()) {
        0
    } else {
        1 + leading_ws(s.drop_first())
    }
}

/// How many whitespace characters the text ends with.
pub open spec fn trailing_ws(s: Seq<char>) -> int
    decreases s.len(),
{
    if s.len() == 0 || !spec_is_whitespace(s.last()) {
        0
    } else {
        1 + trailing_ws(s.drop_last())
    }
}

/// The text with leading and trailing whitespace removed.
pub open spec fn trimmed(s: Seq<char>) -> Seq<char> {
    if leading_ws(s) >= s.len() - trailing_ws(s) {
        Seq::empty()
    } else {
        s.subrange(leading_ws(s), s.len() - trailing_ws(s))
    }
}

/// Where the scanner stands: between tokens, inside a quoted literal, or
/// inside an angle-bracket name.
#[derive(Clone, Copy)]
pub enum ScanMode {
    Outside,
    InLiteral,
    InName,
}

/// The scanner's state: its mode, the characters of the literal or name
/// being read, the choice being assembled, the finished choices, and
/// whether the text read so far is still well formed.
pub struct ScanState {
    pub mode: ScanMode,
    pub buf: Seq<char>,
    pub cur: Seq<SymbolView>,
    pub expr: Seq<Seq<SymbolView>>,
    pub ok: bool,
}

/// The scanner's starting state.
pub open spec fn scan_init() -> ScanState {
    ScanState {
        mode: ScanMode::Outside,
        buf: Seq::empty(),
        cur: Seq::empty(),
        expr: Seq::empty(),
        ok: true,
    }
}

/// One character of the expression scan. Inside a quoted literal every
/// character but the closing quote is literal text; inside a name every
/// character but the closing bracket, with brackets, quotes and pipes
/// themselves refused; outside, quotes and brackets open tokens, a pipe
/// finishes a non-empty choice, whitespace separates, and anything else is
/// malformed.
pub open spec fn scan_step(st: ScanState, c: char) -> ScanState {
    if !st.ok {
        st
    } else {
        match st.mode {
            ScanMode::InLiteral => {
                if c == '"' {
                    ScanState {
                        mode: ScanMode::Outside,
                        buf: Seq::empty(),
                        cur: st.cur.push(SymbolView::Terminal(st.buf)),
                        ..st
                    }
                } else {
                    ScanState { buf: st.buf.push(c), ..st }
                }
            },
            ScanMode::InName => {
                if c == '>' {
                    ScanState {
                        mode: ScanMode::Outside,
                        buf: Seq::empty(),
                        cur: st.cur.push(SymbolView::NonTerminal(st.buf)),
                        ..st
                    }
                } else if c == '<' || c == '"' || c == '|' {
                    ScanState { ok: false, ..st }
                } else {
                    ScanState { buf: st.buf.push(c), ..st }
                }
            },
            ScanMode::Outside => {
                if c == '"' {
                    ScanState { mode: ScanMode::InLiteral, buf: Seq::empty(), ..st }
                } else if c == '<' {
                    ScanState { mode: ScanMode::InName, buf: Seq::empty(), ..st }
                } else if c == '|' {
                    if st.cur.len() == 0 {
                        ScanState { ok: false, ..st }
                    } else {
                        ScanState { cur: Seq::empty(), expr: st.expr.push(st.cur), ..st }
                    }
                } else if c == '>' {
                    ScanState { ok: false, ..st }
                } else if spec_is_whitespace(c) {
                    st
                } else {
                    ScanState { ok: false, ..st }
                }
            },
        }
    }
}

/// The scanner's state after reading the whole text.
pub open spec fn scan_seq(s: Seq<char>) -> ScanState
    decreases s.len(),
{
    if s.len() == 0 {
        scan_init()
    } else {
        scan_step(scan_seq(s.drop_last()), s.last())
    }
}

/// The choices an expression text parses to: the scan must end between
/// tokens, with every quote and bracket closed and a last non-empty choice.
pub open spec fn scan_result(s: Seq<char>) -> Option<Seq<Seq<SymbolView>>> {
    let st = scan_seq(s);
    if st.ok && st.mode is Outside && st.cur.len() > 0 {
        Some(st.expr.push(st.cur))
    } else {
        None
    }
}

/// What a whole rule text parses to, if anything: the part before the
/// first `::=`, trimmed, must be an angle-bracketed name, and the part
/// after it a well-formed expression.
pub open spec fn parse_rule_spec(s: Seq<char>) -> Option<NonTerminalSymbolView> {
    match first_marker(s) {
        None => None,
        Some(i) => {
            let nm = trimmed(s.take(i));
            if nm.len() < 2 || nm.first() != '<' || nm.last() != '>' {
                None
            } else {
                match scan_result(s.skip(i + 3)) {
                    None => None,
                    Some(e) => Some(
                        NonTerminalSymbolView {
                            name: nm.subrange(1, nm.len() - 1),
                            rule: e,
                        },
                    ),
                }
            }
        },
    }
}

/// Whether the rule text is well formed: it parses to a grammar symbol.
pub open spec fn rule_wf(s: Seq<char>) -> bool {
    parse_rule_spec(s) is Some
}

/// Pinpoints how much whitespace the text starts with.
proof fn lemma_leading_ws_at(s: Seq<char>, a: int)
    requires
        0 <= a <= s.len(),
        forall|k: int| 0 <= k < a ==> spec_is_whitespace(#[trigger] s[k]),
        a < s.len() ==> !spec_is_whitespace(s[a]),
    ensures
        leading_ws(s) == a,
    decreases a,
{
    if a == 0 {
        if s.len() > 0 {
            assert(s.first() == s[0]);
        }
    } else {
        assert(spec_is_whitespace(s[0]));
        assert(s.first() == s[0]);
        let rest = s.drop_first();
        assert forall|k: int| 0 <= k < a - 1 implies spec_is_whitespace(#[trigger] rest[k]) by {
            assert(rest[k] == s[k + 1]);
        }
        if a - 1 < rest.len() {
            assert(rest[a - 1] == s[a]);
        }
        lemma_leading_ws_at(rest, a - 1);
    }
}

/// Pinpoints how much whitespace the text ends with.
proof fn lemma_trailing_ws_at(s: Seq<char>, b: int)
    requires
        0 <= b <= s.len(),
        forall|k: int| b <= k < s.len() ==> spec_is_whitespace(#[trigger] s[k]),
        b > 0 ==> !spec_is_whitespace(s[b - 1]),
    ensures
        trailing_ws(s) == s.len() - b,
    decreases s.len() - b,
{
    if b == s.len() {
        if s.len() > 0 {
            assert(s.last() == s[s.len() - 1]);
        }
    } else {
        assert(spec_is_whitespace(s[s.len() - 1]));
        assert(s.last() == s[s.len() - 1]);
        let rest = s.drop_last();
        assert forall|k: int| b <= k < rest.len() implies spec_is_whitespace(#[trigger] rest[k]) by {
            assert(rest[k] == s[k]);
        }
        if b > 0 {
            assert(rest[b - 1] == s[b - 1]);
        }
        lemma_trailing_ws_at(rest, b);
    }
}

/// The characters of a string, in order, as a vector.
fn collect_chars(string: &str) -> (r: Vec<char>)
    ensures
        r@ == string@,
{
    let n = string.unicode_len();
    let mut out: Vec<char> = Vec::new();
    let mut i: usize = 0;
    while i < n
        invariant
            n == string@.len(),
            i <= n,
            out@ == string@.take(i as int),
        decreases n - i,
    {
        out.push(string.get_char(i));
        proof {
            assert(string@.take(i + 1) =~= string@.take(i as int).push(string@[i as int]));
        }
        i = i + 1;
    }
    proof {
        assert(string@.take(i as int) =~= string@);
    }
    out
}

/// Builds a string from a range of the characters.
fn chars_to_string(chars: &Vec<char>, from: usize, to: usize) -> (r: String)
    requires
        from <= to <= chars@.len(),
    ensures
        r@ == chars@.subrange(from as int, to as int),
{
    let mut out = String::new();
    let mut i: usize = from;
    while i < to
        invariant
            from <= i <= to <= chars@.len(),
            out@ == chars@.subrange(from as int, i as int),
        decreases to - i,
    {
        push_char(&mut out, chars[i]);
        proof {
            assert(chars@.subrange(from as int, i + 1) =~= chars@.subrange(
                from as int,
                i as int,
            ).push(chars@[i as int]));
        }
        i = i + 1;
    }
    out
}

/// Parses a rule string into a grammar symbol, or nothing where the rule
/// is malformed: no `::=`, a name part that is not an angle-bracketed
/// name, unbalanced quotes or brackets, an empty choice, or stray text.
pub fn parse_rule(string: &str) -> (r: Option<NonTerminalSymbol>)
    ensures
        r is Some <==> parse_rule_spec(string@) is Some,
        r matches Some(sym) ==> sym@ == parse_rule_spec(string@).unwrap(),
{
    let chars = collect_chars(string);
    let ghost sv = string@;
    // Find the first replacement marker.
    if chars.len() < 3 {
        proof {
            assert(first_marker_from(sv, 0) is None);
        }
        return None;
    }
    let last_m = chars.len() - 3;
    let mut m: usize = 0;
    while m <= last_m && !(chars[m] == ':' && chars[m + 1] == ':' && chars[m + 2] == '=')
        invariant
            0 <= m <= last_m + 1,
            last_m == chars@.len() - 3,
            chars@ == sv,
            first_marker(sv) == first_marker_from(sv, m as int),
        decreases last_m + 1 - m,
    {
        m = m + 1;
    }
    if m > last_m {
        proof {
            assert(first_marker_from(sv, m as int) is None);
        }
        return None;
    }
    proof {
        assert(marker_at(sv, m as int));
        assert(first_marker(sv) == Some(m as int));
    }
    // Trim the name part.
    let ghost name_part = sv.take(m as int);
    let mut a: usize = 0;
    while a < m && char_is_whitespace(chars[a])
        invariant
            0 <= a <= m <= chars@.len(),
            chars@ == sv,
            forall|k: int| 0 <= k < a ==> spec_is_whitespace(#[trigger] sv[k]),
        decreases m - a,
    {
        a = a + 1;
    }
    let mut b: usize = m;
    while b > a && char_is_whitespace(chars[b - 1])
        invariant
            a <= b <= m <= chars@.len(),
            chars@ == sv,
            forall|k: int| b <= k < m ==> spec_is_whitespace(#[trigger] sv[k]),
        decreases b,
    {
        b = b - 1;
    }
    proof {
        assert forall|k: int| 0 <= k < name_part.len() implies name_part[k] == sv[k] by {}
    }
    if a == b {
        proof {
            // the name part is all whitespace, so the trimmed name is empty
            assert forall|k: int| 0 <= k < name_part.len() implies spec_is_whitespace(
                #[trigger] name_part[k],
            ) by {}
            lemma_leading_ws_at(name_part, m as int);
            lemma_trailing_ws_at(name_part, 0);
            assert(trimmed(name_part).len() == 0);
            assert(parse_rule_spec(sv) is None);
        }
        return None;
    }
    proof {
        assert(a < b);
        assert(!spec_is_whitespace(sv[a as int]));
        assert(!spec_is_whitespace(sv[b - 1]));
        assert(name_part[a as int] == sv[a as int]);
        assert(name_part[b - 1] == sv[b - 1]);
        lemma_leading_ws_at(name_part, a as int);
        lemma_trailing_ws_at(name_part, b as int);
        assert(trimmed(name_part) =~= sv.subrange(a as int, b as int));
    }
    let ghost nm = trimmed(sv.take(m as int));
    if b - a < 2 || !(chars[a] == '<') || !(chars[b - 1] == '>') {
        proof {
            assert(nm.len() == b - a);
            if nm.len() >= 2 {
                assert(nm.first() == sv[a as int]);
                assert(nm.last() == sv[b - 1]);
            }
            assert(parse_rule_spec(sv) is None);
        }
        return None;
    }
    proof {
        assert(nm.first() == sv[a as int]);
        assert(nm.last() == sv[b - 1]);
    }
    let name = chars_to_string(&chars, a + 1, b - 1);
    proof {
        assert(name@ =~= nm.subrange(1, nm.len() - 1));
    }
    // Scan the expression part.
    let ghost expr_part = sv.skip(m + 3);
    let start = m + 3;
    let mut mode = ScanMode::Outside;
    let mut buf = String::new();
    let mut cur: Choice = Vec::new();
    let mut expr: Vec<Choice> = Vec::new();
    let mut i: usize = start;
    proof {
        assert(expr_part.take(0) =~= Seq::<char>::empty());
        assert(scan_seq(expr_part.take(0)) == scan_init());
        assert(expression_view(expr@) =~= Seq::<Seq<SymbolView>>::empty());
        assert(choice_view(cur@) =~= Seq::<SymbolView>::empty());
    }
    while i < chars.len()
        invariant
            start <= i <= chars@.len(),
            start == m + 3,
            m + 3 <= chars@.len(),
            chars@ == sv,
            sv == string@,
            expr_part == sv.skip(m + 3),
            first_marker(sv) == Some(m as int),
            nm == trimmed(sv.take(m as int)),
            nm.len() >= 2 && nm.first() == '<' && nm.last() == '>',
            scan_seq(expr_part.take(i - start)) == (ScanState {
                mode: mode,
                buf: buf@,
                cur: choice_view(cur@),
                expr: expression_view(expr@),
                ok: true,
            }),
        decreases chars@.len() - i,
    {
        let c = chars[i];
        let ghost st_before = scan_seq(expr_part.take(i - start));
        proof {
            assert(expr_part.take(i - start + 1).drop_last() =~= expr_part.take(i - start));
            assert(expr_part.take(i - start + 1).last() == sv[i as int]);
            assert(scan_seq(expr_part.take(i - start + 1)) == scan_step(st_before, c));
        }
        let mut failed = false;
        match mode {
            ScanMode::InLiteral => {
                if c == '"' {
                    let ghost cur_before = cur@;
                    cur.push(Symbol::Terminal(buf));
                    buf = String::new();
                    mode = ScanMode::Outside;
                    proof {
                        assert(choice_view(cur@) =~= choice_view(cur_before).push(
                            SymbolView::Terminal(st_before.buf),
                        ));
                    }
                } else {
                    push_char(&mut buf, c);
                    proof {
                        assert(buf@ =~= st_before.buf.push(c));
                    }
                }
            },
            ScanMode::InName => {
                if c == '>' {
                    let ghost cur_before = cur@;
                    cur.push(Symbol::NonTerminal(buf));
                    buf = String::new();
                    mode = ScanMode::Outside;
                    proof {
                        assert(choice_view(cur@) =~= choice_view(cur_before).push(
                            SymbolView::NonTerminal(st_before.buf),
                        ));
                    }
                } else if c == '<' || c == '"' || c == '|' {
                    failed = true;
                } else {
                    push_char(&mut buf, c);
                    proof {
                        assert(buf@ =~= st_before.buf.push(c));
                    }
                }
            },
            ScanMode::Outside => {
                if c == '"' {
                    mode = ScanMode::InLiteral;
                    buf = String::new();
                } else if c == '<' {
                    mode = ScanMode::InName;
                    buf = String::new();
                } else if c == '|' {
                    if cur.len() == 0 {
                        failed = true;
                    } else {
                        let ghost expr_before = expr@;
                        let ghost cur_before = cur@;
                        expr.push(cur);
                        cur = Vec::new();
                        proof {
                            assert(expression_view(expr@) =~= expression_view(expr_before).push(
                                choice_view(cur_before),
                            ));
                            assert(choice_view(cur@) =~= Seq::<SymbolView>::empty());
                        }
                    }
                } else if c == '>' {
                    failed = true;
                } else if char_is_whitespace(c) {
                } else {
                    failed = true;
                }
            },
        }
        if failed {
            proof {
                assert(!scan_step(st_before, c).ok);
                lemma_scan_stays_failed(expr_part, i - start + 1);
                assert(!scan_seq(expr_part).ok);
                assert(scan_result(expr_part) is None);
                assert(scan_result(sv.skip(m + 3)) is None);
                assert(first_marker(sv) == Some(m as int));
                assert(nm.len() >= 2 && nm.first() == '<' && nm.last() == '>');
                assert(parse_rule_spec(sv) is None);
            }
            return None;
        }
        i = i + 1;
    }
    proof {
        assert(expr_part.take(i - start) =~= expr_part);
    }
    let trailing_ok = match mode {
        ScanMode::Outside => true,
        _ => false,
    };
    if !trailing_ok || cur.len() == 0 {
        proof {
            assert(scan_result(expr_part) is None);
        }
        return None;
    }
    expr.push(cur);
    proof {
        let st = scan_seq(expr_part);
        assert(expression_view(expr@) =~= st.expr.push(st.cur));
        assert(scan_result(expr_part) == Some(expression_view(expr@)));
    }
    Some(NonTerminalSymbol::new(name, expr))
}

/// Parses a rule string into a grammar symbol. The rule must be well
/// formed: `<name> ::= choice ( "|" choice )*`; on a malformed rule this
/// aborts rather than hand back a half-built symbol.
pub fn non_terminal_symbol_from_rule(string: &str) -> (r: NonTerminalSymbol)
    requires
        rule_wf(string@),
    ensures
        r@ == parse_rule_spec(string@).unwrap(),
{
    match parse_rule(string) {
        Some(symbol) => symbol,
        None => vstd::pervasive::unreached(),
    }
}

/// A failed scan never recovers: every longer prefix stays failed.
proof fn lemma_scan_stays_failed(s: Seq<char>, j: int)
    requires
        0 <= j <= s.len(),
        !scan_seq(s.take(j)).ok,
    ensures
        !scan_seq(s).ok,
    decreases s.len() - j,
{
    if j < s.len() {
        assert(s.take(j + 1).drop_last() =~= s.take(j));
        assert(s.take(j + 1).last() == s[j]);
        assert(scan_seq(s.take(j + 1)) == scan_step(scan_seq(s.take(j)), s[j]));
        assert(!scan_seq(s.take(j + 1)).ok);
        lemma_scan_stays_failed(s, j + 1);
    } else {
        assert(s.take(j) =~= s);
    }
}

} // verus!
