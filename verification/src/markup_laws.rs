//! What each kind of markup turns into.

use vstd::prelude::*;

use crate::text_formatting::{
    TextFormatBlockKind, TextFormatHighlight, TextFormatStyle, MAX_FORMAT_INLINE_DEPTH,
    MAX_FORMAT_RUNS,
};
use crate::text_grammar::{
    after_digits, after_indent, after_space, after_stretch, before_space, blocks_from,
    byte_offset, closing_line, code_runs, copied, copy_prefix, cut_block, cut_blocks, cut_run, cut_runs,
    decimal, delimiter_at, digit_value, find_delimiter, first_of, formatted, highlight_ok,
    highlight_spans, inline_runs, is_blank, is_closing_fence, is_digit, is_fence, is_highlighted, is_marker,
    is_paragraph_line, is_space, lines_from, list_item, literal, next_edge, next_marker,
    number_in, paragraph_end, paragraph_runs, position_at, quote_start, run_count, runs_text, shown_block,
    shown_run, valid_highlights, with_width, BlockView, FormattedView, RunView, Span, SpanBlock, StyleSet,
    StyledSpan,
};
use crate::text_laws::{lemma_first_of_absent, lemma_no_marker};

verus! {

/// Text that holds no marker and no line break.
pub open spec fn unmarked(t: Seq<char>) -> bool {
    forall|i: int| 0 <= i < t.len() ==> !is_marker(#[trigger] t[i]) && t[i] != '\n'
}

/// Text that is not empty and has no white space at its ends.
pub open spec fn trimmed(t: Seq<char>) -> bool {
    t.len() > 0 && !is_space(t[0]) && !is_space(t.last())
}

/// `w` times the character `c`.
pub open spec fn repeated(c: char, w: nat) -> Seq<char> {
    Seq::new(w, |i: int| c)
}

/// The result for a text that is shown as a single paragraph.
pub open spec fn one_paragraph(s: Seq<char>, runs: Seq<RunView>, copy: Seq<char>) -> FormattedView {
    FormattedView {
        source: s,
        plain_text: copy,
        blocks: seq![
            BlockView { kind: TextFormatBlockKind::Paragraph, depth: 0, ordinal: 0, runs },
        ],
        used_fallback: false,
    }
}

// ---- Searching ----

proof fn lemma_next_marker_is(s: Seq<char>, from: int, at: int, to: int)
    requires
        0 <= from <= at < to <= s.len(),
        forall|i: int| from <= i < at ==> !is_marker(#[trigger] s[i]),
        is_marker(s[at]),
    ensures
        next_marker(s, from, to) == at,
    decreases at - from,
{
    if from < at {
        lemma_next_marker_is(s, from + 1, at, to);
    }
}

proof fn lemma_stretch_is(s: Seq<char>, c: char, from: int, end: int, to: int)
    requires
        0 <= from <= end <= to <= s.len(),
        forall|i: int| from <= i < end ==> #[trigger] s[i] == c,
        end == to || s[end] != c,
    ensures
        after_stretch(s, c, from, to) == end,
    decreases end - from,
{
    if from < end {
        lemma_stretch_is(s, c, from + 1, end, to);
    }
}

proof fn lemma_delimiter_is(s: Seq<char>, c: char, w: int, from: int, at: int, to: int)
    requires
        0 <= from <= at < to <= s.len(),
        w >= 1,
        forall|i: int| from <= i < at ==> #[trigger] s[i] != c,
        delimiter_at(s, c, w, at, to),
    ensures
        find_delimiter(s, c, w, from, to) == at,
    decreases at - from,
{
    if from < at {
        assert(s[from] != c);
        lemma_delimiter_is(s, c, w, from + 1, at, to);
    }
}

proof fn lemma_no_delimiter(s: Seq<char>, c: char, w: int, from: int, to: int)
    requires
        0 <= from <= to <= s.len(),
        w >= 1,
        forall|i: int| from <= i < to ==> #[trigger] s[i] != c,
    ensures
        find_delimiter(s, c, w, from, to) == to,
    decreases to - from,
{
    if from < to {
        assert(s[from] != c);
        lemma_no_delimiter(s, c, w, from + 1, to);
    }
}

proof fn lemma_first_is(s: Seq<char>, c: char, from: int, at: int, to: int)
    requires
        0 <= from <= at < to <= s.len(),
        forall|i: int| from <= i < at ==> #[trigger] s[i] != c,
        s[at] == c,
    ensures
        first_of(s, c, from, to) == at,
    decreases at - from,
{
    if from < at {
        lemma_first_is(s, c, from + 1, at, to);
    }
}

proof fn lemma_indent_is(s: Seq<char>, from: int, at: int, to: int)
    requires
        0 <= from <= at < to <= s.len(),
        forall|i: int| from <= i < at ==> #[trigger] s[i] == ' ',
        s[at] != ' ',
    ensures
        after_indent(s, from, to) == at,
    decreases at - from,
{
    if from < at {
        lemma_indent_is(s, from + 1, at, to);
    }
}

// ---- Without highlights ----

proof fn lemma_uncut(runs: Seq<StyledSpan>, n: int)
    requires
        0 <= n <= runs.len(),
        forall|i: int| 0 <= i < runs.len() ==> (#[trigger] runs[i]).start < runs[i].end,
    ensures
        cut_runs(Seq::empty(), runs, n) == runs.take(n),
    decreases n,
{
    let none = Seq::<Span>::empty();
    if n > 0 {
        lemma_uncut(runs, n - 1);
        let run = runs[n - 1];
        assert(next_edge(none, 0, run.start, run.end) == run.end);
        assert(!is_highlighted(none, run.start, run.end));
        assert(cut_run(none, run.end, run) == Seq::<StyledSpan>::empty());
        assert(cut_run(none, run.start, run) =~= seq![run]);
        assert(runs.take(n) =~= runs.take(n - 1) + seq![run]);
    } else {
        assert(runs.take(0) =~= Seq::<StyledSpan>::empty());
    }
}

/// A text of one block is shown as that block.
proof fn lemma_one_block(s: Seq<char>, block: SpanBlock)
    requires
        blocks_from(s, lines_from(s, 0), 0) == Some(seq![block]),
        block.runs.len() <= MAX_FORMAT_RUNS,
        forall|i: int|
            0 <= i < block.runs.len() ==> (#[trigger] block.runs[i]).start < block.runs[i].end,
    ensures
        ({
            let res = formatted(s, Seq::empty());
            &&& res.source == s
            &&& !res.used_fallback
            &&& res.plain_text == copy_prefix(block) + runs_text(
                s,
                block.runs,
                block.runs.len() as int,
            )
            &&& res.blocks == seq![shown_block(s, block)]
        }),
{
    let hs = highlight_spans(s, Seq::empty());
    assert(hs =~= Seq::<Span>::empty());
    let k = block.runs.len() as int;
    lemma_uncut(block.runs, k);
    assert(block.runs.take(k) =~= block.runs);
    assert(cut_block(hs, block) == block);
    assert(cut_blocks(hs, seq![block]) =~= seq![block]);
    reveal_with_fuel(run_count, 2);
    reveal_with_fuel(copied, 2);
    assert(formatted(s, Seq::empty()).blocks =~= seq![shown_block(s, block)]);
}

/// A text of one line that continues no other block is one paragraph of its inline runs.
proof fn lemma_one_line(s: Seq<char>, runs: Seq<StyledSpan>)
    requires
        0 < s.len(),
        forall|i: int| 0 <= i < s.len() ==> #[trigger] s[i] != '\n',
        s.last() != '\r',
        is_paragraph_line(s, (Span { start: 0, end: s.len() as int })),
        inline_runs(s, 0, s.len() as int, 0, StyleSet::plain()) == Some(runs),
        runs.len() <= MAX_FORMAT_RUNS,
        forall|i: int| 0 <= i < runs.len() ==> (#[trigger] runs[i]).start < runs[i].end,
    ensures
        formatted(s, Seq::empty()) == one_paragraph(
            s,
            runs.map_values(|r: StyledSpan| shown_run(s, r)),
            runs_text(s, runs, runs.len() as int),
        ),
{
    let n = s.len() as int;
    let line = Span { start: 0, end: n };
    let lines = lines_from(s, 0);
    lemma_first_of_absent(s, '\n', 0, n);
    assert(lines =~= seq![line]);
    reveal_with_fuel(paragraph_end, 2);
    assert(paragraph_end(s, lines, 0) == 1);
    reveal_with_fuel(paragraph_runs, 2);
    assert(Seq::<StyledSpan>::empty() + runs =~= runs);
    assert(paragraph_runs(s, lines, 0, 1) == Some(runs));
    let block = SpanBlock { kind: TextFormatBlockKind::Paragraph, depth: 0, ordinal: 0, runs };
    assert(blocks_from(s, lines, 1) == Some(Seq::<SpanBlock>::empty()));
    assert(seq![block] + Seq::<SpanBlock>::empty() =~= seq![block]);
    assert(blocks_from(s, lines, 0) == Some(seq![block]));
    lemma_one_block(s, block);
    let text = runs_text(s, runs, runs.len() as int);
    assert(copy_prefix(block) + text =~= text);
}

/// A stretch without markers is one run.
proof fn lemma_plain_runs(s: Seq<char>, lo: int, hi: int, depth: int, styles: StyleSet)
    requires
        0 <= lo < hi <= s.len(),
        forall|i: int| lo <= i < hi ==> !is_marker(#[trigger] s[i]),
    ensures
        inline_runs(s, lo, hi, depth, styles) == Some(
            seq![StyledSpan { start: lo, end: hi, styles }],
        ),
{
    lemma_no_marker(s, lo, hi);
    let run = StyledSpan { start: lo, end: hi, styles };
    assert(inline_runs(s, hi, hi, depth, styles) == Some(Seq::<StyledSpan>::empty()));
    assert(seq![run] + Seq::<StyledSpan>::empty() =~= seq![run]);
}

// ---- Emphasis ----

/// The styles that `w` markers give.
pub open spec fn marker_styles(w: nat) -> Seq<TextFormatStyle> {
    if w == 1 {
        seq![TextFormatStyle::Emphasis]
    } else if w == 2 {
        seq![TextFormatStyle::Strong]
    } else {
        seq![TextFormatStyle::Emphasis, TextFormatStyle::Strong]
    }
}

/// Text in one to three `*` or `_` is one run of that text and of exactly its style: one
/// marker emphasises, two make strong, three do both. The markers are not shown.
#[verifier::rlimit(40)]
pub proof fn law_markers_style_their_text(t: Seq<char>, c: char, w: nat)
    requires
        unmarked(t),
        trimmed(t),
        c == '*' || c == '_',
        1 <= w <= 3,
    ensures
        ({
            let d = repeated(c, w);
            let s = d + t + d;
            formatted(s, Seq::empty()) == one_paragraph(
                s,
                seq![RunView { text: t, styles: marker_styles(w) }],
                t,
            )
        }),
{
    let d = repeated(c, w);
    let s = d + t + d;
    let n = s.len() as int;
    let m = w as int;
    let e = m + t.len();
    let plain = StyleSet::plain();
    let styles = with_width(plain, m);
    assert forall|i: int| m <= i < e implies #[trigger] s[i] == t[i - m] by {}
    assert forall|i: int| 0 <= i < m implies #[trigger] s[i] == c by {}
    assert forall|i: int| e <= i < n implies #[trigger] s[i] == c by {}
    assert(s[m] == t[0]);
    assert(s[e - 1] == t.last());
    lemma_stretch_is(s, c, 0, m, n);
    assert forall|i: int| m <= i < e implies #[trigger] s[i] != c by {
        assert(!is_marker(t[i - m]));
    }
    assert(delimiter_at(s, c, m, e, n));
    lemma_delimiter_is(s, c, m, m, e, n);
    assert forall|i: int| m <= i < e implies !is_marker(#[trigger] s[i]) by {
        assert(!is_marker(t[i - m]));
    }
    lemma_plain_runs(s, m, e, 1, styles);
    let run = StyledSpan { start: m, end: e, styles };
    assert(inline_runs(s, n, n, 0, plain) == Some(Seq::<StyledSpan>::empty()));
    assert(seq![run] + Seq::<StyledSpan>::empty() =~= seq![run]);
    assert(is_marker(s[0]) && s[0] == c);
    assert(inline_runs(s, 0, n, 0, plain) == Some(seq![run]));
    let line = Span { start: 0, end: n };
    assert(!is_space(s[0]));
    assert(after_indent(s, 0, n) == 0);
    assert(s[1] != ' ');
    assert forall|i: int| 0 <= i < n implies #[trigger] s[i] != '\n' by {
        if m <= i < e {
            assert(!is_marker(t[i - m]) && t[i - m] != '\n');
        }
    }
    lemma_one_line(s, seq![run]);
    reveal_with_fuel(runs_text, 2);
    assert(s.subrange(m, e) =~= t);
    assert(runs_text(s, seq![run], 1) =~= t);
    assert(styles.tokens() =~= marker_styles(w));
    assert(seq![run].map_values(|r: StyledSpan| shown_run(s, r)) =~= seq![
        RunView { text: t, styles: marker_styles(w) },
    ]);
}

/// Text in backticks is one run of that text and of exactly the style of inline code,
/// whatever markers it holds. The backticks are not shown.
#[verifier::rlimit(40)]
pub proof fn law_backticks_make_code(t: Seq<char>)
    requires
        t.len() > 0,
        forall|i: int| 0 <= i < t.len() ==> #[trigger] t[i] != '`' && t[i] != '\n',
    ensures
        ({
            let s = seq!['`'] + t + seq!['`'];
            formatted(s, Seq::empty()) == one_paragraph(
                s,
                seq![RunView { text: t, styles: seq![TextFormatStyle::InlineCode] }],
                t,
            )
        }),
{
    let s = seq!['`'] + t + seq!['`'];
    let n = s.len() as int;
    let e = 1 + t.len() as int;
    let plain = StyleSet::plain();
    let styles = StyleSet { code: true, ..plain };
    assert forall|i: int| 1 <= i < e implies #[trigger] s[i] == t[i - 1] by {}
    assert(s[0] == '`' && s[e] == '`');
    lemma_first_is(s, '`', 1, e, n);
    let run = StyledSpan { start: 1, end: e, styles };
    assert(inline_runs(s, n, n, 0, plain) == Some(Seq::<StyledSpan>::empty()));
    assert(seq![run] + Seq::<StyledSpan>::empty() =~= seq![run]);
    assert(inline_runs(s, 0, n, 0, plain) == Some(seq![run]));
    assert(!is_space(s[0]));
    assert(after_indent(s, 0, n) == 0);
    assert(s[1] == t[0]);
    assert(!is_fence(s, (Span { start: 0, end: n })));
    lemma_one_line(s, seq![run]);
    reveal_with_fuel(runs_text, 2);
    assert(s.subrange(1, e) =~= t);
    assert(runs_text(s, seq![run], 1) =~= t);
    assert(styles.tokens() =~= seq![TextFormatStyle::InlineCode]);
    assert(seq![run].map_values(|r: StyledSpan| shown_run(s, r)) =~= seq![
        RunView { text: t, styles: seq![TextFormatStyle::InlineCode] },
    ]);
}

/// Text of a run, and nothing when it is empty.
pub open spec fn run_of(t: Seq<char>, styles: Seq<TextFormatStyle>) -> Seq<RunView> {
    if t.len() > 0 {
        seq![RunView { text: t, styles }]
    } else {
        Seq::empty()
    }
}

/// Markers style the text between them and no other: what stands before and after it in the
/// line stays plain.
#[verifier::rlimit(60)]
#[verifier::spinoff_prover]
pub proof fn law_markers_leave_their_surroundings(
    p: Seq<char>,
    t: Seq<char>,
    q: Seq<char>,
    c: char,
    w: nat,
)
    requires
        unmarked(p),
        unmarked(t),
        unmarked(q),
        trimmed(t),
        p.len() > 0,
        !is_space(p[0]),
        q.len() > 0 ==> q.last() != '\r',
        c == '*' || c == '_',
        1 <= w <= 3,
        ({
            let d = repeated(c, w);
            let s = p + d + t + d + q;
            let line = Span { start: 0, end: s.len() as int };
            quote_start(s, line) is None && list_item(s, line) is None
        }),
    ensures
        ({
            let d = repeated(c, w);
            let s = p + d + t + d + q;
            let none = Seq::<TextFormatStyle>::empty();
            formatted(s, Seq::empty()) == one_paragraph(
                s,
                run_of(p, none) + run_of(t, marker_styles(w)) + run_of(q, none),
                p + t + q,
            )
        }),
{
    let d = repeated(c, w);
    let s = p + d + t + d + q;
    let n = s.len() as int;
    let a = p.len() as int;
    let b = a + w;
    let e = b + t.len();
    let f = e + w;
    let plain = StyleSet::plain();
    let styles = with_width(plain, w as int);
    assert forall|i: int| 0 <= i < a implies #[trigger] s[i] == p[i] by {}
    assert forall|i: int| a <= i < b implies #[trigger] s[i] == c by {}
    assert forall|i: int| b <= i < e implies #[trigger] s[i] == t[i - b] by {}
    assert forall|i: int| e <= i < f implies #[trigger] s[i] == c by {}
    assert forall|i: int| f <= i < n implies #[trigger] s[i] == q[i - f] by {}
    assert forall|i: int| 0 <= i < a implies !is_marker(#[trigger] s[i]) by {
        assert(!is_marker(p[i]));
    }
    assert forall|i: int| b <= i < e implies !is_marker(#[trigger] s[i]) by {
        assert(!is_marker(t[i - b]));
    }
    assert forall|i: int| f <= i < n implies !is_marker(#[trigger] s[i]) by {
        assert(!is_marker(q[i - f]));
    }
    assert(s[b] == t[0] && s[e - 1] == t.last());
    let first = StyledSpan { start: 0, end: a, styles: plain };
    let middle = StyledSpan { start: b, end: e, styles };
    let last = StyledSpan { start: f, end: n, styles: plain };
    let end = if f < n { seq![last] } else { Seq::<StyledSpan>::empty() };
    if f < n {
        lemma_plain_runs(s, f, n, 0, plain);
    }
    assert(inline_runs(s, f, n, 0, plain) == Some(end));
    lemma_stretch_is(s, c, a, b, n);
    assert(delimiter_at(s, c, w as int, e, n));
    lemma_delimiter_is(s, c, w as int, b, e, n);
    lemma_plain_runs(s, b, e, 1, styles);
    assert(s[a] == c);
    assert(inline_runs(s, a, n, 0, plain) == Some(seq![middle] + end));
    lemma_next_marker_is(s, 0, a, n);
    let runs = seq![first] + (seq![middle] + end);
    assert(!is_marker(s[0]));
    assert(inline_runs(s, 0, n, 0, plain) == Some(runs));
    assert(s[0] == p[0]);
    assert(after_indent(s, 0, n) == 0);
    assert forall|i: int| 0 <= i < n implies #[trigger] s[i] != '\n' by {
        if i < a {
            assert(p[i] != '\n');
        } else if b <= i < e {
            assert(!is_marker(t[i - b]) && t[i - b] != '\n');
        } else if f <= i {
            assert(!is_marker(q[i - f]) && q[i - f] != '\n');
        }
    }
    if q.len() > 0 {
        assert(s.last() == q.last());
    } else {
        assert(s.last() == c);
    }
    lemma_one_line(s, runs);
    reveal_with_fuel(runs_text, 4);
    assert(s.subrange(0, a) =~= p);
    assert(s.subrange(b, e) =~= t);
    if f < n {
        assert(s.subrange(f, n) =~= q);
    }
    assert(runs_text(s, runs, runs.len() as int) =~= p + t + q);
    assert(styles.tokens() =~= marker_styles(w));
    let none = Seq::<TextFormatStyle>::empty();
    assert(plain.tokens() =~= none);
    let shown = run_of(p, none) + run_of(t, marker_styles(w)) + run_of(q, none);
    assert(runs.map_values(|r: StyledSpan| shown_run(s, r)) =~= shown);
}

/// Markers that nothing closes are text.
#[verifier::rlimit(40)]
pub proof fn law_unclosed_markers_are_text(t: Seq<char>, c: char, w: nat)
    requires
        unmarked(t),
        trimmed(t),
        c == '*' || c == '_',
        1 <= w <= 3,
    ensures
        ({
            let d = repeated(c, w);
            let s = d + t;
            let none = Seq::<TextFormatStyle>::empty();
            formatted(s, Seq::empty()) == one_paragraph(s, run_of(d, none) + run_of(t, none), s)
        }),
{
    let d = repeated(c, w);
    let s = d + t;
    let n = s.len() as int;
    let m = w as int;
    let plain = StyleSet::plain();
    assert forall|i: int| 0 <= i < m implies #[trigger] s[i] == c by {}
    assert forall|i: int| m <= i < n implies #[trigger] s[i] == t[i - m] by {}
    assert forall|i: int| m <= i < n implies !is_marker(#[trigger] s[i]) by {
        assert(!is_marker(t[i - m]));
    }
    assert(s[m] == t[0] && s.last() == t.last());
    lemma_stretch_is(s, c, 0, m, n);
    lemma_no_delimiter(s, c, m, m, n);
    lemma_plain_runs(s, m, n, 0, plain);
    let first = StyledSpan { start: 0, end: m, styles: plain };
    let last = StyledSpan { start: m, end: n, styles: plain };
    let runs = seq![first] + seq![last];
    assert(s[0] == c);
    assert(inline_runs(s, 0, n, 0, plain) == Some(runs));
    assert(after_indent(s, 0, n) == 0);
    assert(s[1] != ' ');
    assert forall|i: int| 0 <= i < n implies #[trigger] s[i] != '\n' by {
        if m <= i {
            assert(!is_marker(t[i - m]) && t[i - m] != '\n');
        }
    }
    assert(!is_space(s[0]));
    lemma_one_line(s, runs);
    reveal_with_fuel(runs_text, 3);
    assert(s.subrange(0, m) =~= d);
    assert(s.subrange(m, n) =~= t);
    assert(runs_text(s, runs, 2) =~= s);
    let none = Seq::<TextFormatStyle>::empty();
    assert(plain.tokens() =~= none);
    assert(runs.map_values(|r: StyledSpan| shown_run(s, r)) =~= run_of(d, none) + run_of(t, none));
}

/// More than three markers in a row are too complex: the line is shown as it stands.
pub proof fn law_long_markers_fall_back(t: Seq<char>, c: char, w: nat)
    requires
        unmarked(t),
        trimmed(t),
        c == '*' || c == '_',
        4 <= w,
    ensures
        ({
            let s = repeated(c, w) + t;
            let res = formatted(s, Seq::empty());
            &&& res.used_fallback
            &&& res.source == s
            &&& res.plain_text == s
            &&& res.blocks == seq![
                BlockView {
                    kind: TextFormatBlockKind::Paragraph,
                    depth: 0,
                    ordinal: 0,
                    runs: seq![RunView { text: s, styles: Seq::empty() }],
                },
            ]
        }),
{
    let s = repeated(c, w) + t;
    let n = s.len() as int;
    let m = w as int;
    let plain = StyleSet::plain();
    assert forall|i: int| 0 <= i < m implies #[trigger] s[i] == c by {}
    assert forall|i: int| m <= i < n implies #[trigger] s[i] == t[i - m] by {}
    assert(s[m] == t[0] && s.last() == t.last());
    assert(!is_marker(t[0]));
    lemma_stretch_is(s, c, 0, m, n);
    assert(s[0] == c && s[1] == c);
    assert(inline_runs(s, 0, n, 0, plain) is None);
    assert forall|i: int| 0 <= i < n implies #[trigger] s[i] != '\n' by {
        if m <= i {
            assert(!is_marker(t[i - m]) && t[i - m] != '\n');
        }
    }
    let line = Span { start: 0, end: n };
    let lines = lines_from(s, 0);
    lemma_first_of_absent(s, '\n', 0, n);
    assert(lines =~= seq![line]);
    assert(after_indent(s, 0, n) == 0);
    assert(!is_space(s[0]));
    assert(is_paragraph_line(s, line));
    reveal_with_fuel(paragraph_end, 2);
    assert(paragraph_end(s, lines, 0) == 1);
    reveal_with_fuel(paragraph_runs, 2);
    assert(paragraph_runs(s, lines, 0, 1) is None);
    assert(blocks_from(s, lines, 0) is None);
    let hs = highlight_spans(s, Seq::empty());
    assert(hs =~= Seq::<Span>::empty());
    assert(s.subrange(0, n) =~= s);
    assert(plain.tokens() =~= Seq::<TextFormatStyle>::empty());
    assert(formatted(s, Seq::empty()) == literal(s, hs));
    assert(formatted(s, Seq::empty()).blocks[0].runs =~= seq![
        RunView { text: s, styles: Seq::empty() },
    ]);
}

// ---- Nesting ----

/// Every run has the styles of the text around it: markup only adds styles.
pub proof fn law_nested_styles_add_up(
    s: Seq<char>,
    lo: int,
    hi: int,
    depth: int,
    styles: StyleSet,
)
    requires
        0 <= lo <= hi <= s.len(),
    ensures
        inline_runs(s, lo, hi, depth, styles) matches Some(runs) ==> forall|i: int|
            0 <= i < runs.len() ==> {
                let found = (#[trigger] runs[i]).styles;
                &&& styles.emphasis ==> found.emphasis
                &&& styles.strong ==> found.strong
                &&& styles.code ==> found.code
                &&& styles.highlight == found.highlight
            },
    decreases MAX_FORMAT_INLINE_DEPTH - depth, hi - lo,
{
    if lo >= hi {
    } else if !is_marker(s[lo]) {
        let stop = next_marker(s, lo, hi);
        crate::text_grammar::lemma_next_marker(s, lo + 1, hi);
        law_nested_styles_add_up(s, stop, hi, depth, styles);
    } else if s[lo] == '`' {
        let stop = first_of(s, '`', lo + 1, hi);
        if lo + 1 < stop < hi {
            law_nested_styles_add_up(s, stop + 1, hi, depth, styles);
        } else {
            law_nested_styles_add_up(s, lo + 1, hi, depth, styles);
        }
    } else {
        let width = after_stretch(s, s[lo], lo, hi) - lo;
        let inner = lo + width;
        let close = find_delimiter(s, s[lo], width, inner, hi);
        crate::text_grammar::lemma_after_stretch(s, s[lo], lo + 1, hi);
        crate::text_laws::lemma_find_delimiter(s, s[lo], width, inner, hi);
        if width > 3 {
        } else if inner < close < hi && !is_space(s[inner]) && !is_space(s[close - 1]) {
            if depth < MAX_FORMAT_INLINE_DEPTH {
                law_nested_styles_add_up(s, inner, close, depth + 1, with_width(styles, width));
                law_nested_styles_add_up(s, close + width, hi, depth, styles);
            }
        } else {
            law_nested_styles_add_up(s, inner, hi, depth, styles);
        }
    }
}

// ---- Blocks ----

/// The result for a text that is shown as a single block.
pub open spec fn one_block(s: Seq<char>, block: BlockView, copy: Seq<char>) -> FormattedView {
    FormattedView { source: s, plain_text: copy, blocks: seq![block], used_fallback: false }
}

/// A text of one line that starts a quote or a list item is one such block.
#[verifier::rlimit(40)]
proof fn lemma_one_item(
    s: Seq<char>,
    kind: TextFormatBlockKind,
    depth: int,
    ordinal: int,
    start: int,
    t: Seq<char>,
)
    requires
        unmarked(t),
        0 < t.len(),
        t.last() != '\r',
        0 < start < s.len(),
        s.subrange(start, s.len() as int) == t,
        forall|i: int| 0 <= i < start ==> #[trigger] s[i] != '\n',
        exists|i: int| 0 <= i < s.len() && !is_space(#[trigger] s[i]),
        !is_fence(s, (Span { start: 0, end: s.len() as int })),
        ({
            let line = Span { start: 0, end: s.len() as int };
            ||| {
                &&& quote_start(s, line) == Some(start)
                &&& kind == TextFormatBlockKind::Quote
                &&& depth == 0
                &&& ordinal == 0
            }
            ||| {
                &&& quote_start(s, line) is None
                &&& list_item(s, line) == Some(
                    crate::text_grammar::ListItem { kind, depth, ordinal, start },
                )
                &&& depth <= 4
            }
        }),
    ensures
        ({
            let run = StyledSpan { start, end: s.len() as int, styles: StyleSet::plain() };
            let none = Seq::<TextFormatStyle>::empty();
            let block = BlockView { kind, depth, ordinal, runs: run_of(t, none) };
            let prefix = copy_prefix(SpanBlock { kind, depth, ordinal, runs: seq![run] });
            formatted(s, Seq::empty()) == one_block(s, block, prefix + t)
        }),
{
    let n = s.len() as int;
    let plain = StyleSet::plain();
    let line = Span { start: 0, end: n };
    let lines = lines_from(s, 0);
    assert forall|i: int| start <= i < n implies #[trigger] s[i] == t[i - start] by {
        assert(s.subrange(start, n)[i - start] == s[i]);
    }
    assert forall|i: int| 0 <= i < n implies #[trigger] s[i] != '\n' by {
        if start <= i {
            assert(!is_marker(t[i - start]) && t[i - start] != '\n');
        }
    }
    assert(s.last() == t.last());
    lemma_first_of_absent(s, '\n', 0, n);
    assert(lines =~= seq![line]);
    assert forall|i: int| start <= i < n implies !is_marker(#[trigger] s[i]) by {
        assert(!is_marker(t[i - start]));
    }
    lemma_plain_runs(s, start, n, 0, plain);
    let run = StyledSpan { start, end: n, styles: plain };
    let block = SpanBlock { kind, depth, ordinal, runs: seq![run] };
    assert(!is_blank(s, line));
    assert(blocks_from(s, lines, 1) == Some(Seq::<SpanBlock>::empty()));
    assert(seq![block] + Seq::<SpanBlock>::empty() =~= seq![block]);
    assert(blocks_from(s, lines, 0) == Some(seq![block]));
    lemma_one_block(s, block);
    reveal_with_fuel(runs_text, 2);
    assert(runs_text(s, seq![run], 1) =~= t);
    let none = Seq::<TextFormatStyle>::empty();
    assert(plain.tokens() =~= none);
    assert(shown_block(s, block).runs =~= run_of(t, none));
}

/// A line that starts with `>`, after at most three spaces and before one more, is a quote of
/// the text behind it.
#[verifier::rlimit(40)]
pub proof fn law_quotes(t: Seq<char>, k: nat)
    requires
        unmarked(t),
        0 < t.len(),
        t.last() != '\r',
        k <= 3,
    ensures
        ({
            let s = repeated(' ', k) + seq!['>', ' '] + t;
            let none = Seq::<TextFormatStyle>::empty();
            let block = BlockView {
                kind: TextFormatBlockKind::Quote,
                depth: 0,
                ordinal: 0,
                runs: run_of(t, none),
            };
            formatted(s, Seq::empty()) == one_block(s, block, seq!['>', ' '] + t)
        }),
{
    let s = repeated(' ', k) + seq!['>', ' '] + t;
    let n = s.len() as int;
    assert forall|i: int| 0 <= i < k implies #[trigger] s[i] == ' ' by {}
    let at = k as int;
    assert(s[at] == '>' && s[at + 1] == ' ');
    lemma_indent_is(s, 0, at, n);
    assert(s.subrange(at + 2, n) =~= t);
    assert(!is_space(s[at]));
    lemma_one_item(s, TextFormatBlockKind::Quote, 0, 0, at + 2, t);
}

/// A line of indentation, `-`, `*` or `+` and a space is an unordered list item. Two spaces
/// are one level; five levels and more are shown as they stand.
#[verifier::rlimit(40)]
pub proof fn law_unordered_items(t: Seq<char>, k: nat, m: char)
    requires
        unmarked(t),
        0 < t.len(),
        t.last() != '\r',
        m == '-' || m == '*' || m == '+',
    ensures
        ({
            let s = repeated(' ', k) + seq![m, ' '] + t;
            let none = Seq::<TextFormatStyle>::empty();
            let block = BlockView {
                kind: TextFormatBlockKind::UnorderedListItem,
                depth: k as int / 2,
                ordinal: 0,
                runs: run_of(t, none),
            };
            let res = formatted(s, Seq::empty());
            &&& k < 10 ==> res == one_block(
                s,
                block,
                repeated(' ', (2 * (k as int / 2)) as nat) + seq!['\u{2022}', ' '] + t,
            )
            &&& 10 <= k < 512 ==> res.used_fallback && res.plain_text == s
        }),
{
    let s = repeated(' ', k) + seq![m, ' '] + t;
    let n = s.len() as int;
    let at = k as int;
    assert forall|i: int| 0 <= i < k implies #[trigger] s[i] == ' ' by {}
    assert(s[at] == m && s[at + 1] == ' ');
    lemma_indent_is(s, 0, at, n);
    assert(s.subrange(at + 2, n) =~= t);
    assert(!is_space(s[at]));
    let line = Span { start: 0, end: n };
    assert(quote_start(s, line) is None);
    if k < 10 {
        lemma_one_item(s, TextFormatBlockKind::UnorderedListItem, at / 2, 0, at + 2, t);
        lemma_indentation(at / 2);
    } else if k < 512 {
        assert forall|i: int| 0 <= i < n implies #[trigger] s[i] != '\n' by {
            if at + 2 <= i {
                assert(!is_marker(t[i - at - 2]) && t[i - at - 2] != '\n');
            }
        }
        lemma_first_of_absent(s, '\n', 0, n);
        assert(s.last() == t.last());
        lemma_deep_item(s, at);
    }
}

proof fn lemma_deep_item(s: Seq<char>, at: int)
    requires
        0 < at < s.len(),
        forall|i: int| 0 <= i < at ==> #[trigger] s[i] == ' ',
        !is_space(s[at]),
        ({
            let line = Span { start: 0, end: first_of(s, '\n', 0, s.len() as int) };
            let short = Span {
                start: 0,
                end: crate::text_grammar::without_return(s, 0, line.end),
            };
            &&& at < short.end
            &&& !is_fence(s, short)
            &&& quote_start(s, short) is None
            &&& list_item(s, short) matches Some(item) && item.depth > 4
        }),
    ensures
        formatted(s, Seq::empty()).used_fallback,
        formatted(s, Seq::empty()).plain_text == s,
{
    let lines = lines_from(s, 0);
    assert(!is_blank(s, lines[0]));
    assert(blocks_from(s, lines, 0) is None);
}

proof fn lemma_indentation(d: int)
    requires
        0 <= d,
    ensures
        crate::text_grammar::indentation(d) == repeated(' ', (2 * d) as nat),
    decreases d,
{
    if d > 0 {
        lemma_indentation(d - 1);
        assert(crate::text_grammar::indentation(d) =~= repeated(' ', (2 * d) as nat));
    } else {
        assert(crate::text_grammar::indentation(d) =~= repeated(' ', 0));
    }
}

/// The decimal digits of a number are digits, and say that number.
proof fn lemma_decimal(s: Seq<char>, from: int, x: nat)
    requires
        0 <= from,
        from + decimal(x).len() <= s.len(),
        s.subrange(from, from + decimal(x).len() as int) == decimal(x),
    ensures
        0 < decimal(x).len(),
        forall|i: int|
            from <= i < from + decimal(x).len() ==> is_digit(#[trigger] s[i]),
        number_in(s, from, from + decimal(x).len() as int) == x,
    decreases x,
{
    let d = decimal(x);
    let to = from + d.len() as int;
    assert forall|i: int| from <= i < to implies #[trigger] s[i] == d[i - from] by {
        assert(s.subrange(from, to)[i - from] == s[i]);
    }
    if x < 10 {
        reveal_with_fuel(number_in, 2);
        assert(s[from] == d[0]);
    } else {
        let e = decimal(x / 10);
        assert(d.len() == e.len() + 1);
        assert(s.subrange(from, to - 1) =~= e) by {
            assert forall|i: int| 0 <= i < e.len() implies s.subrange(from, to - 1)[i] == e[i] by {
                assert(s[from + i] == d[i]);
            }
        }
        lemma_decimal(s, from, x / 10);
        assert(s[to - 1] == d[to - 1 - from]);
        assert(s[to - 1] == ('0' as u32 + x % 10) as char);
        assert(number_in(s, from, to) == number_in(s, from, to - 1) * 10 + digit_value(s[to - 1]));
    }
}

proof fn lemma_digits_are(s: Seq<char>, from: int, at: int, to: int)
    requires
        0 <= from <= at < to <= s.len(),
        forall|i: int| from <= i < at ==> is_digit(#[trigger] s[i]),
        !is_digit(s[at]),
    ensures
        after_digits(s, from, to) == at,
    decreases at - from,
{
    if from < at {
        lemma_digits_are(s, from + 1, at, to);
    }
}

proof fn lemma_decimal_len(x: nat, y: nat)
    requires
        x <= y,
    ensures
        0 < decimal(x).len() <= decimal(y).len(),
    decreases y,
{
    if x < 10 {
        if y >= 10 {
            lemma_decimal_len(x / 10, y / 10);
        }
    } else {
        lemma_decimal_len(x / 10, y / 10);
    }
}

/// A line of indentation, a number of at most nine digits, a period and a space is an ordered
/// list item of that number.
#[verifier::rlimit(40)]
pub proof fn law_ordered_items(t: Seq<char>, k: nat, x: nat)
    requires
        unmarked(t),
        0 < t.len(),
        t.last() != '\r',
        k < 10,
        x < 1_000_000_000,
    ensures
        ({
            let s = repeated(' ', k) + decimal(x) + seq!['.', ' '] + t;
            let none = Seq::<TextFormatStyle>::empty();
            let block = BlockView {
                kind: TextFormatBlockKind::OrderedListItem,
                depth: k as int / 2,
                ordinal: x as int,
                runs: run_of(t, none),
            };
            formatted(s, Seq::empty()) == one_block(
                s,
                block,
                repeated(' ', (2 * (k as int / 2)) as nat) + decimal(x) + seq!['.', ' '] + t,
            )
        }),
{
    let d = decimal(x);
    let s = repeated(' ', k) + d + seq!['.', ' '] + t;
    let n = s.len() as int;
    let at = k as int;
    let stop = at + d.len();
    lemma_decimal_len(x, 999_999_999);
    reveal_with_fuel(decimal, 10);
    assert(decimal(999_999_999).len() == 9);
    assert forall|i: int| 0 <= i < at implies #[trigger] s[i] == ' ' by {}
    assert(s.subrange(at, stop) =~= d);
    lemma_decimal(s, at, x);
    assert(s[stop] == '.' && s[stop + 1] == ' ');
    lemma_digits_are(s, at, stop, n);
    assert(is_digit(s[at]));
    lemma_indent_is(s, 0, at, n);
    assert(s.subrange(stop + 2, n) =~= t);
    assert(!is_space(s[at]));
    let line = Span { start: 0, end: n };
    assert(quote_start(s, line) is None);
    lemma_one_item(s, TextFormatBlockKind::OrderedListItem, at / 2, x as int, stop + 2, t);
    lemma_indentation(at / 2);
}

/// What stands between two lines of three backticks is a code block: shown and copied as it
/// stands, in exactly the style of code, whatever markers it holds.
#[verifier::rlimit(40)]
pub proof fn law_fences_make_code(t: Seq<char>)
    requires
        0 < t.len(),
        forall|i: int| 0 <= i < t.len() ==> #[trigger] t[i] != '`' && t[i] != '\n',
        t.last() != '\r',
    ensures
        ({
            let fence = repeated('`', 3);
            let s = fence + seq!['\n'] + t + seq!['\n'] + fence;
            let block = BlockView {
                kind: TextFormatBlockKind::CodeBlock,
                depth: 0,
                ordinal: 0,
                runs: run_of(t, seq![TextFormatStyle::InlineCode]),
            };
            formatted(s, Seq::empty()) == one_block(s, block, t)
        }),
{
    let fence = repeated('`', 3);
    let s = fence + seq!['\n'] + t + seq!['\n'] + fence;
    let n = s.len() as int;
    let e = 4 + t.len() as int;
    assert forall|i: int| 4 <= i < e implies #[trigger] s[i] == t[i - 4] by {}
    assert(s[0] == '`' && s[1] == '`' && s[2] == '`' && s[3] == '\n');
    assert(s[e] == '\n' && s[e + 1] == '`' && s[e + 2] == '`' && s[e + 3] == '`');
    assert(n == e + 4);
    let a = Span { start: 0, end: 3 };
    let b = Span { start: 4, end: e };
    let c = Span { start: e + 1, end: n };
    lemma_first_is(s, '\n', 0, 3, n);
    lemma_first_is(s, '\n', 4, e, n);
    lemma_first_of_absent(s, '\n', e + 1, n);
    assert(s[e - 1] == t.last());
    let lines = lines_from(s, 0);
    assert(lines_from(s, e + 1) =~= seq![c]);
    assert(lines_from(s, 4) =~= seq![b, c]);
    assert(lines =~= seq![a, b, c]);
    assert(!is_space(s[0]));
    assert(after_indent(s, 0, 3) == 0);
    assert(is_fence(s, a));
    lemma_not_closing(s, b);
    assert(is_closing_fence(s, c));
    reveal_with_fuel(closing_line, 3);
    assert(closing_line(s, lines, 1) == 2);
    let styles = StyleSet::code_only();
    let run = StyledSpan { start: 4, end: e, styles };
    reveal_with_fuel(code_runs, 2);
    assert(code_runs(lines, 1, 1) =~= seq![run]);
    let block = SpanBlock {
        kind: TextFormatBlockKind::CodeBlock,
        depth: 0,
        ordinal: 0,
        runs: seq![run],
    };
    assert(blocks_from(s, lines, 3) == Some(Seq::<SpanBlock>::empty()));
    assert(seq![block] + Seq::<SpanBlock>::empty() =~= seq![block]);
    assert(blocks_from(s, lines, 0) == Some(seq![block]));
    lemma_one_block(s, block);
    reveal_with_fuel(runs_text, 2);
    assert(s.subrange(4, e) =~= t);
    assert(copy_prefix(block) + runs_text(s, seq![run], 1) =~= t);
    assert(styles.tokens() =~= seq![TextFormatStyle::InlineCode]);
    assert(shown_block(s, block).runs =~= run_of(t, seq![TextFormatStyle::InlineCode]));
}

/// A line without backticks closes no code block.
proof fn lemma_not_closing(s: Seq<char>, line: Span)
    requires
        0 <= line.start <= line.end <= s.len(),
        forall|i: int| line.start <= i < line.end ==> #[trigger] s[i] != '`',
    ensures
        !is_closing_fence(s, line),
{
    let a = after_space(s, line.start, line.end);
    let b = before_space(s, line.start, line.end);
    lemma_space_ends(s, line.start, line.end);
    if b - a >= 3 {
        assert(s[a] != '`');
    }
}

proof fn lemma_space_ends(s: Seq<char>, from: int, to: int)
    requires
        from <= to,
    ensures
        from <= after_space(s, from, to) <= to,
        from <= before_space(s, from, to) <= to,
    decreases to - from,
{
    if from < to {
        if is_space(s[from]) {
            lemma_space_ends(s, from + 1, to);
        }
        if is_space(s[to - 1]) {
            lemma_space_ends(s, from, to - 1);
        }
    }
}

/// A line of text that starts no other block.
pub open spec fn plain_line(t: Seq<char>) -> bool {
    &&& unmarked(t)
    &&& t.len() > 0
    &&& t.last() != '\r'
    &&& !is_space(t[0])
    &&& !is_digit(t[0])
    &&& t[0] != '>'
    &&& t[0] != '-'
    &&& t[0] != '+'
}

/// A part of the text that reads as a plain line continues a paragraph.
proof fn lemma_plain_line(s: Seq<char>, t: Seq<char>, lo: int, hi: int)
    requires
        plain_line(t),
        0 <= lo < hi <= s.len(),
        s.subrange(lo, hi) == t,
    ensures
        is_paragraph_line(s, (Span { start: lo, end: hi })),
        forall|i: int| lo <= i < hi ==> !is_marker(#[trigger] s[i]) && s[i] != '\n',
        s[hi - 1] != '\r',
{
    assert forall|i: int| lo <= i < hi implies !is_marker(#[trigger] s[i]) && s[i] != '\n' by {
        assert(s.subrange(lo, hi)[i - lo] == s[i]);
        assert(!is_marker(t[i - lo]));
    }
    assert(s[lo] == t[0] && s[hi - 1] == t.last());
    assert(after_indent(s, lo, hi) == lo);
    assert(after_digits(s, lo, hi) == lo);
    let line = Span { start: lo, end: hi };
    assert(!is_marker(s[lo]));
}

/// Lines that follow one another are one paragraph, and the break between them is kept.
#[verifier::rlimit(40)]
pub proof fn law_lines_join_into_a_paragraph(x: Seq<char>, y: Seq<char>)
    requires
        plain_line(x),
        plain_line(y),
    ensures
        ({
            let s = x + seq!['\n'] + y;
            let none = Seq::<TextFormatStyle>::empty();
            let runs = run_of(x, none) + run_of(seq!['\n'], none) + run_of(y, none);
            formatted(s, Seq::empty()) == one_paragraph(s, runs, s)
        }),
{
    let s = x + seq!['\n'] + y;
    let n = s.len() as int;
    let m = x.len() as int;
    let plain = StyleSet::plain();
    let a = Span { start: 0, end: m };
    let b = Span { start: m + 1, end: n };
    assert(s.subrange(0, m) =~= x);
    assert(s.subrange(m + 1, n) =~= y);
    lemma_plain_line(s, x, 0, m);
    lemma_plain_line(s, y, m + 1, n);
    assert(s[m] == '\n');
    lemma_first_is(s, '\n', 0, m, n);
    lemma_first_of_absent(s, '\n', m + 1, n);
    let lines = lines_from(s, 0);
    assert(lines_from(s, m + 1) =~= seq![b]);
    assert(lines =~= seq![a, b]);
    reveal_with_fuel(paragraph_end, 3);
    assert(paragraph_end(s, lines, 0) == 2);
    lemma_plain_runs(s, 0, m, 0, plain);
    lemma_plain_runs(s, m + 1, n, 0, plain);
    let first = StyledSpan { start: 0, end: m, styles: plain };
    let middle = StyledSpan { start: m, end: m + 1, styles: plain };
    let last = StyledSpan { start: m + 1, end: n, styles: plain };
    reveal_with_fuel(paragraph_runs, 3);
    assert(Seq::<StyledSpan>::empty() + seq![first] =~= seq![first]);
    assert(paragraph_runs(s, lines, 0, 1) == Some(seq![first]));
    let runs = seq![first, middle, last];
    assert(seq![first].push(middle) + seq![last] =~= runs);
    assert(paragraph_runs(s, lines, 0, 2) == Some(runs));
    let block = SpanBlock { kind: TextFormatBlockKind::Paragraph, depth: 0, ordinal: 0, runs };
    assert(blocks_from(s, lines, 2) == Some(Seq::<SpanBlock>::empty()));
    assert(seq![block] + Seq::<SpanBlock>::empty() =~= seq![block]);
    assert(blocks_from(s, lines, 0) == Some(seq![block]));
    lemma_one_block(s, block);
    reveal_with_fuel(runs_text, 4);
    assert(s.subrange(m, m + 1) =~= seq!['\n']);
    assert(copy_prefix(block) + runs_text(s, runs, 3) =~= s);
    let none = Seq::<TextFormatStyle>::empty();
    assert(plain.tokens() =~= none);
    assert(shown_block(s, block).runs =~= run_of(x, none) + run_of(seq!['\n'], none) + run_of(
        y,
        none,
    ));
}

/// A blank line separates paragraphs; copied, they stand on lines of their own.
#[verifier::rlimit(40)]
#[verifier::spinoff_prover]
pub proof fn law_blank_lines_separate(x: Seq<char>, y: Seq<char>)
    requires
        plain_line(x),
        plain_line(y),
    ensures
        ({
            let s = x + seq!['\n', '\n'] + y;
            let none = Seq::<TextFormatStyle>::empty();
            let kind = TextFormatBlockKind::Paragraph;
            formatted(s, Seq::empty()) == FormattedView {
                source: s,
                plain_text: x + seq!['\n'] + y,
                blocks: seq![
                    BlockView { kind, depth: 0, ordinal: 0, runs: run_of(x, none) },
                    BlockView { kind, depth: 0, ordinal: 0, runs: run_of(y, none) },
                ],
                used_fallback: false,
            }
        }),
{
    let s = x + seq!['\n', '\n'] + y;
    let n = s.len() as int;
    let m = x.len() as int;
    let plain = StyleSet::plain();
    let a = Span { start: 0, end: m };
    let b = Span { start: m + 1, end: m + 1 };
    let c = Span { start: m + 2, end: n };
    assert(s.subrange(0, m) =~= x);
    assert(s.subrange(m + 2, n) =~= y);
    lemma_plain_line(s, x, 0, m);
    lemma_plain_line(s, y, m + 2, n);
    assert(s[m] == '\n' && s[m + 1] == '\n');
    lemma_first_is(s, '\n', 0, m, n);
    lemma_first_is(s, '\n', m + 1, m + 1, n);
    lemma_first_of_absent(s, '\n', m + 2, n);
    let lines = lines_from(s, 0);
    assert(lines_from(s, m + 2) =~= seq![c]);
    assert(lines_from(s, m + 1) =~= seq![b, c]);
    assert(lines =~= seq![a, b, c]);
    assert(is_blank(s, b));
    reveal_with_fuel(paragraph_end, 2);
    assert(paragraph_end(s, lines, 0) == 1);
    assert(paragraph_end(s, lines, 2) == 3);
    lemma_plain_runs(s, 0, m, 0, plain);
    lemma_plain_runs(s, m + 2, n, 0, plain);
    let first = StyledSpan { start: 0, end: m, styles: plain };
    let last = StyledSpan { start: m + 2, end: n, styles: plain };
    reveal_with_fuel(paragraph_runs, 2);
    assert(Seq::<StyledSpan>::empty() + seq![first] =~= seq![first]);
    assert(Seq::<StyledSpan>::empty() + seq![last] =~= seq![last]);
    assert(paragraph_runs(s, lines, 0, 1) == Some(seq![first]));
    assert(paragraph_runs(s, lines, 2, 1) == Some(seq![last]));
    let kind = TextFormatBlockKind::Paragraph;
    let u = SpanBlock { kind, depth: 0, ordinal: 0, runs: seq![first] };
    let v = SpanBlock { kind, depth: 0, ordinal: 0, runs: seq![last] };
    assert(blocks_from(s, lines, 3) == Some(Seq::<SpanBlock>::empty()));
    assert(seq![v] + Seq::<SpanBlock>::empty() =~= seq![v]);
    assert(blocks_from(s, lines, 2) == Some(seq![v]));
    assert(blocks_from(s, lines, 1) == Some(seq![v]));
    assert(seq![u] + seq![v] =~= seq![u, v]);
    assert(blocks_from(s, lines, 0) == Some(seq![u, v]));
    let hs = highlight_spans(s, Seq::empty());
    assert(hs =~= Seq::<Span>::empty());
    lemma_uncut(u.runs, 1);
    lemma_uncut(v.runs, 1);
    assert(u.runs.take(1) =~= u.runs);
    assert(v.runs.take(1) =~= v.runs);
    assert(cut_block(hs, u) == u);
    assert(cut_block(hs, v) == v);
    assert(cut_blocks(hs, seq![u, v]) =~= seq![u, v]);
    reveal_with_fuel(run_count, 3);
    reveal_with_fuel(copied, 3);
    reveal_with_fuel(runs_text, 2);
    assert(runs_text(s, u.runs, 1) =~= x);
    assert(runs_text(s, v.runs, 1) =~= y);
    assert(copied(s, seq![u, v], 1) =~= x);
    assert(copied(s, seq![u, v], 2) =~= x + seq!['\n'] + y);
    let none = Seq::<TextFormatStyle>::empty();
    assert(plain.tokens() =~= none);
    assert(shown_block(s, u).runs =~= run_of(x, none));
    assert(shown_block(s, v).runs =~= run_of(y, none));
    assert(formatted(s, Seq::empty()).blocks =~= seq![shown_block(s, u), shown_block(s, v)]);
}

// ---- White space and line ends ----

/// White space is what Unicode lists as such, and nothing else.
pub proof fn law_white_space(c: char)
    ensures
        is_space(c) <==> seq![
            0x9u32, 0xa, 0xb, 0xc, 0xd, 0x20, 0x85, 0xa0, 0x1680, 0x2000, 0x2001, 0x2002, 0x2003,
            0x2004, 0x2005, 0x2006, 0x2007, 0x2008, 0x2009, 0x200a, 0x2028, 0x2029, 0x202f, 0x205f,
            0x3000,
        ].contains(c as u32),
{
    let all = seq![
        0x9u32, 0xa, 0xb, 0xc, 0xd, 0x20, 0x85, 0xa0, 0x1680, 0x2000, 0x2001, 0x2002, 0x2003,
        0x2004, 0x2005, 0x2006, 0x2007, 0x2008, 0x2009, 0x200a, 0x2028, 0x2029, 0x202f, 0x205f,
        0x3000,
    ];
    let v = c as u32;
    assert(all[0] == 0x9 && all[1] == 0xa && all[2] == 0xb && all[3] == 0xc && all[4] == 0xd);
    assert(all[5] == 0x20 && all[6] == 0x85 && all[7] == 0xa0 && all[8] == 0x1680);
    assert(all[9] == 0x2000 && all[10] == 0x2001 && all[11] == 0x2002 && all[12] == 0x2003);
    assert(all[13] == 0x2004 && all[14] == 0x2005 && all[15] == 0x2006 && all[16] == 0x2007);
    assert(all[17] == 0x2008 && all[18] == 0x2009 && all[19] == 0x200a && all[20] == 0x2028);
    assert(all[21] == 0x2029 && all[22] == 0x202f && all[23] == 0x205f && all[24] == 0x3000);
    if all.contains(v) {
        let k = choose|k: int| 0 <= k < all.len() && all[k] == v;
        assert(all[k] == v && k < 25);
    }
}

/// Markers are backticks, asterisks and underscores.
pub proof fn law_markers(c: char)
    ensures
        is_marker(c) <==> seq!['`', '*', '_'].contains(c),
{
    let all = seq!['`', '*', '_'];
    assert(all[0] == '`' && all[1] == '*' && all[2] == '_');
}

/// A carriage return before a line break belongs to neither line.
#[verifier::rlimit(40)]
pub proof fn law_returns_end_lines(x: Seq<char>, y: Seq<char>)
    requires
        plain_line(x),
        plain_line(y),
    ensures
        ({
            let s = x + seq!['\r', '\n'] + y;
            let none = Seq::<TextFormatStyle>::empty();
            let runs = run_of(x, none) + run_of(seq!['\n'], none) + run_of(y, none);
            formatted(s, Seq::empty()) == one_paragraph(s, runs, x + seq!['\n'] + y)
        }),
{
    let s = x + seq!['\r', '\n'] + y;
    let n = s.len() as int;
    let m = x.len() as int;
    let plain = StyleSet::plain();
    let a = Span { start: 0, end: m };
    let b = Span { start: m + 2, end: n };
    assert(s.subrange(0, m) =~= x);
    assert(s.subrange(m + 2, n) =~= y);
    lemma_plain_line(s, x, 0, m);
    lemma_plain_line(s, y, m + 2, n);
    assert(s[m] == '\r' && s[m + 1] == '\n');
    lemma_first_is(s, '\n', 0, m + 1, n);
    lemma_first_of_absent(s, '\n', m + 2, n);
    let lines = lines_from(s, 0);
    assert(lines_from(s, m + 2) =~= seq![b]);
    assert(lines =~= seq![a, b]);
    reveal_with_fuel(paragraph_end, 3);
    assert(paragraph_end(s, lines, 0) == 2);
    lemma_plain_runs(s, 0, m, 0, plain);
    lemma_plain_runs(s, m + 2, n, 0, plain);
    let first = StyledSpan { start: 0, end: m, styles: plain };
    let middle = StyledSpan { start: m + 1, end: m + 2, styles: plain };
    let last = StyledSpan { start: m + 2, end: n, styles: plain };
    reveal_with_fuel(paragraph_runs, 3);
    assert(Seq::<StyledSpan>::empty() + seq![first] =~= seq![first]);
    assert(paragraph_runs(s, lines, 0, 1) == Some(seq![first]));
    let runs = seq![first, middle, last];
    assert(seq![first].push(middle) + seq![last] =~= runs);
    assert(paragraph_runs(s, lines, 0, 2) == Some(runs));
    let block = SpanBlock { kind: TextFormatBlockKind::Paragraph, depth: 0, ordinal: 0, runs };
    assert(blocks_from(s, lines, 2) == Some(Seq::<SpanBlock>::empty()));
    assert(seq![block] + Seq::<SpanBlock>::empty() =~= seq![block]);
    assert(blocks_from(s, lines, 0) == Some(seq![block]));
    lemma_one_block(s, block);
    reveal_with_fuel(runs_text, 4);
    assert(s.subrange(m + 1, m + 2) =~= seq!['\n']);
    assert(copy_prefix(block) + runs_text(s, runs, 3) =~= x + seq!['\n'] + y);
    let none = Seq::<TextFormatStyle>::empty();
    assert(plain.tokens() =~= none);
    assert(shown_block(s, block).runs =~= run_of(x, none) + run_of(seq!['\n'], none) + run_of(
        y,
        none,
    ));
}

/// A code block that is never closed runs to the end of the text; what follows its opening
/// backticks in their line is not shown.
#[verifier::rlimit(40)]
pub proof fn law_open_fences_run_to_the_end(info: Seq<char>, t: Seq<char>)
    requires
        forall|i: int| 0 <= i < info.len() ==> #[trigger] info[i] != '\n',
        0 < t.len(),
        forall|i: int| 0 <= i < t.len() ==> #[trigger] t[i] != '`' && t[i] != '\n',
        t.last() != '\r',
    ensures
        ({
            let s = repeated('`', 3) + info + seq!['\n'] + t;
            let block = BlockView {
                kind: TextFormatBlockKind::CodeBlock,
                depth: 0,
                ordinal: 0,
                runs: run_of(t, seq![TextFormatStyle::InlineCode]),
            };
            formatted(s, Seq::empty()) == one_block(s, block, t)
        }),
{
    let s = repeated('`', 3) + info + seq!['\n'] + t;
    let n = s.len() as int;
    let m = 3 + info.len() as int;
    assert forall|i: int| 3 <= i < m implies #[trigger] s[i] == info[i - 3] by {}
    assert forall|i: int| m + 1 <= i < n implies #[trigger] s[i] == t[i - m - 1] by {}
    assert(s[0] == '`' && s[1] == '`' && s[2] == '`' && s[m] == '\n');
    lemma_first_is(s, '\n', 0, m, n);
    lemma_first_of_absent(s, '\n', m + 1, n);
    assert(s[n - 1] == t.last());
    let a = Span { start: 0, end: crate::text_grammar::without_return(s, 0, m) };
    let b = Span { start: m + 1, end: n };
    let lines = lines_from(s, 0);
    assert(lines_from(s, m + 1) =~= seq![b]);
    assert(lines =~= seq![a, b]);
    assert(!is_space(s[0]));
    assert(s[2] == '`');
    assert(a.end >= 3);
    assert(after_indent(s, 0, a.end) == 0);
    assert(is_fence(s, a));
    lemma_not_closing(s, b);
    reveal_with_fuel(closing_line, 3);
    assert(closing_line(s, lines, 1) == 2);
    let styles = StyleSet::code_only();
    let run = StyledSpan { start: m + 1, end: n, styles };
    reveal_with_fuel(code_runs, 2);
    assert(code_runs(lines, 1, 1) =~= seq![run]);
    let block = SpanBlock {
        kind: TextFormatBlockKind::CodeBlock,
        depth: 0,
        ordinal: 0,
        runs: seq![run],
    };
    assert(blocks_from(s, lines, 3) == Some(Seq::<SpanBlock>::empty()));
    assert(seq![block] + Seq::<SpanBlock>::empty() =~= seq![block]);
    assert(!is_blank(s, a));
    assert(blocks_from(s, lines, 0) == Some(seq![block]));
    lemma_one_block(s, block);
    reveal_with_fuel(runs_text, 2);
    assert(s.subrange(m + 1, n) =~= t);
    assert(copy_prefix(block) + runs_text(s, seq![run], 1) =~= t);
    assert(styles.tokens() =~= seq![TextFormatStyle::InlineCode]);
    assert(shown_block(s, block).runs =~= run_of(t, seq![TextFormatStyle::InlineCode]));
}

// ---- Highlights ----

/// Highlights are refused when there are more than sixty-four, when one is empty or splits a
/// character, or when they overlap or stand out of order.
pub proof fn law_refused_highlights(
    s: Seq<char>,
    hs: Seq<TextFormatHighlight>,
    i: int,
    j: int,
)
    ensures
        hs.len() > 64 ==> !valid_highlights(s, hs),
        0 <= i < hs.len() && hs[i].start >= hs[i].end ==> !valid_highlights(s, hs),
        0 <= i < j < hs.len() && hs[i].end > hs[j].start ==> !valid_highlights(s, hs),
        0 <= i < hs.len() && (forall|k: int|
            0 <= k <= s.len() ==> #[trigger] byte_offset(s, k) != hs[i].start) ==> !valid_highlights(
            s,
            hs,
        ),
        0 <= i < hs.len() && (forall|k: int|
            0 <= k <= s.len() ==> #[trigger] byte_offset(s, k) != hs[i].end) ==> !valid_highlights(
            s,
            hs,
        ),
        valid_highlights(s, Seq::empty()),
{
    if valid_highlights(s, hs) && 0 <= i < hs.len() {
        assert(highlight_ok(s, hs[i]));
        let a = position_at(s, hs[i].start as int);
        let b = position_at(s, hs[i].end as int);
        assert(byte_offset(s, a) == hs[i].start as int);
        assert(byte_offset(s, b) == hs[i].end as int);
    }
}

/// A highlight over whole characters is accepted, and covers exactly those.
pub proof fn law_single_highlights(s: Seq<char>, a: int, b: int)
    requires
        0 <= a < b <= s.len(),
        byte_offset(s, b) <= u32::MAX,
    ensures
        ({
            let h = TextFormatHighlight {
                start: byte_offset(s, a) as u32,
                end: byte_offset(s, b) as u32,
            };
            &&& valid_highlights(s, seq![h])
            &&& highlight_spans(s, seq![h]) == seq![Span { start: a, end: b }]
        }),
{
    crate::text_laws::lemma_grow(s, a, b);
    crate::text_laws::lemma_grow(s, 0, a);
    let h = TextFormatHighlight {
        start: byte_offset(s, a) as u32,
        end: byte_offset(s, b) as u32,
    };
    assert(byte_offset(s, a) == h.start as int);
    assert(byte_offset(s, b) == h.end as int);
    assert(highlight_ok(s, h));
    let x = position_at(s, h.start as int);
    let y = position_at(s, h.end as int);
    lemma_same_place(s, x, a);
    lemma_same_place(s, y, b);
    assert(highlight_spans(s, seq![h]) =~= seq![Span { start: a, end: b }]);
}

proof fn lemma_same_place(s: Seq<char>, x: int, y: int)
    requires
        0 <= x <= s.len(),
        0 <= y <= s.len(),
        byte_offset(s, x) == byte_offset(s, y),
    ensures
        x == y,
{
    if x < y {
        crate::text_laws::lemma_grow(s, x, y);
    } else if y < x {
        crate::text_laws::lemma_grow(s, y, x);
    }
}

} // verus!
