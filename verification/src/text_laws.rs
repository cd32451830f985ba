//! What holds of every formatted text.

use vstd::prelude::*;

use crate::text_formatting::{
    TextFormatBlockKind, TextFormatHighlight, TextFormatStyle, MAX_FORMAT_BLOCKS, MAX_FORMAT_RUNS,
};
use crate::text_grammar::{
    acceptable, after_digits, blocks_from, byte_len, byte_offset, closing_line, code_runs, copied,
    copy_prefix, cut_block, cut_blocks, cut_run, cut_runs, first_of, formatted, highlight_spans,
    inline_runs, is_blank, is_fence, is_highlighted, is_marker, lines_from, list_item, literal,
    literal_run, literal_runs, next_edge, next_marker, paragraph_end, paragraph_runs, quote_start,
    run_count, runs_text, shown_block, utf8_len, valid_highlights, with_width, BlockView, RunView,
    Span, SpanBlock, StyleSet, StyledSpan,
};

verus! {

/// The rank of a style token in a run.
pub open spec fn style_rank(style: TextFormatStyle) -> int {
    match style {
        TextFormatStyle::Emphasis => 0,
        TextFormatStyle::Strong => 1,
        TextFormatStyle::InlineCode => 2,
        TextFormatStyle::Highlight => 3,
    }
}

/// Style tokens stand in ascending order and none stands twice.
pub open spec fn styles_sorted(styles: Seq<TextFormatStyle>) -> bool {
    forall|i: int, j: int|
        0 <= i < j < styles.len() ==> style_rank(#[trigger] styles[i]) < style_rank(
            #[trigger] styles[j],
        )
}

/// Runs in the first `n` shown blocks together.
pub open spec fn shown_run_count(blocks: Seq<BlockView>, n: int) -> int
    decreases n,
{
    if n <= 0 {
        0
    } else {
        shown_run_count(blocks, n - 1) + blocks[n - 1].runs.len()
    }
}

/// The joined text of the first `n` shown runs.
pub open spec fn shown_text(runs: Seq<RunView>, n: int) -> Seq<char>
    decreases n,
{
    if n <= 0 {
        Seq::empty()
    } else {
        shown_text(runs, n - 1) + runs[n - 1].text
    }
}

/// The byte length that bounds a source is the length of its UTF-8 encoding.
pub proof fn law_byte_len_is_utf8(s: Seq<char>)
    ensures
        byte_len(s) == vstd::utf8::encode_utf8(s).len(),
    decreases s.len(),
{
    if s.len() > 0 {
        let rest = s.drop_first();
        law_byte_len_is_utf8(rest);
        lemma_offset_of_rest(s, s.len() as int);
        vstd::utf8::char_is_scalar(s[0]);
        assert(vstd::utf8::encode_scalar(s[0] as u32).len() == utf8_len(s[0]));
    }
}

proof fn lemma_offset_of_rest(s: Seq<char>, k: int)
    requires
        1 <= k <= s.len(),
    ensures
        byte_offset(s, k) == utf8_len(s[0]) + byte_offset(s.drop_first(), k - 1),
    decreases k,
{
    if k > 1 {
        lemma_offset_of_rest(s, k - 1);
    } else {
        assert(byte_offset(s, 0) == 0);
    }
}

/// Formatting never changes the source.
pub proof fn law_source_is_kept(s: Seq<char>, highlights: Seq<TextFormatHighlight>)
    ensures
        formatted(s, highlights).source == s,
{
}

/// Every run of the result carries its style tokens sorted and without repetition.
pub proof fn law_styles_are_sorted(
    s: Seq<char>,
    highlights: Seq<TextFormatHighlight>,
    block: int,
    run: int,
)
    requires
        0 <= block < formatted(s, highlights).blocks.len(),
        0 <= run < formatted(s, highlights).blocks[block].runs.len(),
    ensures
        styles_sorted(formatted(s, highlights).blocks[block].runs[run].styles),
{
    let hs = highlight_spans(s, highlights);
    if formatted(s, highlights).used_fallback {
        lemma_literal_styles(s, hs, hs.len() as int);
    }
}

proof fn lemma_literal_styles(s: Seq<char>, hs: Seq<Span>, n: int)
    requires
        n <= hs.len(),
    ensures
        forall|i: int|
            0 <= i < literal_runs(s, hs, n).len() ==> styles_sorted(
                (#[trigger] literal_runs(s, hs, n)[i]).styles,
            ),
    decreases n,
{
    if n > 0 {
        lemma_literal_styles(s, hs, n - 1);
        let from = if n == 1 { 0 } else { hs[n - 2].end };
        let runs = literal_runs(s, hs, n);
        let prior = literal_runs(s, hs, n - 1);
        assert(styles_sorted(literal_run(s, from, hs[n - 1].start, false).styles));
        assert(styles_sorted(literal_run(s, hs[n - 1].start, hs[n - 1].end, true).styles));
        assert forall|i: int| 0 <= i < runs.len() implies styles_sorted(
            (#[trigger] runs[i]).styles,
        ) by {
            if i < prior.len() {
                assert(runs[i] == prior[i]);
            }
        }
    }
}

/// The result never holds more blocks or runs than the bounds allow.
pub proof fn law_result_is_bounded(s: Seq<char>, highlights: Seq<TextFormatHighlight>)
    requires
        acceptable(s, highlights),
    ensures
        ({
            let blocks = formatted(s, highlights).blocks;
            &&& blocks.len() <= MAX_FORMAT_BLOCKS
            &&& shown_run_count(blocks, blocks.len() as int) <= MAX_FORMAT_RUNS
        }),
{
    let hs = highlight_spans(s, highlights);
    let res = formatted(s, highlights);
    if res.used_fallback {
        lemma_literal_len(s, hs, hs.len() as int);
        assert(shown_run_count(res.blocks, 1) == shown_run_count(res.blocks, 0)
            + res.blocks[0].runs.len());
    } else {
        let blocks = cut_blocks(hs, blocks_from(s, lines_from(s, 0), 0)->0);
        lemma_shown_count(s, blocks, blocks.len() as int);
        assert(res.blocks == blocks.map_values(|b: SpanBlock| shown_block(s, b)));
    }
}

proof fn lemma_literal_len(s: Seq<char>, hs: Seq<Span>, n: int)
    requires
        0 <= n <= hs.len(),
    ensures
        n <= literal_runs(s, hs, n).len() <= 2 * n,
    decreases n,
{
    if n > 0 {
        lemma_literal_len(s, hs, n - 1);
    }
}

proof fn lemma_shown_count(s: Seq<char>, blocks: Seq<SpanBlock>, n: int)
    requires
        0 <= n <= blocks.len(),
    ensures
        shown_run_count(blocks.map_values(|b: SpanBlock| shown_block(s, b)), n) == run_count(
            blocks,
            n,
        ),
    decreases n,
{
    if n > 0 {
        lemma_shown_count(s, blocks, n - 1);
    }
}

/// The highlights of an acceptable text are nonempty ranges of it, in order.
proof fn lemma_spans_ordered(s: Seq<char>, highlights: Seq<TextFormatHighlight>)
    requires
        valid_highlights(s, highlights),
    ensures
        ({
            let hs = highlight_spans(s, highlights);
            &&& forall|i: int|
                0 <= i < hs.len() ==> 0 <= (#[trigger] hs[i]).start < hs[i].end <= s.len()
            &&& forall|i: int, j: int|
                0 <= i < j < hs.len() ==> (#[trigger] hs[i]).end <= (#[trigger] hs[j]).start
        }),
{
    let hs = highlight_spans(s, highlights);
    assert forall|i: int| 0 <= i < hs.len() implies 0 <= (#[trigger] hs[i]).start < hs[i].end
        <= s.len() by {
        let h = highlights[i];
        assert(crate::text_grammar::highlight_ok(s, h));
        if hs[i].end <= hs[i].start {
            lemma_grow(s, hs[i].end, hs[i].start);
        }
    }
    assert forall|i: int, j: int| 0 <= i < j < hs.len() implies (#[trigger] hs[i]).end <= (
    #[trigger] hs[j]).start by {
        assert(highlights[i].end <= highlights[j].start);
        assert(crate::text_grammar::highlight_ok(s, highlights[i]));
        assert(crate::text_grammar::highlight_ok(s, highlights[j]));
        if hs[j].start < hs[i].end {
            lemma_grow(s, hs[j].start, hs[i].end);
        }
    }
}

pub(crate) proof fn lemma_grow(s: Seq<char>, a: int, b: int)
    requires
        0 <= a <= b,
    ensures
        byte_offset(s, a) + (b - a) <= byte_offset(s, b),
    decreases b - a,
{
    if a < b {
        lemma_grow(s, a, b - 1);
    }
}

/// When a bound is exceeded the source is shown and copied literally: one paragraph without
/// depth or number whose runs, joined, are the source. Its runs are the highlights, which keep
/// their style, and the unstyled text between them.
pub proof fn law_fallback_is_literal(s: Seq<char>, highlights: Seq<TextFormatHighlight>)
    requires
        acceptable(s, highlights),
        formatted(s, highlights).used_fallback,
    ensures
        ({
            let res = formatted(s, highlights);
            &&& res == literal(s, highlight_spans(s, highlights))
            &&& res.plain_text == s
            &&& res.blocks.len() == 1
            &&& res.blocks[0].kind == TextFormatBlockKind::Paragraph
            &&& res.blocks[0].depth == 0
            &&& res.blocks[0].ordinal == 0
            &&& shown_text(res.blocks[0].runs, res.blocks[0].runs.len() as int) == s
        }),
{
    let hs = highlight_spans(s, highlights);
    lemma_spans_ordered(s, highlights);
    let runs = literal_runs(s, hs, hs.len() as int);
    lemma_literal_text(s, hs, hs.len() as int);
    let from = if hs.len() == 0 { 0 } else { hs.last().end };
    let all = formatted(s, highlights).blocks[0].runs;
    if from < s.len() || runs.len() == 0 {
        let last = literal_run(s, from, s.len() as int, false);
        assert(all == runs.push(last));
        lemma_shown_text_push(runs, last);
        assert(s.subrange(0, from) + s.subrange(from, s.len() as int) =~= s);
    } else {
        assert(s.subrange(0, from) =~= s);
    }
}

proof fn lemma_shown_text_push(runs: Seq<RunView>, run: RunView)
    ensures
        shown_text(runs.push(run), (runs.len() + 1) as int) == shown_text(runs, runs.len() as int)
            + run.text,
{
    lemma_shown_text_prefix(runs, runs.push(run), runs.len() as int);
}

proof fn lemma_shown_text_prefix(a: Seq<RunView>, b: Seq<RunView>, n: int)
    requires
        0 <= n <= a.len() <= b.len(),
        forall|i: int| 0 <= i < n ==> #[trigger] a[i] == b[i],
    ensures
        shown_text(a, n) == shown_text(b, n),
    decreases n,
{
    if n > 0 {
        lemma_shown_text_prefix(a, b, n - 1);
    }
}

proof fn lemma_literal_text(s: Seq<char>, hs: Seq<Span>, n: int)
    requires
        0 <= n <= hs.len(),
        forall|i: int| 0 <= i < hs.len() ==> 0 <= (#[trigger] hs[i]).start < hs[i].end <= s.len(),
        forall|i: int, j: int|
            0 <= i < j < hs.len() ==> (#[trigger] hs[i]).end <= (#[trigger] hs[j]).start,
    ensures
        ({
            let runs = literal_runs(s, hs, n);
            shown_text(runs, runs.len() as int) == s.subrange(
                0,
                if n == 0 {
                    0
                } else {
                    hs[n - 1].end
                },
            )
        }),
    decreases n,
{
    if n == 0 {
        assert(s.subrange(0, 0) =~= Seq::<char>::empty());
    } else {
        lemma_literal_text(s, hs, n - 1);
        let from = if n == 1 { 0 } else { hs[n - 2].end };
        let h = hs[n - 1];
        let runs = literal_runs(s, hs, n - 1);
        if n > 1 {
            assert(hs[n - 2].end <= hs[n - 1].start);
        }
        if from < h.start {
            let gap = literal_run(s, from, h.start, false);
            lemma_shown_text_push(runs, gap);
            lemma_shown_text_push(runs.push(gap), literal_run(s, h.start, h.end, true));
            assert(s.subrange(0, from) + s.subrange(from, h.start) + s.subrange(h.start, h.end)
                =~= s.subrange(0, h.end));
        } else {
            lemma_shown_text_push(runs, literal_run(s, h.start, h.end, true));
            assert(s.subrange(0, from) + s.subrange(h.start, h.end) =~= s.subrange(0, h.end));
        }
    }
}

// ---- Highlights ----

/// Position `p` lies within one of the highlights.
pub open spec fn position_highlighted(hs: Seq<Span>, p: int) -> bool {
    exists|i: int| 0 <= i < hs.len() && (#[trigger] hs[i]).start <= p < hs[i].end
}

/// The pieces of a run, and every piece is highlighted exactly where the highlights
/// say and otherwise styled as the run.
pub open spec fn pieces_of(
    pieces: Seq<StyledSpan>,
    hs: Seq<Span>,
    run: StyledSpan,
    from: int,
) -> bool {
    &&& from < run.end ==> pieces.len() > 0 && pieces[0].start == from
        && pieces.last().end == run.end
    &&& forall|i: int| 0 <= i < pieces.len() ==> {
        let piece = #[trigger] pieces[i];
        &&& from <= piece.start < piece.end <= run.end
        &&& piece.styles == (StyleSet { highlight: piece.styles.highlight, ..run.styles })
        &&& forall|p: int|
            piece.start <= p < piece.end ==> piece.styles.highlight == #[trigger]
                position_highlighted(hs, p)
    }
    &&& forall|i: int, j: int|
        0 <= i && j == i + 1 && j < pieces.len() ==> (#[trigger] pieces[i]).end == (
        #[trigger] pieces[j]).start
}

/// Highlights only cut runs and add their style: the pieces of a run follow each other
/// without a gap, cover the run, and a position is highlighted exactly when it lies in
/// a highlight.
pub proof fn law_highlights_cover_their_ranges(hs: Seq<Span>, run: StyledSpan)
    requires
        !run.styles.highlight,
        forall|i: int| 0 <= i < hs.len() ==> (#[trigger] hs[i]).start < hs[i].end,
    ensures
        pieces_of(cut_run(hs, run.start, run), hs, run, run.start),
{
    lemma_pieces(hs, run.start, run);
}

proof fn lemma_pieces(hs: Seq<Span>, p: int, run: StyledSpan)
    requires
        !run.styles.highlight,
        forall|i: int| 0 <= i < hs.len() ==> (#[trigger] hs[i]).start < hs[i].end,
    ensures
        pieces_of(cut_run(hs, p, run), hs, run, p),
    decreases crate::text_grammar::extent(p, run.end),
{
    if p < run.end {
        let q = next_edge(hs, hs.len() as int, p, run.end);
        crate::text_grammar::lemma_next_edge(hs, hs.len() as int, p, run.end);
        lemma_pieces(hs, q, run);
        let rest = cut_run(hs, q, run);
        let pieces = cut_run(hs, p, run);
        let first = pieces[0];
        assert(pieces == seq![first] + rest);
        assert forall|x: int| first.start <= x < first.end implies first.styles.highlight
            == #[trigger] position_highlighted(hs, x) by {
            if position_highlighted(hs, x) {
                let i = choose|i: int|
                    0 <= i < hs.len() && (#[trigger] hs[i]).start <= x < hs[i].end;
                assert(hs[i].start <= p && q <= hs[i].end);
            }
            if is_highlighted(hs, p, q) {
                let i = choose|i: int|
                    0 <= i < hs.len() && (#[trigger] hs[i]).start <= p && q <= hs[i].end;
                assert(hs[i].start <= x < hs[i].end);
            }
        }
        assert forall|i: int| 0 <= i < pieces.len() implies {
            let piece = #[trigger] pieces[i];
            &&& p <= piece.start < piece.end <= run.end
            &&& piece.styles == (StyleSet { highlight: piece.styles.highlight, ..run.styles })
            &&& forall|x: int|
                piece.start <= x < piece.end ==> piece.styles.highlight == #[trigger]
                    position_highlighted(hs, x)
        } by {
            if i > 0 {
                assert(pieces[i] == rest[i - 1]);
            }
        }
        assert forall|i: int, j: int|
            0 <= i && j == i + 1 && j < pieces.len() implies (#[trigger] pieces[i]).end == (
        #[trigger] pieces[j]).start by {
            assert(pieces[j] == rest[j - 1]);
            if i > 0 {
                assert(pieces[i] == rest[i - 1]);
            }
        }
        if rest.len() > 0 {
            assert(pieces.last() == rest.last());
        }
    }
}

/// Highlights do not change the text of a run.
proof fn lemma_cut_text(s: Seq<char>, hs: Seq<Span>, p: int, run: StyledSpan)
    requires
        0 <= p <= run.end <= s.len(),
    ensures
        ({
            let pieces = cut_run(hs, p, run);
            runs_text(s, pieces, pieces.len() as int) == s.subrange(p, run.end)
        }),
    decreases run.end - p,
{
    let pieces = cut_run(hs, p, run);
    if p < run.end {
        let q = next_edge(hs, hs.len() as int, p, run.end);
        crate::text_grammar::lemma_next_edge(hs, hs.len() as int, p, run.end);
        lemma_cut_text(s, hs, q, run);
        let rest = cut_run(hs, q, run);
        let first = seq![pieces[0]];
        assert(pieces == first + rest);
        lemma_runs_text_add(s, first, rest, rest.len() as int);
        assert(runs_text(s, first, 1) == runs_text(s, first, 0) + s.subrange(p, q));
        assert(runs_text(s, first, 1) =~= s.subrange(p, q));
        assert(s.subrange(p, q) + s.subrange(q, run.end) =~= s.subrange(p, run.end));
    } else {
        assert(s.subrange(p, run.end) =~= Seq::<char>::empty());
    }
}

proof fn lemma_runs_text_add(s: Seq<char>, a: Seq<StyledSpan>, b: Seq<StyledSpan>, n: int)
    requires
        0 <= n <= b.len(),
    ensures
        runs_text(s, a + b, a.len() + n) == runs_text(s, a, a.len() as int) + runs_text(s, b, n),
    decreases n,
{
    if n == 0 {
        lemma_runs_text_prefix(s, a, a + b, a.len() as int);
        assert(runs_text(s, a, a.len() as int) + Seq::<char>::empty() =~= runs_text(
            s,
            a,
            a.len() as int,
        ));
    } else {
        lemma_runs_text_add(s, a, b, n - 1);
        assert((a + b)[a.len() + n - 1] == b[n - 1]);
        let last = s.subrange(b[n - 1].start, b[n - 1].end);
        assert(runs_text(s, a, a.len() as int) + runs_text(s, b, n - 1) + last =~= runs_text(
            s,
            a,
            a.len() as int,
        ) + (runs_text(s, b, n - 1) + last));
    }
}

proof fn lemma_runs_text_prefix(s: Seq<char>, a: Seq<StyledSpan>, b: Seq<StyledSpan>, n: int)
    requires
        0 <= n <= a.len() <= b.len(),
        forall|i: int| 0 <= i < n ==> #[trigger] a[i] == b[i],
    ensures
        runs_text(s, a, n) == runs_text(s, b, n),
    decreases n,
{
    if n > 0 {
        lemma_runs_text_prefix(s, a, b, n - 1);
    }
}

/// Runs that are ranges of the text.
pub open spec fn spans_within(runs: Seq<StyledSpan>, len: int) -> bool {
    forall|i: int| 0 <= i < runs.len() ==> 0 <= (#[trigger] runs[i]).start <= runs[i].end <= len
}

proof fn lemma_cut_runs_text(s: Seq<char>, hs: Seq<Span>, runs: Seq<StyledSpan>, n: int)
    requires
        0 <= n <= runs.len(),
        spans_within(runs, s.len() as int),
    ensures
        ({
            let cut = cut_runs(hs, runs, n);
            runs_text(s, cut, cut.len() as int) == runs_text(s, runs, n)
        }),
    decreases n,
{
    if n > 0 {
        lemma_cut_runs_text(s, hs, runs, n - 1);
        let run = runs[n - 1];
        lemma_cut_text(s, hs, run.start, run);
        let pieces = cut_run(hs, run.start, run);
        lemma_runs_text_add(s, cut_runs(hs, runs, n - 1), pieces, pieces.len() as int);
    }
}

/// Highlights never change the text that is copied: blocks with and without them copy
/// to the same characters.
pub proof fn law_highlights_keep_copied_text(
    s: Seq<char>,
    hs: Seq<Span>,
    blocks: Seq<SpanBlock>,
    n: int,
)
    requires
        0 <= n <= blocks.len(),
        forall|i: int|
            0 <= i < blocks.len() ==> spans_within((#[trigger] blocks[i]).runs, s.len() as int),
    ensures
        copied(s, cut_blocks(hs, blocks), n) == copied(s, blocks, n),
    decreases n,
{
    if n > 0 {
        law_highlights_keep_copied_text(s, hs, blocks, n - 1);
        let block = blocks[n - 1];
        lemma_cut_runs_text(s, hs, block.runs, block.runs.len() as int);
        assert(cut_blocks(hs, blocks)[n - 1] == cut_block(hs, block));
        assert(copy_prefix(cut_block(hs, block)) == copy_prefix(block));
    }
}

// ---- Order ----

/// Runs that are nonempty, lie in `lo..hi` and follow each other.
pub open spec fn in_order(runs: Seq<StyledSpan>, lo: int, hi: int) -> bool {
    &&& forall|i: int| 0 <= i < runs.len() ==> lo <= (#[trigger] runs[i]).start < runs[i].end <= hi
    &&& forall|i: int, j: int|
        0 <= i < j < runs.len() ==> (#[trigger] runs[i]).end <= (#[trigger] runs[j]).start
}

proof fn lemma_in_order_add(
    a: Seq<StyledSpan>,
    b: Seq<StyledSpan>,
    lo: int,
    mid: int,
    at: int,
    hi: int,
)
    requires
        in_order(a, lo, mid),
        in_order(b, at, hi),
        lo <= mid <= at <= hi,
    ensures
        in_order(a + b, lo, hi),
{
}

/// The runs of a stretch of text are nonempty parts of it, in source order and without
/// overlap: no character is shown twice and none is invented.
pub proof fn law_inline_runs_follow_source(
    s: Seq<char>,
    lo: int,
    hi: int,
    depth: int,
    styles: StyleSet,
)
    requires
        0 <= lo <= hi <= s.len(),
    ensures
        inline_runs(s, lo, hi, depth, styles) matches Some(runs) ==> in_order(runs, lo, hi),
    decreases crate::text_formatting::MAX_FORMAT_INLINE_DEPTH - depth, hi - lo,
{
    if lo >= hi {
    } else if !is_marker(s[lo]) {
        let stop = next_marker(s, lo, hi);
        crate::text_grammar::lemma_next_marker(s, lo + 1, hi);
        law_inline_runs_follow_source(s, stop, hi, depth, styles);
        if let Some(rest) = inline_runs(s, stop, hi, depth, styles) {
            lemma_in_order_add(
                seq![StyledSpan { start: lo, end: stop, styles }],
                rest,
                lo,
                stop,
                stop,
                hi,
            );
        }
    } else if s[lo] == '`' {
        let stop = first_of(s, '`', lo + 1, hi);
        if lo + 1 < stop < hi {
            law_inline_runs_follow_source(s, stop + 1, hi, depth, styles);
            if let Some(rest) = inline_runs(s, stop + 1, hi, depth, styles) {
                let piece = StyledSpan {
                    start: lo + 1,
                    end: stop,
                    styles: StyleSet { code: true, ..styles },
                };
                lemma_in_order_add(seq![piece], rest, lo, stop, stop + 1, hi);
            }
        } else {
            law_inline_runs_follow_source(s, lo + 1, hi, depth, styles);
            if let Some(rest) = inline_runs(s, lo + 1, hi, depth, styles) {
                let piece = StyledSpan { start: lo, end: lo + 1, styles };
                lemma_in_order_add(seq![piece], rest, lo, lo + 1, lo + 1, hi);
            }
        }
    } else {
        let width = crate::text_grammar::after_stretch(s, s[lo], lo, hi) - lo;
        let inner = lo + width;
        let close = crate::text_grammar::find_delimiter(s, s[lo], width, inner, hi);
        crate::text_grammar::lemma_after_stretch(s, s[lo], lo + 1, hi);
        lemma_find_delimiter(s, s[lo], width, inner, hi);
        if width > 3 {
        } else if inner < close < hi && !crate::text_grammar::is_space(s[inner])
            && !crate::text_grammar::is_space(s[close - 1]) {
            if depth < crate::text_formatting::MAX_FORMAT_INLINE_DEPTH {
                let nested = with_width(styles, width);
                law_inline_runs_follow_source(s, inner, close, depth + 1, nested);
                law_inline_runs_follow_source(s, close + width, hi, depth, styles);
                if let Some(first) = inline_runs(s, inner, close, depth + 1, nested) {
                    if let Some(rest) = inline_runs(s, close + width, hi, depth, styles) {
                        lemma_in_order_add(first, rest, lo, close, close + width, hi);
                    }
                }
            }
        } else {
            law_inline_runs_follow_source(s, inner, hi, depth, styles);
            if let Some(rest) = inline_runs(s, inner, hi, depth, styles) {
                let piece = StyledSpan { start: lo, end: inner, styles };
                lemma_in_order_add(seq![piece], rest, lo, inner, inner, hi);
            }
        }
    }
}

pub(crate) proof fn lemma_find_delimiter(s: Seq<char>, c: char, width: int, from: int, to: int)
    requires
        from <= to,
    ensures
        ({
            let at = crate::text_grammar::find_delimiter(s, c, width, from, to);
            from <= at <= to && (at < to ==> at + width <= to)
        }),
    decreases to - from,
{
    if from < to && !crate::text_grammar::delimiter_at(s, c, width, from, to) {
        lemma_find_delimiter(s, c, width, from + 1, to);
    }
}

// ---- Plain text ----

/// A single line without any marker that starts neither a quote, a list item nor a
/// code block, whatever it looks like otherwise, is shown as one unstyled run and
/// copied as it stands. Links, images and HTML are such text.
pub proof fn law_unmarked_line_stays_text(s: Seq<char>)
    requires
        0 < s.len(),
        forall|i: int| 0 <= i < s.len() ==> !is_marker(#[trigger] s[i]) && s[i] != '\n',
        s.last() != '\r',
        !is_blank(s, (Span { start: 0, end: s.len() as int })),
        quote_start(s, (Span { start: 0, end: s.len() as int })) is None,
        list_item(s, (Span { start: 0, end: s.len() as int })) is None,
    ensures
        ({
            let res = formatted(s, Seq::empty());
            &&& !res.used_fallback
            &&& res.plain_text == s
            &&& res.blocks == seq![
                BlockView {
                    kind: TextFormatBlockKind::Paragraph,
                    depth: 0,
                    ordinal: 0,
                    runs: seq![RunView { text: s, styles: Seq::empty() }],
                },
            ]
        }),
{
    let n = s.len() as int;
    let line = Span { start: 0, end: n };
    let lines = lines_from(s, 0);
    let plain = StyleSet::plain();
    lemma_first_of_absent(s, '\n', 0, n);
    assert(lines =~= seq![line]);
    lemma_no_marker(s, 0, n);
    let run = StyledSpan { start: 0, end: n, styles: plain };
    assert(inline_runs(s, n, n, 0, plain) == Some(Seq::<StyledSpan>::empty()));
    assert(seq![run] + Seq::<StyledSpan>::empty() =~= seq![run]);
    assert(inline_runs(s, 0, n, 0, plain) == Some(seq![run]));
    lemma_no_fence(s, line);
    reveal_with_fuel(paragraph_end, 2);
    assert(paragraph_end(s, lines, 0) == 1);
    reveal_with_fuel(paragraph_runs, 2);
    assert(Seq::<StyledSpan>::empty() + seq![run] =~= seq![run]);
    assert(paragraph_runs(s, lines, 0, 1) == Some(seq![run]));
    let block = SpanBlock {
        kind: TextFormatBlockKind::Paragraph,
        depth: 0,
        ordinal: 0,
        runs: seq![run],
    };
    assert(blocks_from(s, lines, 1) == Some(Seq::<SpanBlock>::empty()));
    assert(seq![block] + Seq::<SpanBlock>::empty() =~= seq![block]);
    assert(blocks_from(s, lines, 0) == Some(seq![block]));
    let hs = highlight_spans(s, Seq::empty());
    assert(hs =~= Seq::<Span>::empty());
    assert(!is_highlighted(hs, 0, n));
    assert(next_edge(hs, 0, 0, n) == n);
    assert(cut_run(hs, n, run) == Seq::<StyledSpan>::empty());
    assert(cut_run(hs, 0, run) =~= seq![run]);
    reveal_with_fuel(cut_runs, 2);
    assert(cut_runs(hs, seq![run], 1) =~= seq![run]);
    assert(cut_blocks(hs, seq![block]) =~= seq![block]);
    reveal_with_fuel(run_count, 2);
    reveal_with_fuel(copied, 2);
    reveal_with_fuel(runs_text, 2);
    assert(s.subrange(0, n) =~= s);
    assert(copied(s, seq![block], 1) =~= s);
    assert(plain.tokens() =~= Seq::<TextFormatStyle>::empty());
    assert(shown_block(s, block).runs =~= seq![RunView { text: s, styles: Seq::empty() }]);
    assert(formatted(s, Seq::empty()).blocks =~= seq![shown_block(s, block)]);
}

pub(crate) proof fn lemma_first_of_absent(s: Seq<char>, c: char, from: int, to: int)
    requires
        0 <= from <= to <= s.len(),
        forall|i: int| from <= i < to ==> #[trigger] s[i] != c,
    ensures
        first_of(s, c, from, to) == to,
    decreases to - from,
{
    if from < to {
        lemma_first_of_absent(s, c, from + 1, to);
    }
}

pub(crate) proof fn lemma_no_marker(s: Seq<char>, from: int, to: int)
    requires
        0 <= from <= to <= s.len(),
        forall|i: int| from <= i < to ==> !is_marker(#[trigger] s[i]),
    ensures
        next_marker(s, from, to) == to,
    decreases to - from,
{
    if from < to {
        lemma_no_marker(s, from + 1, to);
    }
}

pub(crate) proof fn lemma_no_fence(s: Seq<char>, line: Span)
    requires
        0 <= line.start <= line.end <= s.len(),
        forall|i: int| line.start <= i < line.end ==> !is_marker(#[trigger] s[i]),
    ensures
        !is_fence(s, line),
{
    lemma_indent(s, line.start, line.end);
}

proof fn lemma_indent(s: Seq<char>, from: int, to: int)
    requires
        from <= to,
    ensures
        from <= crate::text_grammar::after_indent(s, from, to) <= to,
    decreases to - from,
{
    if from < to && s[from] == ' ' {
        lemma_indent(s, from + 1, to);
    }
}

// ---- With and without highlights ----

proof fn lemma_first_of_range(s: Seq<char>, c: char, from: int, to: int)
    requires
        from <= to,
    ensures
        from <= first_of(s, c, from, to) <= to,
    decreases to - from,
{
    if from < to && s[from] != c {
        lemma_first_of_range(s, c, from + 1, to);
    }
}

/// Lines that are ranges of the text; only the first can start at its beginning.
spec fn lines_within(lines: Seq<Span>, from: int, len: int) -> bool {
    &&& forall|i: int| 0 <= i < lines.len() ==> from <= (#[trigger] lines[i]).start <= lines[i].end
        <= len
    &&& forall|i: int| 0 < i < lines.len() ==> from < (#[trigger] lines[i]).start
}

proof fn lemma_lines_within(s: Seq<char>, from: int)
    requires
        0 <= from <= s.len(),
    ensures
        lines_within(lines_from(s, from), from, s.len() as int),
    decreases s.len() - from,
{
    let stop = first_of(s, '\n', from, s.len() as int);
    lemma_first_of_range(s, '\n', from, s.len() as int);
    if stop < s.len() {
        lemma_lines_within(s, stop + 1);
        let lines = lines_from(s, from);
        let rest = lines_from(s, stop + 1);
        assert forall|i: int| 0 < i < lines.len() implies from < (#[trigger] lines[i]).start
            <= lines[i].end <= s.len() by {
            assert(lines[i] == rest[i - 1]);
        }
    }
}

proof fn lemma_code_within(lines: Seq<Span>, from: int, n: int, len: int)
    requires
        lines_within(lines, 0, len),
        0 <= from,
        from + n <= lines.len(),
    ensures
        spans_within(code_runs(lines, from, n), len),
    decreases n,
{
    if n > 0 {
        lemma_code_within(lines, from, n - 1, len);
        if n == 1 {
            assert(code_runs(lines, from, 0).len() == 0);
        } else {
            assert(lines[from + n - 1].start > 0);
        }
    }
}

proof fn lemma_paragraph_within(s: Seq<char>, lines: Seq<Span>, from: int, n: int)
    requires
        lines_within(lines, 0, s.len() as int),
        0 <= from,
        from + n <= lines.len(),
    ensures
        paragraph_runs(s, lines, from, n) matches Some(runs) ==> spans_within(
            runs,
            s.len() as int,
        ),
    decreases n,
{
    if n > 0 {
        lemma_paragraph_within(s, lines, from, n - 1);
        let line = lines[from + n - 1];
        let plain = StyleSet::plain();
        law_inline_runs_follow_source(s, line.start, line.end, 0, plain);
        if n == 1 {
            assert(paragraph_runs(s, lines, from, 0) == Some(Seq::<StyledSpan>::empty()));
        } else {
            assert(line.start > 0);
        }
    }
}

proof fn lemma_digits(s: Seq<char>, from: int, to: int)
    requires
        from <= to,
    ensures
        from <= after_digits(s, from, to) <= to,
    decreases to - from,
{
    if from < to && crate::text_grammar::is_digit(s[from]) {
        lemma_digits(s, from + 1, to);
    }
}

/// The runs of parsed blocks are ranges of the text.
proof fn lemma_blocks_within(s: Seq<char>, lines: Seq<Span>, from: int)
    requires
        lines_within(lines, 0, s.len() as int),
        0 <= from,
    ensures
        blocks_from(s, lines, from) matches Some(blocks) ==> forall|i: int|
            0 <= i < blocks.len() ==> spans_within((#[trigger] blocks[i]).runs, s.len() as int),
    decreases crate::text_grammar::extent(from, lines.len() as int),
{
    let plain = StyleSet::plain();
    if from < lines.len() {
        let line = lines[from];
        lemma_indent(s, line.start, line.end);
        let at = crate::text_grammar::after_indent(s, line.start, line.end);
        lemma_digits(s, at, line.end);
        if is_blank(s, line) {
            lemma_blocks_within(s, lines, from + 1);
        } else if is_fence(s, line) {
            let close = closing_line(s, lines, from + 1);
            crate::text_grammar::lemma_closing_line(s, lines, from + 1);
            lemma_code_within(lines, from + 1, close - from - 1, s.len() as int);
            lemma_blocks_within(s, lines, close + 1);
        } else if let Some(start) = quote_start(s, line) {
            law_inline_runs_follow_source(s, start, line.end, 0, plain);
            lemma_blocks_within(s, lines, from + 1);
        } else if let Some(item) = list_item(s, line) {
            law_inline_runs_follow_source(s, item.start, line.end, 0, plain);
            lemma_blocks_within(s, lines, from + 1);
        } else {
            let end = paragraph_end(s, lines, from);
            crate::text_grammar::lemma_paragraph_end(s, lines, from + 1);
            lemma_paragraph_within(s, lines, from, end - from);
            lemma_blocks_within(s, lines, end);
        }
    }
}

proof fn lemma_shown_is_text(s: Seq<char>, block: SpanBlock, n: int)
    requires
        0 <= n <= block.runs.len(),
    ensures
        shown_text(shown_block(s, block).runs, n) == runs_text(s, block.runs, n),
    decreases n,
{
    if n > 0 {
        lemma_shown_is_text(s, block, n - 1);
    }
}

proof fn lemma_uncut_run(run: StyledSpan)
    ensures
        cut_run(Seq::empty(), run.start, run).len() == if run.start < run.end {
            1nat
        } else {
            0
        },
{
    let none = Seq::<Span>::empty();
    if run.start < run.end {
        assert(next_edge(none, 0, run.start, run.end) == run.end);
        assert(cut_run(none, run.end, run) == Seq::<StyledSpan>::empty());
    }
}

proof fn lemma_uncut_runs(hs: Seq<Span>, runs: Seq<StyledSpan>, n: int)
    requires
        0 <= n <= runs.len(),
    ensures
        cut_runs(Seq::empty(), runs, n).len() <= cut_runs(hs, runs, n).len(),
    decreases n,
{
    if n > 0 {
        lemma_uncut_runs(hs, runs, n - 1);
        let run = runs[n - 1];
        lemma_uncut_run(run);
        if run.start < run.end {
            assert(cut_run(hs, run.start, run).len() > 0);
        }
    }
}

proof fn lemma_uncut_count(hs: Seq<Span>, blocks: Seq<SpanBlock>, n: int)
    requires
        0 <= n <= blocks.len(),
    ensures
        run_count(cut_blocks(Seq::empty(), blocks), n) <= run_count(cut_blocks(hs, blocks), n),
    decreases n,
{
    if n > 0 {
        lemma_uncut_count(hs, blocks, n - 1);
        let block = blocks[n - 1];
        lemma_uncut_runs(hs, block.runs, block.runs.len() as int);
        assert(cut_blocks(hs, blocks)[n - 1] == cut_block(hs, block));
        assert(cut_blocks(Seq::empty(), blocks)[n - 1] == cut_block(Seq::empty(), block));
    }
}

/// Highlights change neither what is copied nor what is read: a text that can be shown with
/// them can be shown without them, copies to the same characters, and has the same blocks with
/// the same text.
pub proof fn law_highlights_keep_text(s: Seq<char>, highlights: Seq<TextFormatHighlight>)
    requires
        acceptable(s, highlights),
        !formatted(s, highlights).used_fallback,
    ensures
        acceptable(s, Seq::empty()),
        ({
            let with = formatted(s, highlights);
            let without = formatted(s, Seq::empty());
            &&& !without.used_fallback
            &&& with.plain_text == without.plain_text
            &&& with.blocks.len() == without.blocks.len()
            &&& forall|i: int|
                0 <= i < with.blocks.len() ==> {
                    let a = #[trigger] with.blocks[i];
                    let b = without.blocks[i];
                    &&& a.kind == b.kind
                    &&& a.depth == b.depth
                    &&& a.ordinal == b.ordinal
                    &&& shown_text(a.runs, a.runs.len() as int) == shown_text(
                        b.runs,
                        b.runs.len() as int,
                    )
                }
        }),
{
    let lines = lines_from(s, 0);
    lemma_lines_within(s, 0);
    lemma_blocks_within(s, lines, 0);
    let parsed = blocks_from(s, lines, 0)->0;
    let n = parsed.len() as int;
    let hs = highlight_spans(s, highlights);
    let none = highlight_spans(s, Seq::empty());
    assert(none =~= Seq::<Span>::empty());
    lemma_uncut_count(hs, parsed, n);
    law_highlights_keep_copied_text(s, hs, parsed, n);
    law_highlights_keep_copied_text(s, none, parsed, n);
    let with = formatted(s, highlights);
    let without = formatted(s, Seq::empty());
    assert forall|i: int| 0 <= i < with.blocks.len() implies {
        let a = #[trigger] with.blocks[i];
        let b = without.blocks[i];
        &&& a.kind == b.kind
        &&& a.depth == b.depth
        &&& a.ordinal == b.ordinal
        &&& shown_text(a.runs, a.runs.len() as int) == shown_text(b.runs, b.runs.len() as int)
    } by {
        let block = parsed[i];
        let cut = cut_block(hs, block);
        let plain = cut_block(none, block);
        assert(with.blocks[i] == shown_block(s, cut));
        assert(without.blocks[i] == shown_block(s, plain));
        lemma_cut_runs_text(s, hs, block.runs, block.runs.len() as int);
        lemma_cut_runs_text(s, none, block.runs, block.runs.len() as int);
        lemma_shown_is_text(s, cut, cut.runs.len() as int);
        lemma_shown_is_text(s, plain, plain.runs.len() as int);
    }
}

} // verus!
