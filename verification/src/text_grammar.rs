//! What a formatted message is, as a function of its characters.
//!
//! Positions are character indices into the source. A line, a run and a
//! highlight are each a half-open range of such positions, so the text of
//! every piece of the result is a contiguous part of the source.

use vstd::prelude::*;

use crate::text_formatting::{
    TextFormatBlockKind, TextFormatHighlight, TextFormatStyle, MAX_FORMAT_BLOCKS,
    MAX_FORMAT_HIGHLIGHTS, MAX_FORMAT_INLINE_DEPTH, MAX_FORMAT_LIST_DEPTH, MAX_FORMAT_RUNS,
    MAX_FORMAT_SOURCE_BYTES,
};

verus! {

/// Which inert style tokens a run carries.
#[derive(Clone, Copy, Debug, PartialEq, Eq, Structural)]
pub struct StyleSet {
    /// [`TextFormatStyle::Emphasis`] is present.
    pub emphasis: bool,
    /// [`TextFormatStyle::Strong`] is present.
    pub strong: bool,
    /// [`TextFormatStyle::InlineCode`] is present.
    pub code: bool,
    /// [`TextFormatStyle::Highlight`] is present.
    pub highlight: bool,
}

impl StyleSet {
    /// No style at all.
    pub open spec fn plain() -> StyleSet {
        StyleSet { emphasis: false, strong: false, code: false, highlight: false }
    }

    /// Only inline code.
    pub open spec fn code_only() -> StyleSet {
        StyleSet { emphasis: false, strong: false, code: true, highlight: false }
    }

    /// The style tokens in their fixed order, each at most once.
    pub open spec fn tokens(self) -> Seq<TextFormatStyle> {
        let none = Seq::<TextFormatStyle>::empty();
        (if self.emphasis { none.push(TextFormatStyle::Emphasis) } else { none })
            + (if self.strong { none.push(TextFormatStyle::Strong) } else { none })
            + (if self.code { none.push(TextFormatStyle::InlineCode) } else { none })
            + (if self.highlight { none.push(TextFormatStyle::Highlight) } else { none })
    }
}

/// A half-open range of source positions.
pub struct Span {
    /// First position.
    pub start: int,
    /// One past the last position.
    pub end: int,
}

/// A range of the source with its styles.
pub struct StyledSpan {
    /// First position.
    pub start: int,
    /// One past the last position.
    pub end: int,
    /// Styles of the whole range.
    pub styles: StyleSet,
}

/// A block whose runs are still ranges of the source.
pub struct SpanBlock {
    /// Semantic role.
    pub kind: TextFormatBlockKind,
    /// List indentation.
    pub depth: int,
    /// Ordered-list number.
    pub ordinal: int,
    /// Runs in source order.
    pub runs: Seq<StyledSpan>,
}

/// One run of the result.
pub struct RunView {
    /// Display text.
    pub text: Seq<char>,
    /// Style tokens.
    pub styles: Seq<TextFormatStyle>,
}

/// One block of the result.
pub struct BlockView {
    /// Semantic role.
    pub kind: TextFormatBlockKind,
    /// List indentation.
    pub depth: int,
    /// Ordered-list number.
    pub ordinal: int,
    /// Display runs in order.
    pub runs: Seq<RunView>,
}

/// The whole result.
pub struct FormattedView {
    /// Source text.
    pub source: Seq<char>,
    /// Text to copy.
    pub plain_text: Seq<char>,
    /// Display blocks.
    pub blocks: Seq<BlockView>,
    /// Whether the source is shown literally.
    pub used_fallback: bool,
}

// ---- UTF-8 offsets ----

/// Bytes that UTF-8 takes for one character.
pub open spec fn utf8_len(c: char) -> int {
    if (c as u32) < 0x80 {
        1
    } else if (c as u32) < 0x800 {
        2
    } else if (c as u32) < 0x10000 {
        3
    } else {
        4
    }
}

/// UTF-8 byte offset of the `k`-th character.
pub open spec fn byte_offset(s: Seq<char>, k: int) -> int
    decreases k,
{
    if k <= 0 {
        0
    } else {
        byte_offset(s, k - 1) + utf8_len(s[k - 1])
    }
}

/// Length of the whole text in UTF-8 bytes.
pub open spec fn byte_len(s: Seq<char>) -> int {
    byte_offset(s, s.len() as int)
}

/// Some character starts (or the text ends) at byte offset `b`.
pub open spec fn is_boundary(s: Seq<char>, b: int) -> bool {
    exists|k: int| 0 <= k <= s.len() && #[trigger] byte_offset(s, k) == b
}

/// The character position at byte offset `b`.
pub open spec fn position_at(s: Seq<char>, b: int) -> int {
    choose|k: int| 0 <= k <= s.len() && #[trigger] byte_offset(s, k) == b
}

/// One highlight is a nonempty range between character boundaries.
pub open spec fn highlight_ok(s: Seq<char>, h: TextFormatHighlight) -> bool {
    &&& h.start < h.end
    &&& is_boundary(s, h.start as int)
    &&& is_boundary(s, h.end as int)
}

/// Highlights are few, in order, disjoint and on character boundaries.
pub open spec fn valid_highlights(s: Seq<char>, hs: Seq<TextFormatHighlight>) -> bool {
    &&& hs.len() <= MAX_FORMAT_HIGHLIGHTS
    &&& forall|i: int| 0 <= i < hs.len() ==> highlight_ok(s, #[trigger] hs[i])
    &&& forall|i: int, j: int|
        0 <= i < j < hs.len() ==> (#[trigger] hs[i]).end <= (#[trigger] hs[j]).start
}

/// The highlights as ranges of character positions.
pub open spec fn highlight_spans(s: Seq<char>, hs: Seq<TextFormatHighlight>) -> Seq<Span> {
    hs.map_values(
        |h: TextFormatHighlight|
            Span { start: position_at(s, h.start as int), end: position_at(s, h.end as int) },
    )
}

// ---- Lines ----

/// First position in `from..to` that holds `c`, or `to`.
pub open spec fn first_of(s: Seq<char>, c: char, from: int, to: int) -> int
    decreases to - from,
{
    if from >= to {
        to
    } else if s[from] == c {
        from
    } else {
        first_of(s, c, from + 1, to)
    }
}

/// End of a line that stops before `end`: one trailing carriage return is not part of it.
pub open spec fn without_return(s: Seq<char>, start: int, end: int) -> int {
    if start < end && s[end - 1] == '\r' {
        end - 1
    } else {
        end
    }
}

/// The lines of the text from position `from` on. Text after the last line break is
/// a line of its own, even when it is empty.
pub open spec fn lines_from(s: Seq<char>, from: int) -> Seq<Span>
    decreases s.len() - from,
{
    let stop = first_of(s, '\n', from, s.len() as int);
    let line = Span { start: from, end: without_return(s, from, stop) };
    if from <= stop < s.len() {
        seq![line] + lines_from(s, stop + 1)
    } else {
        seq![line]
    }
}

// ---- Line shapes ----

/// Unicode white space.
pub open spec fn is_space(c: char) -> bool {
    let v = c as u32;
    ||| 0x9 <= v <= 0xd
    ||| v == 0x20
    ||| v == 0x85
    ||| v == 0xa0
    ||| v == 0x1680
    ||| 0x2000 <= v <= 0x200a
    ||| v == 0x2028
    ||| v == 0x2029
    ||| v == 0x202f
    ||| v == 0x205f
    ||| v == 0x3000
}

/// The line holds white space only.
pub open spec fn is_blank(s: Seq<char>, line: Span) -> bool {
    forall|i: int| line.start <= i < line.end ==> is_space(#[trigger] s[i])
}

/// Position of the first character of the line that is not an ASCII space.
pub open spec fn after_indent(s: Seq<char>, from: int, to: int) -> int
    decreases to - from,
{
    if from < to && s[from] == ' ' {
        after_indent(s, from + 1, to)
    } else {
        from
    }
}

/// At most three spaces, then three backticks.
pub open spec fn is_fence(s: Seq<char>, line: Span) -> bool {
    let at = after_indent(s, line.start, line.end);
    &&& at - line.start <= 3
    &&& at + 3 <= line.end
    &&& s[at] == '`'
    &&& s[at + 1] == '`'
    &&& s[at + 2] == '`'
}

/// First position in `from..to` that is no white space, or `to`.
pub open spec fn after_space(s: Seq<char>, from: int, to: int) -> int
    decreases to - from,
{
    if from < to && is_space(s[from]) {
        after_space(s, from + 1, to)
    } else {
        from
    }
}

/// End of `from..to` without its trailing white space.
pub open spec fn before_space(s: Seq<char>, from: int, to: int) -> int
    decreases to - from,
{
    if from < to && is_space(s[to - 1]) {
        before_space(s, from, to - 1)
    } else {
        to
    }
}

/// Between its surrounding white space the line is three or more backticks and
/// nothing else.
pub open spec fn is_closing_fence(s: Seq<char>, line: Span) -> bool {
    let a = after_space(s, line.start, line.end);
    let b = before_space(s, line.start, line.end);
    &&& b - a >= 3
    &&& forall|i: int| a <= i < b ==> #[trigger] s[i] == '`'
}

/// Where the quoted text starts: after at most three spaces, `>` and one optional space.
pub open spec fn quote_start(s: Seq<char>, line: Span) -> Option<int> {
    let at = after_indent(s, line.start, line.end);
    if at - line.start <= 3 && at < line.end && s[at] == '>' {
        if at + 1 < line.end && s[at + 1] == ' ' {
            Some(at + 2)
        } else {
            Some(at + 1)
        }
    } else {
        None
    }
}

/// An ASCII digit.
pub open spec fn is_digit(c: char) -> bool {
    '0' <= c <= '9'
}

/// Value of an ASCII digit.
pub open spec fn digit_value(c: char) -> int {
    c as int - '0' as int
}

/// First position at or after `from` that is no ASCII digit.
pub open spec fn after_digits(s: Seq<char>, from: int, to: int) -> int
    decreases to - from,
{
    if from < to && is_digit(s[from]) {
        after_digits(s, from + 1, to)
    } else {
        from
    }
}

/// The decimal number written in `from..to`.
pub open spec fn number_in(s: Seq<char>, from: int, to: int) -> int
    decreases to - from,
{
    if from >= to {
        0
    } else {
        number_in(s, from, to - 1) * 10 + digit_value(s[to - 1])
    }
}

/// A recognised list item.
pub struct ListItem {
    /// Ordered or unordered.
    pub kind: TextFormatBlockKind,
    /// Two spaces of indentation are one level.
    pub depth: int,
    /// The written number, or zero.
    pub ordinal: int,
    /// Where the item's text starts.
    pub start: int,
}

/// A list item: indentation, then `-`, `*` or `+` and a space, or one to nine digits,
/// a period and a space. Deeper than 255 levels nothing is a list item.
pub open spec fn list_item(s: Seq<char>, line: Span) -> Option<ListItem> {
    let at = after_indent(s, line.start, line.end);
    let depth = (at - line.start) / 2;
    let stop = after_digits(s, at, line.end);
    if depth > 255 {
        None
    } else if at + 2 <= line.end && (s[at] == '-' || s[at] == '*' || s[at] == '+')
        && s[at + 1] == ' ' {
        Some(
            ListItem {
                kind: TextFormatBlockKind::UnorderedListItem,
                depth,
                ordinal: 0,
                start: at + 2,
            },
        )
    } else if 1 <= stop - at <= 9 && stop + 2 <= line.end && s[stop] == '.' && s[stop + 1] == ' ' {
        Some(
            ListItem {
                kind: TextFormatBlockKind::OrderedListItem,
                depth,
                ordinal: number_in(s, at, stop),
                start: stop + 2,
            },
        )
    } else {
        None
    }
}

/// A line that continues a paragraph.
pub open spec fn is_paragraph_line(s: Seq<char>, line: Span) -> bool {
    &&& !is_blank(s, line)
    &&& !is_fence(s, line)
    &&& quote_start(s, line) is None
    &&& list_item(s, line) is None
}

// ---- Inline markup ----

/// A character that can open inline markup.
pub open spec fn is_marker(c: char) -> bool {
    c == '`' || c == '*' || c == '_'
}

/// First marker in `from..to`, or `to`.
pub open spec fn next_marker(s: Seq<char>, from: int, to: int) -> int
    decreases to - from,
{
    if from >= to {
        to
    } else if is_marker(s[from]) {
        from
    } else {
        next_marker(s, from + 1, to)
    }
}

/// End of the stretch of `c` that starts at `from`.
pub open spec fn after_stretch(s: Seq<char>, c: char, from: int, to: int) -> int
    decreases to - from,
{
    if from < to && s[from] == c {
        after_stretch(s, c, from + 1, to)
    } else {
        from
    }
}

/// `width` characters `c` stand at `at`, all before `to`.
pub open spec fn delimiter_at(s: Seq<char>, c: char, width: int, at: int, to: int) -> bool {
    &&& at + width <= to
    &&& forall|k: int| at <= k < at + width ==> #[trigger] s[k] == c
}

/// First position in `from..to` where `width` characters `c` stand, or `to`.
pub open spec fn find_delimiter(s: Seq<char>, c: char, width: int, from: int, to: int) -> int
    decreases to - from,
{
    if from >= to {
        to
    } else if delimiter_at(s, c, width, from, to) {
        from
    } else {
        find_delimiter(s, c, width, from + 1, to)
    }
}

/// One marker is emphasis, two are strong, three are both.
pub open spec fn with_width(styles: StyleSet, width: int) -> StyleSet {
    StyleSet {
        emphasis: styles.emphasis || width == 1 || width == 3,
        strong: styles.strong || width == 2 || width == 3,
        code: styles.code,
        highlight: styles.highlight,
    }
}

/// Number of positions in `lo..hi`.
pub open spec fn extent(lo: int, hi: int) -> int {
    if lo < hi {
        hi - lo
    } else {
        0
    }
}

/// The next marker lies in the searched range, every character before it is no marker.
pub proof fn lemma_next_marker(s: Seq<char>, from: int, to: int)
    requires
        from <= to,
    ensures
        from <= next_marker(s, from, to) <= to,
        forall|i: int| from <= i < next_marker(s, from, to) ==> !is_marker(#[trigger] s[i]),
        next_marker(s, from, to) < to ==> is_marker(s[next_marker(s, from, to)]),
    decreases to - from,
{
    if from < to && !is_marker(s[from]) {
        lemma_next_marker(s, from + 1, to);
    }
}

/// A stretch ends in the searched range and holds only its character.
pub proof fn lemma_after_stretch(s: Seq<char>, c: char, from: int, to: int)
    requires
        from <= to,
    ensures
        from <= after_stretch(s, c, from, to) <= to,
        forall|i: int| from <= i < after_stretch(s, c, from, to) ==> #[trigger] s[i] == c,
        after_stretch(s, c, from, to) < to ==> s[after_stretch(s, c, from, to)] != c,
    decreases to - from,
{
    if from < to && s[from] == c {
        lemma_after_stretch(s, c, from + 1, to);
    }
}

/// `first` before what the rest of the text gives.
pub open spec fn before(
    first: Seq<StyledSpan>,
    rest: Option<Seq<StyledSpan>>,
) -> Option<Seq<StyledSpan>> {
    match rest {
        Some(runs) => Some(first + runs),
        None => None,
    }
}

/// The runs of `lo..hi`, or nothing when the markup is too long or too deep.
///
/// Backticks around at least one character make code. A stretch of one to three `*`
/// or `_` opens emphasis when the same delimiter follows later and the text between
/// is not empty and neither starts nor ends with white space. Markers that open
/// nothing are text.
pub open spec fn inline_runs(
    s: Seq<char>,
    lo: int,
    hi: int,
    depth: int,
    styles: StyleSet,
) -> Option<Seq<StyledSpan>>
    decreases MAX_FORMAT_INLINE_DEPTH - depth, extent(lo, hi),
{
    if lo >= hi {
        Some(Seq::empty())
    } else if !is_marker(s[lo]) {
        let stop = next_marker(s, lo, hi);
        proof {
            lemma_next_marker(s, lo + 1, hi);
        }
        before(
            seq![StyledSpan { start: lo, end: stop, styles }],
            inline_runs(s, stop, hi, depth, styles),
        )
    } else if s[lo] == '`' {
        let stop = first_of(s, '`', lo + 1, hi);
        if lo + 1 < stop < hi {
            before(
                seq![
                    StyledSpan {
                        start: lo + 1,
                        end: stop,
                        styles: StyleSet { code: true, ..styles },
                    },
                ],
                inline_runs(s, stop + 1, hi, depth, styles),
            )
        } else {
            before(
                seq![StyledSpan { start: lo, end: lo + 1, styles }],
                inline_runs(s, lo + 1, hi, depth, styles),
            )
        }
    } else {
        let width = after_stretch(s, s[lo], lo, hi) - lo;
        let inner = lo + width;
        let close = find_delimiter(s, s[lo], width, inner, hi);
        proof {
            lemma_after_stretch(s, s[lo], lo + 1, hi);
        }
        if width > 3 {
            None
        } else if inner < close < hi && !is_space(s[inner]) && !is_space(s[close - 1]) {
            if depth >= MAX_FORMAT_INLINE_DEPTH {
                None
            } else {
                match inline_runs(s, inner, close, depth + 1, with_width(styles, width)) {
                    Some(nested) => before(
                        nested,
                        inline_runs(s, close + width, hi, depth, styles),
                    ),
                    None => None,
                }
            }
        } else {
            before(
                seq![StyledSpan { start: lo, end: inner, styles }],
                inline_runs(s, inner, hi, depth, styles),
            )
        }
    }
}

// ---- Blocks ----

/// First line at or after `from` that closes a code block, or the number of lines.
pub open spec fn closing_line(s: Seq<char>, lines: Seq<Span>, from: int) -> int
    decreases lines.len() - from,
{
    if from < lines.len() && !is_closing_fence(s, lines[from]) {
        closing_line(s, lines, from + 1)
    } else {
        from
    }
}

/// First line at or after `from` that does not continue a paragraph, or the number of
/// lines.
pub open spec fn paragraph_end(s: Seq<char>, lines: Seq<Span>, from: int) -> int
    decreases lines.len() - from,
{
    if from < lines.len() && is_paragraph_line(s, lines[from]) {
        paragraph_end(s, lines, from + 1)
    } else {
        from
    }
}

/// The runs so far, and the line break before `line` unless nothing precedes it.
pub open spec fn with_break(
    runs: Seq<StyledSpan>,
    line: Span,
    styles: StyleSet,
) -> Seq<StyledSpan> {
    if runs.len() == 0 {
        runs
    } else {
        runs.push(StyledSpan { start: line.start - 1, end: line.start, styles })
    }
}

/// The runs so far, and `line` as one run unless it is empty.
pub open spec fn with_line(
    runs: Seq<StyledSpan>,
    line: Span,
    styles: StyleSet,
) -> Seq<StyledSpan> {
    if line.start < line.end {
        runs.push(StyledSpan { start: line.start, end: line.end, styles })
    } else {
        runs
    }
}

/// The first `n` code lines from `from` on, as they stand.
pub open spec fn code_runs(lines: Seq<Span>, from: int, n: int) -> Seq<StyledSpan>
    decreases n,
{
    if n <= 0 {
        Seq::empty()
    } else {
        let line = lines[from + n - 1];
        with_line(
            with_break(code_runs(lines, from, n - 1), line, StyleSet::code_only()),
            line,
            StyleSet::code_only(),
        )
    }
}

/// The inline runs of the first `n` paragraph lines from `from` on, joined by their
/// line breaks.
pub open spec fn paragraph_runs(
    s: Seq<char>,
    lines: Seq<Span>,
    from: int,
    n: int,
) -> Option<Seq<StyledSpan>>
    decreases n,
{
    if n <= 0 {
        Some(Seq::empty())
    } else {
        let line = lines[from + n - 1];
        match paragraph_runs(s, lines, from, n - 1) {
            Some(runs) => before(
                with_break(runs, line, StyleSet::plain()),
                inline_runs(s, line.start, line.end, 0, StyleSet::plain()),
            ),
            None => None,
        }
    }
}

/// `block` before what the rest of the lines gives; nothing when either is missing.
pub open spec fn block_before(
    kind: TextFormatBlockKind,
    depth: int,
    ordinal: int,
    runs: Option<Seq<StyledSpan>>,
    rest: Option<Seq<SpanBlock>>,
) -> Option<Seq<SpanBlock>> {
    match (runs, rest) {
        (Some(runs), Some(rest)) => Some(seq![SpanBlock { kind, depth, ordinal, runs }] + rest),
        _ => None,
    }
}

/// The blocks of the lines from `from` on, or nothing when some line is too complex.
///
/// Blank lines separate blocks. A fence starts a code block that runs to its closing
/// fence or to the end of the text. A quote and a list item are one line each.
/// Everything else joins into paragraphs.
pub open spec fn blocks_from(s: Seq<char>, lines: Seq<Span>, from: int) -> Option<Seq<SpanBlock>>
    decreases extent(from, lines.len() as int),
{
    let plain = StyleSet::plain();
    if from >= lines.len() {
        Some(Seq::empty())
    } else if is_blank(s, lines[from]) {
        blocks_from(s, lines, from + 1)
    } else if is_fence(s, lines[from]) {
        let close = closing_line(s, lines, from + 1);
        proof {
            lemma_closing_line(s, lines, from + 1);
        }
        block_before(
            TextFormatBlockKind::CodeBlock,
            0,
            0,
            Some(code_runs(lines, from + 1, close - from - 1)),
            blocks_from(s, lines, close + 1),
        )
    } else if let Some(start) = quote_start(s, lines[from]) {
        block_before(
            TextFormatBlockKind::Quote,
            0,
            0,
            inline_runs(s, start, lines[from].end, 0, plain),
            blocks_from(s, lines, from + 1),
        )
    } else if let Some(item) = list_item(s, lines[from]) {
        if item.depth > MAX_FORMAT_LIST_DEPTH {
            None
        } else {
            block_before(
                item.kind,
                item.depth,
                item.ordinal,
                inline_runs(s, item.start, lines[from].end, 0, plain),
                blocks_from(s, lines, from + 1),
            )
        }
    } else {
        let end = paragraph_end(s, lines, from);
        proof {
            lemma_paragraph_end(s, lines, from + 1);
        }
        block_before(
            TextFormatBlockKind::Paragraph,
            0,
            0,
            paragraph_runs(s, lines, from, end - from),
            blocks_from(s, lines, end),
        )
    }
}

/// The closing line is one of the lines or their number, and no line before it closes.
pub proof fn lemma_closing_line(s: Seq<char>, lines: Seq<Span>, from: int)
    requires
        from <= lines.len(),
    ensures
        from <= closing_line(s, lines, from) <= lines.len(),
    decreases lines.len() - from,
{
    if from < lines.len() && !is_closing_fence(s, lines[from]) {
        lemma_closing_line(s, lines, from + 1);
    }
}

/// A paragraph ends at one of the lines or their number.
pub proof fn lemma_paragraph_end(s: Seq<char>, lines: Seq<Span>, from: int)
    requires
        from <= lines.len(),
    ensures
        from <= paragraph_end(s, lines, from) <= lines.len(),
    decreases lines.len() - from,
{
    if from < lines.len() && is_paragraph_line(s, lines[from]) {
        lemma_paragraph_end(s, lines, from + 1);
    }
}

// ---- Highlights ----

/// `p..q` lies within one of the highlights.
pub open spec fn is_highlighted(hs: Seq<Span>, p: int, q: int) -> bool {
    exists|i: int| 0 <= i < hs.len() && (#[trigger] hs[i]).start <= p && q <= hs[i].end
}

/// The nearest highlight edge after `p` and before `end` among the first `n`
/// highlights, or `end`.
pub open spec fn next_edge(hs: Seq<Span>, n: int, p: int, end: int) -> int
    decreases n,
{
    if n <= 0 {
        end
    } else {
        let best = next_edge(hs, n - 1, p, end);
        let h = hs[n - 1];
        let best = if p < h.start < best { h.start } else { best };
        if p < h.end < best { h.end } else { best }
    }
}

/// The edge lies after `p` and not after `end`.
pub proof fn lemma_next_edge(hs: Seq<Span>, n: int, p: int, end: int)
    requires
        p < end,
        n <= hs.len(),
    ensures
        p < next_edge(hs, n, p, end) <= end,
        forall|i: int| 0 <= i < n ==> {
            &&& ((#[trigger] hs[i]).start <= p || next_edge(hs, n, p, end) <= hs[i].start)
            &&& (hs[i].end <= p || next_edge(hs, n, p, end) <= hs[i].end)
        },
    decreases n,
{
    if n > 0 {
        lemma_next_edge(hs, n - 1, p, end);
    }
}

/// A run from `p` on, cut at every highlight edge; the pieces inside a highlight gain
/// its style.
pub open spec fn cut_run(hs: Seq<Span>, p: int, run: StyledSpan) -> Seq<StyledSpan>
    decreases extent(p, run.end),
{
    if p >= run.end {
        Seq::empty()
    } else {
        let q = next_edge(hs, hs.len() as int, p, run.end);
        let styles = StyleSet {
            highlight: run.styles.highlight || is_highlighted(hs, p, q),
            ..run.styles
        };
        proof {
            lemma_next_edge(hs, hs.len() as int, p, run.end);
        }
        seq![StyledSpan { start: p, end: q, styles }] + cut_run(hs, q, run)
    }
}

/// The first `n` runs, each cut at the highlight edges.
pub open spec fn cut_runs(hs: Seq<Span>, runs: Seq<StyledSpan>, n: int) -> Seq<StyledSpan>
    decreases n,
{
    if n <= 0 {
        Seq::empty()
    } else {
        cut_runs(hs, runs, n - 1) + cut_run(hs, runs[n - 1].start, runs[n - 1])
    }
}

/// A block with its runs cut at the highlight edges.
pub open spec fn cut_block(hs: Seq<Span>, block: SpanBlock) -> SpanBlock {
    SpanBlock { runs: cut_runs(hs, block.runs, block.runs.len() as int), ..block }
}

/// Every block with its runs cut at the highlight edges.
pub open spec fn cut_blocks(hs: Seq<Span>, blocks: Seq<SpanBlock>) -> Seq<SpanBlock> {
    blocks.map_values(|b: SpanBlock| cut_block(hs, b))
}

// ---- Result ----

/// Runs in the first `n` blocks together.
pub open spec fn run_count(blocks: Seq<SpanBlock>, n: int) -> int
    decreases n,
{
    if n <= 0 {
        0
    } else {
        run_count(blocks, n - 1) + blocks[n - 1].runs.len()
    }
}

/// The text of the first `n` runs, joined.
pub open spec fn runs_text(s: Seq<char>, runs: Seq<StyledSpan>, n: int) -> Seq<char>
    decreases n,
{
    if n <= 0 {
        Seq::empty()
    } else {
        runs_text(s, runs, n - 1) + s.subrange(runs[n - 1].start, runs[n - 1].end)
    }
}

/// Decimal digits of a number.
pub open spec fn decimal(n: nat) -> Seq<char>
    decreases n,
{
    if n < 10 {
        seq![('0' as u32 + n) as char]
    } else {
        decimal(n / 10).push(('0' as u32 + n % 10) as char)
    }
}

/// `n` levels of indentation, two spaces each.
pub open spec fn indentation(n: int) -> Seq<char>
    decreases n,
{
    if n <= 0 {
        Seq::empty()
    } else {
        indentation(n - 1).push(' ').push(' ')
    }
}

/// What precedes the text of a block in the copied text.
pub open spec fn copy_prefix(block: SpanBlock) -> Seq<char> {
    match block.kind {
        TextFormatBlockKind::Paragraph => Seq::empty(),
        TextFormatBlockKind::CodeBlock => Seq::empty(),
        TextFormatBlockKind::Quote => seq!['>', ' '],
        TextFormatBlockKind::UnorderedListItem => indentation(block.depth) + seq!['\u{2022}', ' '],
        TextFormatBlockKind::OrderedListItem => indentation(block.depth) + decimal(
            block.ordinal as nat,
        ) + seq!['.', ' '],
    }
}

/// The copied text of the first `n` blocks, one block per line.
pub open spec fn copied(s: Seq<char>, blocks: Seq<SpanBlock>, n: int) -> Seq<char>
    decreases n,
{
    if n <= 0 {
        Seq::empty()
    } else {
        let block = blocks[n - 1];
        let text = copy_prefix(block) + runs_text(s, block.runs, block.runs.len() as int);
        if n == 1 {
            text
        } else {
            copied(s, blocks, n - 1).push('\n') + text
        }
    }
}

/// A run as it is shown.
pub open spec fn shown_run(s: Seq<char>, run: StyledSpan) -> RunView {
    RunView { text: s.subrange(run.start, run.end), styles: run.styles.tokens() }
}

/// A block as it is shown.
pub open spec fn shown_block(s: Seq<char>, block: SpanBlock) -> BlockView {
    BlockView {
        kind: block.kind,
        depth: block.depth,
        ordinal: block.ordinal,
        runs: block.runs.map_values(|r: StyledSpan| shown_run(s, r)),
    }
}

/// A plain or highlighted part of the source.
pub open spec fn literal_run(s: Seq<char>, start: int, end: int, highlight: bool) -> RunView {
    shown_run(
        s,
        StyledSpan { start, end, styles: StyleSet { highlight, ..StyleSet::plain() } },
    )
}

/// The source up to the end of the `n`-th highlight, cut at the highlight edges.
pub open spec fn literal_runs(s: Seq<char>, hs: Seq<Span>, n: int) -> Seq<RunView>
    decreases n,
{
    if n <= 0 {
        Seq::empty()
    } else {
        let from = if n == 1 { 0 } else { hs[n - 2].end };
        let h = hs[n - 1];
        let runs = literal_runs(s, hs, n - 1);
        let runs = if from < h.start { runs.push(literal_run(s, from, h.start, false)) } else { runs };
        runs.push(literal_run(s, h.start, h.end, true))
    }
}

/// The source as one literal paragraph that keeps only the highlights.
pub open spec fn literal(s: Seq<char>, hs: Seq<Span>) -> FormattedView {
    let from = if hs.len() == 0 { 0 } else { hs.last().end };
    let runs = literal_runs(s, hs, hs.len() as int);
    FormattedView {
        source: s,
        plain_text: s,
        blocks: seq![
            BlockView {
                kind: TextFormatBlockKind::Paragraph,
                depth: 0,
                ordinal: 0,
                runs: if from < s.len() || runs.len() == 0 {
                    runs.push(literal_run(s, from, s.len() as int, false))
                } else {
                    runs
                },
            },
        ],
        used_fallback: true,
    }
}

/// The formatted form of a text: its blocks with the highlights laid over them, or the
/// literal text when the markup is too complex or the result too large.
pub open spec fn formatted(s: Seq<char>, highlights: Seq<TextFormatHighlight>) -> FormattedView {
    let hs = highlight_spans(s, highlights);
    match blocks_from(s, lines_from(s, 0), 0) {
        Some(parsed) => {
            let blocks = cut_blocks(hs, parsed);
            if blocks.len() > MAX_FORMAT_BLOCKS || run_count(blocks, blocks.len() as int)
                > MAX_FORMAT_RUNS {
                literal(s, hs)
            } else {
                FormattedView {
                    source: s,
                    plain_text: copied(s, blocks, blocks.len() as int),
                    blocks: blocks.map_values(|b: SpanBlock| shown_block(s, b)),
                    used_fallback: false,
                }
            }
        },
        None => literal(s, hs),
    }
}

/// The text and its highlights are acceptable.
pub open spec fn acceptable(s: Seq<char>, highlights: Seq<TextFormatHighlight>) -> bool {
    byte_len(s) <= MAX_FORMAT_SOURCE_BYTES && valid_highlights(s, highlights)
}

} // verus!
