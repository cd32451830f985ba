//! Bounded, render-safe local formatting for authenticated message text.
//!
//! The source remains the stored and transmitted value. This module produces a
//! small display model made only of text, block roles and inert style tokens; it
//! never interprets HTML, links, images, URLs or executable content.

use vstd::prelude::*;

use crate::error::{NodeError, Result};
use crate::text_grammar::{
    acceptable, after_digits, after_indent, after_space, after_stretch, before, before_space,
    blocks_from, byte_len, byte_offset, closing_line, code_runs, copied, copy_prefix, cut_block,
    cut_blocks, cut_run, cut_runs, decimal, delimiter_at, find_delimiter, first_of, formatted,
    highlight_ok, highlight_spans, indentation, inline_runs, is_blank, is_boundary,
    is_closing_fence, is_digit, is_fence, is_highlighted, is_marker, is_paragraph_line, is_space,
    lines_from, list_item, literal, literal_runs, next_edge, next_marker, number_in, paragraph_end,
    paragraph_runs, position_at, quote_start, run_count, runs_text, shown_block, shown_run,
    utf8_len, valid_highlights, with_break, with_line, with_width, BlockView, FormattedView,
    ListItem, RunView, Span, SpanBlock, StyleSet, StyledSpan,
};

verus! {

/// Maximum source size accepted by the local formatter.
pub const MAX_FORMAT_SOURCE_BYTES: usize = 65_536;

/// Maximum blocks emitted for one formatted message.
pub const MAX_FORMAT_BLOCKS: usize = 1_024;

/// Maximum styled runs emitted for one formatted message.
pub const MAX_FORMAT_RUNS: usize = 4_096;

/// Maximum supported nested inline delimiter depth.
pub const MAX_FORMAT_INLINE_DEPTH: usize = 4;

/// Maximum supported list indentation depth.
pub const MAX_FORMAT_LIST_DEPTH: u8 = 4;

/// Maximum inert highlight ranges accepted from an existing semantic layer.
pub const MAX_FORMAT_HIGHLIGHTS: usize = 64;

/// One inert inline presentation token.
#[derive(Clone, Copy, Debug, PartialEq, Eq, PartialOrd, Ord, Structural)]
pub enum TextFormatStyle {
    /// Emphasized text.
    Emphasis,
    /// Strongly emphasized text.
    Strong,
    /// Inline monospace code.
    InlineCode,
    /// Existing semantic content, such as an authenticated mention span.
    Highlight,
}

/// One render-safe block role.
#[derive(Clone, Copy, Debug, PartialEq, Eq, Structural)]
pub enum TextFormatBlockKind {
    /// Ordinary text.
    Paragraph,
    /// Quoted text.
    Quote,
    /// One unordered list item.
    UnorderedListItem,
    /// One ordered list item.
    OrderedListItem,
    /// A fenced, inert monospace code block.
    CodeBlock,
}

/// Exact UTF-8 source range that receives an inert highlight style.
#[derive(Clone, Copy, Debug, PartialEq, Eq, Structural)]
pub struct TextFormatHighlight {
    /// Inclusive UTF-8 byte offset in the exact source text.
    pub start: u32,
    /// Exclusive UTF-8 byte offset in the exact source text.
    pub end: u32,
}

/// One text run with a deterministic set of inert styles.
#[derive(Clone, Debug, PartialEq, Eq)]
pub struct FormattedTextRun {
    /// Exact display text; shells must insert it only through native text APIs.
    pub text: String,
    /// Sorted, de-duplicated style tokens.
    pub styles: Vec<TextFormatStyle>,
}

/// One local display block.
#[derive(Clone, Debug, PartialEq, Eq)]
pub struct FormattedTextBlock {
    /// Semantic block role.
    pub kind: TextFormatBlockKind,
    /// Zero-based list indentation; zero for non-list blocks.
    pub depth: u8,
    /// Ordered-list number, or zero for every other block kind.
    pub ordinal: u32,
    /// Display runs in exact order.
    pub runs: Vec<FormattedTextRun>,
}

/// Complete local formatting result.
#[derive(Clone, Debug, PartialEq, Eq)]
pub struct FormattedText {
    /// Exact authenticated and stored source, unchanged.
    pub source: String,
    /// Readable inert text used for copy-as-plain-text across every shell.
    pub plain_text: String,
    /// Bounded render-safe blocks.
    pub blocks: Vec<FormattedTextBlock>,
    /// True when a complexity bound caused literal source rendering.
    pub used_fallback: bool,
}

impl View for FormattedTextRun {
    type V = RunView;

    open spec fn view(&self) -> RunView {
        RunView { text: self.text@, styles: self.styles@ }
    }
}

impl View for FormattedTextBlock {
    type V = BlockView;

    open spec fn view(&self) -> BlockView {
        BlockView {
            kind: self.kind,
            depth: self.depth as int,
            ordinal: self.ordinal as int,
            runs: self.runs@.map_values(|r: FormattedTextRun| r@),
        }
    }
}

impl View for FormattedText {
    type V = FormattedView;

    open spec fn view(&self) -> FormattedView {
        FormattedView {
            source: self.source@,
            plain_text: self.plain_text@,
            blocks: self.blocks@.map_values(|b: FormattedTextBlock| b@),
            used_fallback: self.used_fallback,
        }
    }
}

/// A line of the source.
#[derive(Clone, Copy)]
struct Line {
    start: usize,
    end: usize,
}

/// A part of the source with its styles.
#[derive(Clone, Copy)]
struct SourceRun {
    start: usize,
    end: usize,
    styles: StyleSet,
}

/// A block whose runs are parts of the source.
struct SourceBlock {
    kind: TextFormatBlockKind,
    depth: u8,
    ordinal: u32,
    runs: Vec<SourceRun>,
}

impl View for Line {
    type V = Span;

    closed spec fn view(&self) -> Span {
        Span { start: self.start as int, end: self.end as int }
    }
}

impl View for SourceRun {
    type V = StyledSpan;

    closed spec fn view(&self) -> StyledSpan {
        StyledSpan { start: self.start as int, end: self.end as int, styles: self.styles }
    }
}

/// The runs as ranges.
spec fn spans(runs: Seq<SourceRun>) -> Seq<StyledSpan> {
    runs.map_values(|r: SourceRun| r@)
}

/// The lines as ranges.
spec fn line_spans(lines: Seq<Line>) -> Seq<Span> {
    lines.map_values(|l: Line| l@)
}

impl View for SourceBlock {
    type V = SpanBlock;

    closed spec fn view(&self) -> SpanBlock {
        SpanBlock {
            kind: self.kind,
            depth: self.depth as int,
            ordinal: self.ordinal as int,
            runs: spans(self.runs@),
        }
    }
}

/// The blocks as ranges.
spec fn block_spans(blocks: Seq<SourceBlock>) -> Seq<SpanBlock> {
    blocks.map_values(|b: SourceBlock| b@)
}

/// Every line is a range of the text, and only the first starts at its beginning.
spec fn lines_within(lines: Seq<Line>, len: int) -> bool {
    forall|i: int|
        0 <= i < lines.len() ==> {
            &&& (#[trigger] lines[i]).start <= lines[i].end <= len
            &&& i > 0 ==> lines[i].start > 0
        }
}

/// Every run is a range of the text.
spec fn runs_within(runs: Seq<SourceRun>, len: int) -> bool {
    forall|i: int| 0 <= i < runs.len() ==> (#[trigger] runs[i]).start <= runs[i].end <= len
}

/// Whether a character is Unicode white space.
fn is_whitespace(c: char) -> (res: bool)
    ensures
        res == is_space(c),
{
    let v: u32 = c as u32;
    (0x9 <= v && v <= 0xd) || v == 0x20 || v == 0x85 || v == 0xa0 || v == 0x1680 || (0x2000 <= v
        && v <= 0x200a) || v == 0x2028 || v == 0x2029 || v == 0x202f || v == 0x205f || v == 0x3000
}

/// Position after the leading spaces of a line.
fn skip_indent(s: &Vec<char>, line: Line) -> (at: usize)
    requires
        line.start <= line.end <= s@.len(),
    ensures
        at == after_indent(s@, line.start as int, line.end as int),
        line.start <= at <= line.end,
        forall|i: int| line.start <= i < at ==> #[trigger] s@[i] == ' ',
{
    let mut at: usize = line.start;
    while at < line.end && s[at] == ' '
        invariant
            line.start <= at <= line.end <= s@.len(),
            after_indent(s@, at as int, line.end as int) == after_indent(
                s@,
                line.start as int,
                line.end as int,
            ),
            forall|i: int| line.start <= i < at ==> #[trigger] s@[i] == ' ',
        decreases line.end - at,
    {
        at = at + 1;
    }
    at
}

/// Whether a line holds white space only.
fn line_is_blank(s: &Vec<char>, line: Line) -> (res: bool)
    requires
        line.start <= line.end <= s@.len(),
    ensures
        res == is_blank(s@, line@),
{
    let mut i: usize = line.start;
    while i < line.end
        invariant
            line.start <= i <= line.end <= s@.len(),
            forall|k: int| line.start <= k < i ==> is_space(#[trigger] s@[k]),
        decreases line.end - i,
    {
        if !is_whitespace(s[i]) {
            assert(!is_space(s@[i as int]));
            return false;
        }
        i = i + 1;
    }
    true
}

/// Whether a line opens a code block.
fn is_code_fence(s: &Vec<char>, line: Line) -> (res: bool)
    requires
        line.start <= line.end <= s@.len(),
    ensures
        res == is_fence(s@, line@),
{
    let at: usize = skip_indent(s, line);
    at - line.start <= 3 && line.end - at >= 3 && s[at] == '`' && s[at + 1] == '`' && s[at + 2]
        == '`'
}

/// Whether a line closes a code block.
fn is_closing_code_fence(s: &Vec<char>, line: Line) -> (res: bool)
    requires
        line.start <= line.end <= s@.len(),
    ensures
        res == is_closing_fence(s@, line@),
{
    let mut a: usize = line.start;
    while a < line.end && is_whitespace(s[a])
        invariant
            line.start <= a <= line.end <= s@.len(),
            after_space(s@, a as int, line.end as int) == after_space(
                s@,
                line.start as int,
                line.end as int,
            ),
        decreases line.end - a,
    {
        a = a + 1;
    }
    let mut b: usize = line.end;
    while line.start < b && is_whitespace(s[b - 1])
        invariant
            line.start <= b <= line.end <= s@.len(),
            before_space(s@, line.start as int, b as int) == before_space(
                s@,
                line.start as int,
                line.end as int,
            ),
        decreases b,
    {
        b = b - 1;
    }
    if b < a || b - a < 3 {
        return false;
    }
    let mut i: usize = a;
    while i < b
        invariant
            a <= i <= b <= s@.len(),
            a == after_space(s@, line.start as int, line.end as int),
            b == before_space(s@, line.start as int, line.end as int),
            forall|k: int| a <= k < i ==> #[trigger] s@[k] == '`',
        decreases b - i,
    {
        if s[i] != '`' {
            assert(s@[i as int] != '`');
            return false;
        }
        i = i + 1;
    }
    true
}

/// Where the quoted text of a line starts.
fn quote_content(s: &Vec<char>, line: Line) -> (res: Option<usize>)
    requires
        line.start <= line.end <= s@.len(),
    ensures
        match res {
            Some(at) => quote_start(s@, line@) == Some(at as int) && line.start <= at <= line.end,
            None => quote_start(s@, line@) is None,
        },
{
    let at: usize = skip_indent(s, line);
    if at - line.start <= 3 && at < line.end && s[at] == '>' {
        if line.end - at > 1 && s[at + 1] == ' ' {
            Some(at + 2)
        } else {
            Some(at + 1)
        }
    } else {
        None
    }
}

/// A list item found on a line.
struct Item {
    kind: TextFormatBlockKind,
    depth: u8,
    ordinal: u32,
    start: usize,
}

impl View for Item {
    type V = ListItem;

    closed spec fn view(&self) -> ListItem {
        ListItem {
            kind: self.kind,
            depth: self.depth as int,
            ordinal: self.ordinal as int,
            start: self.start as int,
        }
    }
}

/// The list item on a line.
fn list_content(s: &Vec<char>, line: Line) -> (res: Option<Item>)
    requires
        line.start <= line.end <= s@.len(),
    ensures
        match res {
            Some(item) => list_item(s@, line@) == Some(item@) && line.start <= item.start
                <= line.end,
            None => list_item(s@, line@) is None,
        },
{
    let at: usize = skip_indent(s, line);
    let levels: usize = (at - line.start) / 2;
    if levels > 255 {
        return None;
    }
    let depth: u8 = levels as u8;
    if line.end - at >= 2 && (s[at] == '-' || s[at] == '*' || s[at] == '+') && s[at + 1] == ' ' {
        return Some(
            Item {
                kind: TextFormatBlockKind::UnorderedListItem,
                depth,
                ordinal: 0,
                start: at + 2,
            },
        );
    }
    let mut stop: usize = at;
    let mut ordinal: u32 = 0;
    while stop < line.end && stop - at <= 9 && '0' <= s[stop] && s[stop] <= '9'
        invariant
            at <= stop <= line.end <= s@.len(),
            stop - at <= 10,
            after_digits(s@, stop as int, line.end as int) == after_digits(
                s@,
                at as int,
                line.end as int,
            ),
            stop - at <= 9 ==> ordinal == number_in(s@, at as int, stop as int) && ordinal
                < ten_to((stop - at) as nat),
        decreases line.end - stop,
    {
        let digit: u32 = s[stop] as u32 - '0' as u32;
        if stop - at < 9 {
            assert(ten_to((stop - at + 1) as nat) == 10 * ten_to((stop - at) as nat));
            assert(ten_to(9) == 1_000_000_000) by {
                reveal_with_fuel(ten_to, 10);
            }
            proof {
                lemma_ten_to_monotone((stop - at + 1) as nat, 9);
            }
            ordinal = ordinal * 10 + digit;
        }
        stop = stop + 1;
    }
    proof {
        lemma_after_digits(s@, stop as int, line.end as int);
    }
    if 1 <= stop - at && stop - at <= 9 && line.end - stop >= 2 && s[stop] == '.' && s[stop + 1]
        == ' ' {
        Some(
            Item { kind: TextFormatBlockKind::OrderedListItem, depth, ordinal, start: stop + 2 },
        )
    } else {
        None
    }
}

/// Ten to the power `n`.
spec fn ten_to(n: nat) -> int
    decreases n,
{
    if n == 0 {
        1
    } else {
        10 * ten_to((n - 1) as nat)
    }
}

proof fn lemma_ten_to_monotone(a: nat, b: nat)
    requires
        a <= b,
    ensures
        1 <= ten_to(a) <= ten_to(b),
    decreases b,
{
    if a < b {
        lemma_ten_to_monotone(a, (b - 1) as nat);
    } else if b > 0 {
        lemma_ten_to_monotone((a - 1) as nat, (b - 1) as nat);
    }
}

proof fn lemma_after_digits(s: Seq<char>, from: int, to: int)
    requires
        from <= to,
    ensures
        from <= after_digits(s, from, to) <= to,
        from < to && is_digit(s[from]) ==> after_digits(s, from, to) > from,
    decreases to - from,
{
    if from < to && is_digit(s[from]) {
        lemma_after_digits(s, from + 1, to);
    }
}

/// Add a run unless it is empty.
fn push_run(runs: &mut Vec<SourceRun>, start: usize, end: usize, styles: StyleSet)
    ensures
        spans(final(runs)@) == with_line(
            spans(old(runs)@),
            (Span { start: start as int, end: end as int }),
            styles,
        ),
        forall|len: int| #[trigger]
            runs_within(old(runs)@, len) && end <= len ==> runs_within(final(runs)@, len),
{
    if start < end {
        let run = SourceRun { start, end, styles };
        let ghost before_runs = runs@;
        runs.push(run);
        assert(spans(runs@) =~= spans(before_runs).push(run@));
    }
}

/// First position in `from..to` that holds `c`, or `to`.
fn find_char(s: &Vec<char>, c: char, from: usize, to: usize) -> (at: usize)
    requires
        from <= to <= s@.len(),
    ensures
        at == first_of(s@, c, from as int, to as int),
        from <= at <= to,
        forall|i: int| from <= i < at ==> #[trigger] s@[i] != c,
{
    let mut at: usize = from;
    while at < to && s[at] != c
        invariant
            from <= at <= to <= s@.len(),
            first_of(s@, c, at as int, to as int) == first_of(s@, c, from as int, to as int),
            forall|i: int| from <= i < at ==> #[trigger] s@[i] != c,
        decreases to - at,
    {
        at = at + 1;
    }
    at
}

/// First position in `from..to` where `width` characters `c` stand, or `to`.
fn find_stretch(s: &Vec<char>, c: char, width: usize, from: usize, to: usize) -> (at: usize)
    requires
        from <= to <= s@.len(),
        1 <= width <= 3,
    ensures
        at == find_delimiter(s@, c, width as int, from as int, to as int),
        from <= at <= to,
        at < to ==> at + width <= to,
{
    let mut at: usize = from;
    while at < to
        invariant
            from <= at <= to <= s@.len(),
            1 <= width <= 3,
            find_delimiter(s@, c, width as int, at as int, to as int) == find_delimiter(
                s@,
                c,
                width as int,
                from as int,
                to as int,
            ),
        decreases to - at,
    {
        if to - at >= width {
            let mut k: usize = at;
            while k < at + width && s[k] == c
                invariant
                    at <= k <= at + width <= to <= s@.len(),
                    forall|i: int| at <= i < k ==> #[trigger] s@[i] == c,
                decreases at + width - k,
            {
                k = k + 1;
            }
            if k == at + width {
                assert(delimiter_at(s@, c, width as int, at as int, to as int));
                return at;
            }
            assert(s@[k as int] != c);
        }
        assert(!delimiter_at(s@, c, width as int, at as int, to as int));
        at = at + 1;
    }
    at
}

/// Append the runs of `lo..hi`; `false` when the markup is too long or too deep.
fn parse_inline(
    s: &Vec<char>,
    lo: usize,
    hi: usize,
    depth: usize,
    styles: StyleSet,
    runs: &mut Vec<SourceRun>,
) -> (res: bool)
    requires
        lo <= hi <= s@.len(),
        depth <= MAX_FORMAT_INLINE_DEPTH,
        runs_within(old(runs)@, s@.len() as int),
    ensures
        runs_within(final(runs)@, s@.len() as int),
        match inline_runs(s@, lo as int, hi as int, depth as int, styles) {
            Some(more) => res && spans(final(runs)@) == spans(old(runs)@) + more,
            None => !res,
        },
    decreases MAX_FORMAT_INLINE_DEPTH - depth,
{
    let ghost first = spans(runs@);
    let ghost whole = before(first, inline_runs(s@, lo as int, hi as int, depth as int, styles));
    let ghost len = s@.len() as int;
    let mut cursor: usize = lo;
    while cursor < hi
        invariant
            lo <= cursor <= hi <= s@.len(),
            depth <= MAX_FORMAT_INLINE_DEPTH,
            len == s@.len(),
            runs_within(runs@, len),
            whole == before(first, inline_runs(s@, lo as int, hi as int, depth as int, styles)),
            before(
                spans(runs@),
                inline_runs(s@, cursor as int, hi as int, depth as int, styles),
            ) == whole,
        decreases hi - cursor,
    {
        let ghost done = spans(runs@);
        let marker = s[cursor];
        if marker != '`' && marker != '*' && marker != '_' {
            let mut stop: usize = cursor;
            while stop < hi && s[stop] != '`' && s[stop] != '*' && s[stop] != '_'
                invariant
                    cursor <= stop <= hi <= s@.len(),
                    cursor < hi,
                    !is_marker(s@[cursor as int]),
                    next_marker(s@, stop as int, hi as int) == next_marker(
                        s@,
                        cursor as int,
                        hi as int,
                    ),
                decreases hi - stop,
            {
                stop = stop + 1;
            }
            assert(stop > cursor);
            push_run(runs, cursor, stop, styles);
            assert(spans(runs@) =~= done + seq![
                StyledSpan { start: cursor as int, end: stop as int, styles },
            ]);
            proof {
                lemma_before_add(
                    done,
                    seq![StyledSpan { start: cursor as int, end: stop as int, styles }],
                    inline_runs(s@, stop as int, hi as int, depth as int, styles),
                );
            }
            cursor = stop;
        } else if marker == '`' {
            let stop: usize = find_char(s, '`', cursor + 1, hi);
            if cursor + 1 < stop && stop < hi {
                let coded = StyleSet {
                    emphasis: styles.emphasis,
                    strong: styles.strong,
                    code: true,
                    highlight: styles.highlight,
                };
                push_run(runs, cursor + 1, stop, coded);
                let ghost piece = StyledSpan {
                    start: cursor + 1,
                    end: stop as int,
                    styles: coded,
                };
                assert(spans(runs@) =~= done + seq![piece]);
                proof {
                    lemma_before_add(
                        done,
                        seq![piece],
                        inline_runs(s@, stop + 1, hi as int, depth as int, styles),
                    );
                }
                cursor = stop + 1;
            } else {
                push_run(runs, cursor, cursor + 1, styles);
                let ghost piece = StyledSpan { start: cursor as int, end: cursor + 1, styles };
                assert(spans(runs@) =~= done + seq![piece]);
                proof {
                    lemma_before_add(
                        done,
                        seq![piece],
                        inline_runs(s@, cursor + 1, hi as int, depth as int, styles),
                    );
                }
                cursor = cursor + 1;
            }
        } else {
            let mut inner: usize = cursor;
            while inner < hi && s[inner] == marker
                invariant
                    cursor <= inner <= hi <= s@.len(),
                    cursor < hi,
                    s@[cursor as int] == marker,
                    after_stretch(s@, marker, inner as int, hi as int) == after_stretch(
                        s@,
                        marker,
                        cursor as int,
                        hi as int,
                    ),
                decreases hi - inner,
            {
                inner = inner + 1;
            }
            assert(inner > cursor);
            let width: usize = inner - cursor;
            if width > 3 {
                return false;
            }
            let close: usize = find_stretch(s, marker, width, inner, hi);
            if inner < close && close < hi && !is_whitespace(s[inner]) && !is_whitespace(
                s[close - 1],
            ) {
                if depth >= MAX_FORMAT_INLINE_DEPTH {
                    return false;
                }
                let nested = StyleSet {
                    emphasis: styles.emphasis || width == 1 || width == 3,
                    strong: styles.strong || width == 2 || width == 3,
                    code: styles.code,
                    highlight: styles.highlight,
                };
                assert(nested == with_width(styles, width as int));
                if !parse_inline(s, inner, close, depth + 1, nested, runs) {
                    return false;
                }
                proof {
                    lemma_before_add(
                        done,
                        inline_runs(s@, inner as int, close as int, depth + 1, nested)->0,
                        inline_runs(s@, close + width, hi as int, depth as int, styles),
                    );
                }
                cursor = close + width;
            } else {
                push_run(runs, cursor, inner, styles);
                let ghost piece = StyledSpan { start: cursor as int, end: inner as int, styles };
                assert(spans(runs@) =~= done + seq![piece]);
                proof {
                    lemma_before_add(
                        done,
                        seq![piece],
                        inline_runs(s@, inner as int, hi as int, depth as int, styles),
                    );
                }
                cursor = inner;
            }
        }
    }
    assert(spans(runs@) + Seq::<StyledSpan>::empty() =~= spans(runs@));
    true
}

proof fn lemma_before_add(
    first: Seq<StyledSpan>,
    second: Seq<StyledSpan>,
    rest: Option<Seq<StyledSpan>>,
)
    ensures
        before(first, before(second, rest)) == before(first + second, rest),
{
    if let Some(more) = rest {
        assert(first + (second + more) =~= (first + second) + more);
    }
}

/// The lines of the source.
fn source_lines(s: &Vec<char>) -> (lines: Vec<Line>)
    ensures
        line_spans(lines@) == lines_from(s@, 0),
        lines_within(lines@, s@.len() as int),
{
    let mut lines: Vec<Line> = Vec::new();
    let mut start: usize = 0;
    let mut open = true;
    assert(line_spans(lines@) + lines_from(s@, 0) =~= lines_from(s@, 0));
    while open
        invariant
            start <= s@.len(),
            open && lines@.len() > 0 ==> start > 0,
            lines_within(lines@, s@.len() as int),
            open ==> line_spans(lines@) + lines_from(s@, start as int) == lines_from(s@, 0),
            !open ==> line_spans(lines@) == lines_from(s@, 0),
        decreases s@.len() - start, open as int,
    {
        let stop: usize = find_char(s, '\n', start, s.len());
        let end: usize = if start < stop && s[stop - 1] == '\r' { stop - 1 } else { stop };
        let line = Line { start, end };
        let ghost done = line_spans(lines@);
        lines.push(line);
        assert(line_spans(lines@) =~= done.push(line@));
        if stop < s.len() {
            assert(done + lines_from(s@, start as int) =~= done.push(line@) + lines_from(
                s@,
                stop + 1,
            ));
            start = stop + 1;
        } else {
            assert(done + lines_from(s@, start as int) =~= done.push(line@));
            start = stop;
            open = false;
        }
    }
    lines
}

/// Whether a line continues a paragraph.
fn continues_paragraph(s: &Vec<char>, line: Line) -> (res: bool)
    requires
        line.start <= line.end <= s@.len(),
    ensures
        res == is_paragraph_line(s@, line@),
{
    !line_is_blank(s, line) && !is_code_fence(s, line) && quote_content(s, line).is_none()
        && list_content(s, line).is_none()
}

/// The runs of a code block whose first line is `from`, and the line that ends it.
fn parse_code(s: &Vec<char>, lines: &Vec<Line>, from: usize) -> (res: (Vec<SourceRun>, usize))
    requires
        1 <= from <= lines@.len(),
        lines_within(lines@, s@.len() as int),
    ensures
        res.1 == closing_line(s@, line_spans(lines@), from as int),
        from <= res.1 <= lines@.len(),
        spans(res.0@) == code_runs(line_spans(lines@), from as int, res.1 - from),
        runs_within(res.0@, s@.len() as int),
{
    let code = StyleSet { emphasis: false, strong: false, code: true, highlight: false };
    let ghost all = line_spans(lines@);
    let mut runs: Vec<SourceRun> = Vec::new();
    let mut index: usize = from;
    assert(spans(runs@) =~= Seq::<StyledSpan>::empty());
    while index < lines.len() && !is_closing_code_fence(s, lines[index])
        invariant
            1 <= from <= index <= lines@.len(),
            all == line_spans(lines@),
            code == StyleSet::code_only(),
            lines_within(lines@, s@.len() as int),
            runs_within(runs@, s@.len() as int),
            closing_line(s@, all, index as int) == closing_line(s@, all, from as int),
            spans(runs@) == code_runs(all, from as int, index - from),
        decreases lines@.len() - index,
    {
        let line = lines[index];
        assert(all[index as int] == line@);
        if runs.len() > 0 {
            push_run(&mut runs, line.start - 1, line.start, code);
        }
        push_run(&mut runs, line.start, line.end, code);
        index = index + 1;
    }
    proof {
        if index < lines@.len() {
            assert(all[index as int] == lines@[index as int]@);
        }
    }
    (runs, index)
}

/// The runs of the paragraph that starts at line `from`, and the line that ends it;
/// nothing when its markup is too complex.
fn parse_paragraph(s: &Vec<char>, lines: &Vec<Line>, from: usize) -> (res: Option<
    (Vec<SourceRun>, usize),
>)
    requires
        from < lines@.len(),
        lines_within(lines@, s@.len() as int),
        is_paragraph_line(s@, lines@[from as int]@),
    ensures
        ({
            let all = line_spans(lines@);
            let end = paragraph_end(s@, all, from as int);
            match res {
                Some((runs, stop)) => {
                    &&& stop == end
                    &&& from < stop <= lines@.len()
                    &&& paragraph_runs(s@, all, from as int, end - from) == Some(spans(runs@))
                    &&& runs_within(runs@, s@.len() as int)
                },
                None => paragraph_runs(s@, all, from as int, end - from) is None,
            }
        }),
{
    let plain = StyleSet { emphasis: false, strong: false, code: false, highlight: false };
    let ghost all = line_spans(lines@);
    let ghost end = paragraph_end(s@, all, from as int);
    let mut runs: Vec<SourceRun> = Vec::new();
    let mut index: usize = from;
    assert(spans(runs@) =~= Seq::<StyledSpan>::empty());
    assert(all[from as int] == lines@[from as int]@);
    while index < lines.len() && continues_paragraph(s, lines[index])
        invariant
            from <= index <= lines@.len(),
            from < lines@.len(),
            is_paragraph_line(s@, lines@[from as int]@),
            all == line_spans(lines@),
            plain == StyleSet::plain(),
            end == paragraph_end(s@, all, from as int),
            lines_within(lines@, s@.len() as int),
            runs_within(runs@, s@.len() as int),
            index == from ==> runs@.len() == 0,
            paragraph_end(s@, all, index as int) == end,
            paragraph_runs(s@, all, from as int, index - from) == Some(spans(runs@)),
        decreases lines@.len() - index,
    {
        let line = lines[index];
        assert(all[index as int] == line@);
        let ghost done = spans(runs@);
        if runs.len() > 0 {
            push_run(&mut runs, line.start - 1, line.start, plain);
        }
        assert(spans(runs@) == with_break(done, line@, plain));
        let ok = parse_inline(s, line.start, line.end, 0, plain, &mut runs);
        if !ok {
            proof {
                lemma_paragraph_end_after(s@, all, from as int, index as int);
                lemma_paragraph_stuck(s@, all, from as int, index + 1 - from, end - from);
            }
            return None;
        }
        index = index + 1;
    }
    proof {
        if index < lines@.len() {
            assert(all[index as int] == lines@[index as int]@);
        }
    }
    Some((runs, index))
}

/// A paragraph that reaches past `index` ends after it.
proof fn lemma_paragraph_end_after(s: Seq<char>, lines: Seq<Span>, from: int, index: int)
    requires
        0 <= from <= index < lines.len(),
        paragraph_end(s, lines, index) == paragraph_end(s, lines, from),
        is_paragraph_line(s, lines[index]),
    ensures
        paragraph_end(s, lines, from) >= index + 1,
{
    crate::text_grammar::lemma_paragraph_end(s, lines, index + 1);
}

/// Lines that are too complex stay so with more lines behind them.
proof fn lemma_paragraph_stuck(s: Seq<char>, lines: Seq<Span>, from: int, n: int, m: int)
    requires
        n <= m,
        paragraph_runs(s, lines, from, n) is None,
    ensures
        paragraph_runs(s, lines, from, m) is None,
    decreases m,
{
    if n < m {
        lemma_paragraph_stuck(s, lines, from, n, m - 1);
    }
}

/// Every run of every block is a range of the text.
spec fn blocks_within(blocks: Seq<SourceBlock>, len: int) -> bool {
    forall|i: int| 0 <= i < blocks.len() ==> runs_within((#[trigger] blocks[i]).runs@, len)
}

/// What all lines give, when `blocks` is what the lines before `index` gave.
spec fn with_rest(
    s: Seq<char>,
    lines: Seq<Span>,
    blocks: Seq<SourceBlock>,
    index: int,
) -> Option<Seq<SpanBlock>> {
    match blocks_from(s, lines, index) {
        Some(rest) => Some(block_spans(blocks) + rest),
        None => None,
    }
}

/// Adding the next block leaves the whole as it is.
proof fn lemma_push_block(
    s: Seq<char>,
    lines: Seq<Span>,
    blocks: Seq<SourceBlock>,
    block: SourceBlock,
    index: int,
    next: int,
)
    requires
        blocks_from(s, lines, index) == (match blocks_from(s, lines, next) {
            Some(rest) => Some(seq![block@] + rest),
            None => None,
        }),
    ensures
        with_rest(s, lines, blocks.push(block), next) == with_rest(s, lines, blocks, index),
{
    if let Some(rest) = blocks_from(s, lines, next) {
        assert(block_spans(blocks.push(block)) + rest =~= block_spans(blocks) + (seq![block@]
            + rest));
    }
}

/// The blocks of the source; nothing when some line is too complex.
fn parse_blocks(s: &Vec<char>, lines: &Vec<Line>) -> (res: Option<Vec<SourceBlock>>)
    requires
        lines_within(lines@, s@.len() as int),
    ensures
        match res {
            Some(blocks) => {
                &&& blocks_from(s@, line_spans(lines@), 0) == Some(block_spans(blocks@))
                &&& blocks_within(blocks@, s@.len() as int)
            },
            None => blocks_from(s@, line_spans(lines@), 0) is None,
        },
{
    let plain = StyleSet { emphasis: false, strong: false, code: false, highlight: false };
    let ghost all = line_spans(lines@);
    let ghost len = s@.len() as int;
    let mut blocks: Vec<SourceBlock> = Vec::new();
    let mut index: usize = 0;
    proof {
        if let Some(rest) = blocks_from(s@, all, 0) {
            assert(block_spans(blocks@) + rest =~= rest);
        }
    }
    while index < lines.len()
        invariant
            index <= lines@.len(),
            all == line_spans(lines@),
            plain == StyleSet::plain(),
            len == s@.len(),
            lines_within(lines@, len),
            blocks_within(blocks@, len),
            with_rest(s@, all, blocks@, index as int) == blocks_from(s@, all, 0),
        decreases lines@.len() - index,
    {
        let line = lines[index];
        assert(all[index as int] == line@);
        let ghost done = blocks@;
        let ghost at = index as int;
        if line_is_blank(s, line) {
            index = index + 1;
        } else if is_code_fence(s, line) {
            let (runs, close) = parse_code(s, lines, index + 1);
            let block = SourceBlock {
                kind: TextFormatBlockKind::CodeBlock,
                depth: 0,
                ordinal: 0,
                runs,
            };
            proof {
                lemma_push_block(s@, all, done, block, at, close + 1);
            }
            blocks.push(block);
            if close < lines.len() {
                index = close + 1;
            } else {
                index = close;
                assert(blocks_from(s@, all, close + 1) == blocks_from(s@, all, close as int));
            }
        } else if let Some(start) = quote_content(s, line) {
            let mut runs: Vec<SourceRun> = Vec::new();
            assert(spans(runs@) =~= Seq::<StyledSpan>::empty());
            if !parse_inline(s, start, line.end, 0, plain, &mut runs) {
                return None;
            }
            let block = SourceBlock {
                kind: TextFormatBlockKind::Quote,
                depth: 0,
                ordinal: 0,
                runs,
            };
            proof {
                let more = inline_runs(s@, start as int, line.end as int, 0, plain)->0;
                assert(Seq::<StyledSpan>::empty() + more =~= more);
                lemma_push_block(s@, all, done, block, at, at + 1);
            }
            blocks.push(block);
            index = index + 1;
        } else if let Some(item) = list_content(s, line) {
            if item.depth > MAX_FORMAT_LIST_DEPTH {
                return None;
            }
            let mut runs: Vec<SourceRun> = Vec::new();
            assert(spans(runs@) =~= Seq::<StyledSpan>::empty());
            if !parse_inline(s, item.start, line.end, 0, plain, &mut runs) {
                return None;
            }
            let block = SourceBlock {
                kind: item.kind,
                depth: item.depth,
                ordinal: item.ordinal,
                runs,
            };
            proof {
                let more = inline_runs(s@, item.start as int, line.end as int, 0, plain)->0;
                assert(Seq::<StyledSpan>::empty() + more =~= more);
                lemma_push_block(s@, all, done, block, at, at + 1);
            }
            blocks.push(block);
            index = index + 1;
        } else {
            match parse_paragraph(s, lines, index) {
                Some((runs, stop)) => {
                    let block = SourceBlock {
                        kind: TextFormatBlockKind::Paragraph,
                        depth: 0,
                        ordinal: 0,
                        runs,
                    };
                    proof {
                        lemma_push_block(s@, all, done, block, at, stop as int);
                    }
                    blocks.push(block);
                    index = stop;
                },
                None => {
                    return None;
                },
            }
        }
    }
    assert(block_spans(blocks@) + Seq::<SpanBlock>::empty() =~= block_spans(blocks@));
    Some(blocks)
}

/// `p..q` lies within one of the highlights.
fn within_highlight(hs: &Vec<Line>, p: usize, q: usize) -> (res: bool)
    ensures
        res == is_highlighted(line_spans(hs@), p as int, q as int),
{
    let ghost all = line_spans(hs@);
    let mut i: usize = 0;
    while i < hs.len()
        invariant
            i <= hs@.len(),
            all == line_spans(hs@),
            forall|k: int|
                0 <= k < i ==> !((#[trigger] all[k]).start <= p && q <= all[k].end),
        decreases hs@.len() - i,
    {
        assert(all[i as int] == hs@[i as int]@);
        if hs[i].start <= p && q <= hs[i].end {
            return true;
        }
        i = i + 1;
    }
    false
}

/// Append one run, cut at the highlight edges.
fn split_run(hs: &Vec<Line>, run: SourceRun, rendered: &mut Vec<SourceRun>)
    ensures
        spans(final(rendered)@) == spans(old(rendered)@) + cut_run(
            line_spans(hs@),
            run.start as int,
            run@,
        ),
        forall|len: int| #[trigger]
            runs_within(old(rendered)@, len) && run.end <= len ==> runs_within(
                final(rendered)@,
                len,
            ),
{
    let ghost all = line_spans(hs@);
    let ghost first = spans(rendered@);
    let mut p: usize = run.start;
    assert(first + cut_run(all, p as int, run@) == spans(rendered@) + cut_run(
        all,
        run.start as int,
        run@,
    ));
    while p < run.end
        invariant
            all == line_spans(hs@),
            first + cut_run(all, run.start as int, run@) == spans(rendered@) + cut_run(
                all,
                p as int,
                run@,
            ),
            forall|len: int| #[trigger]
                runs_within(old(rendered)@, len) && run.end <= len ==> runs_within(rendered@, len),
        decreases run.end - p,
    {
        let mut q: usize = run.end;
        let mut i: usize = 0;
        while i < hs.len()
            invariant
                i <= hs@.len(),
                all == line_spans(hs@),
                p < q <= run.end,
                q == next_edge(all, i as int, p as int, run.end as int),
            decreases hs@.len() - i,
        {
            assert(all[i as int] == hs@[i as int]@);
            if p < hs[i].start && hs[i].start < q {
                q = hs[i].start;
            }
            if p < hs[i].end && hs[i].end < q {
                q = hs[i].end;
            }
            i = i + 1;
        }
        let styles = StyleSet {
            emphasis: run.styles.emphasis,
            strong: run.styles.strong,
            code: run.styles.code,
            highlight: run.styles.highlight || within_highlight(hs, p, q),
        };
        let ghost done = spans(rendered@);
        let ghost piece = StyledSpan { start: p as int, end: q as int, styles };
        push_run(rendered, p, q, styles);
        assert(spans(rendered@) =~= done.push(piece));
        assert(cut_run(all, p as int, run@) == seq![piece] + cut_run(all, q as int, run@));
        assert(done + (seq![piece] + cut_run(all, q as int, run@)) =~= done.push(piece) + cut_run(
            all,
            q as int,
            run@,
        ));
        p = q;
    }
    assert(spans(rendered@) + Seq::<StyledSpan>::empty() =~= spans(rendered@));
}

/// Cut the runs of every block at the highlight edges.
fn apply_highlights(blocks: Vec<SourceBlock>, hs: &Vec<Line>, Ghost(len): Ghost<int>) -> (res: Vec<
    SourceBlock,
>)
    requires
        blocks_within(blocks@, len),
    ensures
        block_spans(res@) == cut_blocks(line_spans(hs@), block_spans(blocks@)),
        blocks_within(res@, len),
{
    let ghost all = line_spans(hs@);
    let mut rendered: Vec<SourceBlock> = Vec::new();
    let mut i: usize = 0;
    while i < blocks.len()
        invariant
            i <= blocks@.len(),
            all == line_spans(hs@),
            blocks_within(blocks@, len),
            blocks_within(rendered@, len),
            rendered@.len() == i,
            forall|k: int|
                0 <= k < i ==> (#[trigger] rendered@[k])@ == cut_block(all, blocks@[k]@),
        decreases blocks@.len() - i,
    {
        let block = &blocks[i];
        let ghost whole = spans(block.runs@);
        let mut runs: Vec<SourceRun> = Vec::new();
        let mut j: usize = 0;
        assert(spans(runs@) =~= Seq::<StyledSpan>::empty());
        while j < block.runs.len()
            invariant
                j <= block.runs@.len(),
                all == line_spans(hs@),
                whole == spans(block.runs@),
                runs_within(block.runs@, len),
                runs_within(runs@, len),
                spans(runs@) == cut_runs(all, whole, j as int),
            decreases block.runs@.len() - j,
        {
            assert(whole[j as int] == block.runs@[j as int]@);
            split_run(hs, block.runs[j], &mut runs);
            j = j + 1;
        }
        rendered.push(
            SourceBlock { kind: block.kind, depth: block.depth, ordinal: block.ordinal, runs },
        );
        i = i + 1;
    }
    assert(block_spans(rendered@) =~= cut_blocks(all, block_spans(blocks@)));
    rendered
}

/// `String::push` of the standard library appends one character.
pub assume_specification[ String::push ](text: &mut String, ch: char)
    ensures
        final(text)@ == old(text)@.push(ch),
;

/// Append part of the source to a text.
fn push_part(out: &mut String, s: &Vec<char>, start: usize, end: usize)
    requires
        start <= end <= s@.len(),
    ensures
        final(out)@ == old(out)@ + s@.subrange(start as int, end as int),
{
    let ghost first = out@;
    let mut i: usize = start;
    assert(first + s@.subrange(start as int, start as int) =~= first);
    while i < end
        invariant
            start <= i <= end <= s@.len(),
            out@ == first + s@.subrange(start as int, i as int),
        decreases end - i,
    {
        assert(s@.subrange(start as int, i + 1) =~= s@.subrange(start as int, i as int).push(
            s@[i as int],
        ));
        assert(first + s@.subrange(start as int, i as int).push(s@[i as int]) =~= (first
            + s@.subrange(start as int, i as int)).push(s@[i as int]));
        out.push(s[i]);
        i = i + 1;
    }
}

/// Append a number in decimal.
fn push_decimal(out: &mut String, n: u32)
    ensures
        final(out)@ == old(out)@ + decimal(n as nat),
    decreases n,
{
    let ghost first = out@;
    let digit = (48u8 + (n % 10) as u8) as char;
    if n >= 10 {
        push_decimal(out, n / 10);
        assert(first + decimal((n / 10) as nat).push(digit) =~= (first + decimal(
            (n / 10) as nat,
        )).push(digit));
    } else {
        assert(first + seq![digit] =~= first.push(digit));
    }
    out.push(digit);
}

/// Append what precedes the text of a block.
fn push_prefix(out: &mut String, block: &SourceBlock)
    ensures
        final(out)@ == old(out)@ + copy_prefix(block@),
{
    let ghost first = out@;
    match block.kind {
        TextFormatBlockKind::Paragraph | TextFormatBlockKind::CodeBlock => {
            assert(first + Seq::<char>::empty() =~= first);
        },
        TextFormatBlockKind::Quote => {
            out.push('>');
            out.push(' ');
            assert(out@ =~= first + seq!['>', ' ']);
        },
        TextFormatBlockKind::UnorderedListItem => {
            push_indentation(out, block.depth);
            out.push('\u{2022}');
            out.push(' ');
            assert(out@ =~= first + (indentation(block.depth as int) + seq!['\u{2022}', ' ']));
        },
        TextFormatBlockKind::OrderedListItem => {
            push_indentation(out, block.depth);
            push_decimal(out, block.ordinal);
            out.push('.');
            out.push(' ');
            assert(out@ =~= first + (indentation(block.depth as int) + decimal(
                block.ordinal as nat,
            ) + seq!['.', ' ']));
        },
    }
}

/// Append two spaces for each level.
fn push_indentation(out: &mut String, depth: u8)
    ensures
        final(out)@ == old(out)@ + indentation(depth as int),
{
    let ghost first = out@;
    let mut i: u8 = 0;
    assert(first + indentation(0) =~= first);
    while i < depth
        invariant
            i <= depth,
            out@ == first + indentation(i as int),
        decreases depth - i,
    {
        out.push(' ');
        out.push(' ');
        i = i + 1;
        assert(out@ =~= first + indentation(i as int));
    }
}

/// The readable text of all blocks, one block per line.
fn copy_text(s: &Vec<char>, blocks: &Vec<SourceBlock>) -> (out: String)
    requires
        blocks_within(blocks@, s@.len() as int),
    ensures
        out@ == copied(s@, block_spans(blocks@), blocks@.len() as int),
{
    let ghost all = block_spans(blocks@);
    let mut out: String = String::new();
    let mut i: usize = 0;
    while i < blocks.len()
        invariant
            i <= blocks@.len(),
            all == block_spans(blocks@),
            blocks_within(blocks@, s@.len() as int),
            out@ == copied(s@, all, i as int),
        decreases blocks@.len() - i,
    {
        let block = &blocks[i];
        assert(all[i as int] == block@);
        if i > 0 {
            out.push('\n');
        }
        let ghost first = out@;
        push_prefix(&mut out, block);
        let ghost prefix = copy_prefix(block@);
        let ghost runs = spans(block.runs@);
        let mut j: usize = 0;
        assert(first + prefix + runs_text(s@, runs, 0) =~= first + prefix);
        while j < block.runs.len()
            invariant
                j <= block.runs@.len(),
                runs == spans(block.runs@),
                runs_within(block.runs@, s@.len() as int),
                out@ == first + prefix + runs_text(s@, runs, j as int),
            decreases block.runs@.len() - j,
        {
            let run = block.runs[j];
            assert(runs[j as int] == run@);
            let ghost part = s@.subrange(run.start as int, run.end as int);
            push_part(&mut out, s, run.start, run.end);
            assert(out@ =~= first + prefix + (runs_text(s@, runs, j as int) + part));
            j = j + 1;
        }
        assert(out@ =~= first + (prefix + runs_text(s@, runs, runs.len() as int)));
        proof {
            if i == 0 {
                assert(out@ =~= prefix + runs_text(s@, runs, runs.len() as int));
            }
        }
        i = i + 1;
    }
    out
}

/// The style tokens of a set, in their fixed order.
fn style_tokens(styles: StyleSet) -> (tokens: Vec<TextFormatStyle>)
    ensures
        tokens@ == styles.tokens(),
{
    let mut tokens: Vec<TextFormatStyle> = Vec::new();
    if styles.emphasis {
        tokens.push(TextFormatStyle::Emphasis);
    }
    if styles.strong {
        tokens.push(TextFormatStyle::Strong);
    }
    if styles.code {
        tokens.push(TextFormatStyle::InlineCode);
    }
    if styles.highlight {
        tokens.push(TextFormatStyle::Highlight);
    }
    assert(tokens@ =~= styles.tokens());
    tokens
}

/// A run as it is shown.
fn show_run(s: &Vec<char>, start: usize, end: usize, styles: StyleSet) -> (run: FormattedTextRun)
    requires
        start <= end <= s@.len(),
    ensures
        run@ == shown_run(
            s@,
            (StyledSpan { start: start as int, end: end as int, styles }),
        ),
{
    let mut text: String = String::new();
    push_part(&mut text, s, start, end);
    assert(text@ =~= s@.subrange(start as int, end as int));
    FormattedTextRun { text, styles: style_tokens(styles) }
}

/// A block as it is shown.
fn show_block(s: &Vec<char>, block: &SourceBlock) -> (res: FormattedTextBlock)
    requires
        runs_within(block.runs@, s@.len() as int),
    ensures
        res@ == shown_block(s@, block@),
{
    let mut runs: Vec<FormattedTextRun> = Vec::new();
    let mut j: usize = 0;
    while j < block.runs.len()
        invariant
            j <= block.runs@.len(),
            runs@.len() == j,
            runs_within(block.runs@, s@.len() as int),
            forall|k: int|
                0 <= k < j ==> (#[trigger] runs@[k])@ == shown_run(s@, block.runs@[k]@),
        decreases block.runs@.len() - j,
    {
        let run = block.runs[j];
        runs.push(show_run(s, run.start, run.end, run.styles));
        j = j + 1;
    }
    let res = FormattedTextBlock { kind: block.kind, depth: block.depth, ordinal: block.ordinal, runs };
    assert(res@.runs =~= shown_block(s@, block@).runs);
    res
}

/// The source as one literal paragraph that keeps only the highlights.
fn literal_fallback(source: &str, s: &Vec<char>, hs: &Vec<Line>) -> (res: FormattedText)
    requires
        s@ == source@,
        lines_within(hs@, s@.len() as int),
        forall|i: int, j: int|
            0 <= i < j < hs@.len() ==> (#[trigger] hs@[i]).end <= (#[trigger] hs@[j]).start,
    ensures
        res@ == literal(source@, line_spans(hs@)),
{
    let plain = StyleSet { emphasis: false, strong: false, code: false, highlight: false };
    let lit = StyleSet { emphasis: false, strong: false, code: false, highlight: true };
    let ghost all = line_spans(hs@);
    let mut runs: Vec<FormattedTextRun> = Vec::new();
    let mut cursor: usize = 0;
    let mut i: usize = 0;
    assert(run_views(runs@) =~= Seq::<RunView>::empty());
    while i < hs.len()
        invariant
            i <= hs@.len(),
            all == line_spans(hs@),
            plain == StyleSet::plain(),
            lit == (StyleSet { highlight: true, ..StyleSet::plain() }),
            lines_within(hs@, s@.len() as int),
            forall|i: int, j: int|
                0 <= i < j < hs@.len() ==> (#[trigger] hs@[i]).end <= (#[trigger] hs@[j]).start,
            cursor == (if i == 0 { 0 } else { all[i - 1].end }),
            cursor <= s@.len(),
            run_views(runs@) == literal_runs(s@, all, i as int),
        decreases hs@.len() - i,
    {
        let h = hs[i];
        assert(all[i as int] == h@);
        let ghost done = run_views(runs@);
        if h.start > cursor {
            let run = show_run(s, cursor, h.start, plain);
            runs.push(run);
            assert(run_views(runs@) =~= done.push(run@));
        }
        let ghost done = run_views(runs@);
        let run = show_run(s, h.start, h.end, lit);
        runs.push(run);
        assert(run_views(runs@) =~= done.push(run@));
        cursor = h.end;
        i = i + 1;
    }
    if cursor < s.len() || runs.len() == 0 {
        let ghost done = run_views(runs@);
        let run = show_run(s, cursor, s.len(), plain);
        runs.push(run);
        assert(run_views(runs@) =~= done.push(run@));
    }
    let block = FormattedTextBlock {
        kind: TextFormatBlockKind::Paragraph,
        depth: 0,
        ordinal: 0,
        runs,
    };
    let mut blocks: Vec<FormattedTextBlock> = Vec::new();
    blocks.push(block);
    let res = FormattedText {
        source: source.to_owned(),
        plain_text: source.to_owned(),
        blocks,
        used_fallback: true,
    };
    assert(res@.blocks =~= seq![block@]);
    assert(block@.runs == run_views(block.runs@));
    res
}

/// The runs as they are shown.
spec fn run_views(runs: Seq<FormattedTextRun>) -> Seq<RunView> {
    runs.map_values(|r: FormattedTextRun| r@)
}

/// Bytes that UTF-8 takes for one character.
pub fn encoded_len(c: char) -> (n: usize)
    ensures
        n == utf8_len(c),
        1 <= n <= 4,
{
    let v: u32 = c as u32;
    if v < 0x80 {
        1
    } else if v < 0x800 {
        2
    } else if v < 0x10000 {
        3
    } else {
        4
    }
}

/// Offsets grow by at least one byte per character.
proof fn lemma_offsets_grow(s: Seq<char>, a: int, b: int)
    requires
        0 <= a <= b,
    ensures
        byte_offset(s, a) + (b - a) <= byte_offset(s, b),
    decreases b - a,
{
    if a < b {
        lemma_offsets_grow(s, a, b - 1);
    }
}

/// A prefix has the offsets of the whole.
proof fn lemma_prefix_offset(s: Seq<char>, t: Seq<char>, k: int)
    requires
        0 <= k <= s.len() <= t.len(),
        forall|i: int| 0 <= i < k ==> #[trigger] s[i] == t[i],
    ensures
        byte_offset(s, k) == byte_offset(t, k),
    decreases k,
{
    if k > 0 {
        lemma_prefix_offset(s, t, k - 1);
    }
}

/// The characters of the source and the byte offset of each; nothing when the source
/// is too long.
fn decompose(source: &str) -> (res: Option<(Vec<char>, Vec<usize>)>)
    ensures
        match res {
            Some((s, offsets)) => {
                &&& s@ == source@
                &&& byte_len(source@) <= MAX_FORMAT_SOURCE_BYTES
                &&& offsets@.len() == s@.len() + 1
                &&& forall|k: int|
                    0 <= k <= s@.len() ==> #[trigger] offsets@[k] == byte_offset(s@, k)
            },
            None => byte_len(source@) > MAX_FORMAT_SOURCE_BYTES,
        },
{
    let mut s: Vec<char> = Vec::new();
    let mut offsets: Vec<usize> = Vec::new();
    let mut total: usize = 0;
    offsets.push(0);
    for c in rest: source.chars()
        invariant
            rest.seq() == source@,
            s@ == source@.take(rest.index()),
            total <= MAX_FORMAT_SOURCE_BYTES,
            total == byte_offset(s@, s@.len() as int),
            offsets@.len() == s@.len() + 1,
            forall|k: int| 0 <= k <= s@.len() ==> #[trigger] offsets@[k] == byte_offset(s@, k),
    {
        let ghost prior = s@;
        total = total + encoded_len(c);
        s.push(c);
        assert(s@ =~= source@.take(rest.index() + 1));
        assert forall|k: int| 0 <= k <= prior.len() implies byte_offset(s@, k) == byte_offset(
            prior,
            k,
        ) by {
            lemma_prefix_offset(prior, s@, k);
        }
        if total > MAX_FORMAT_SOURCE_BYTES {
            proof {
                lemma_prefix_offset(s@, source@, s@.len() as int);
                lemma_offsets_grow(source@, s@.len() as int, source@.len() as int);
            }
            return None;
        }
        offsets.push(total);
    }
    assert(s@ =~= source@);
    Some((s, offsets))
}

/// The character position at a byte offset.
fn locate(s: &Vec<char>, offsets: &Vec<usize>, b: u32) -> (res: Option<usize>)
    requires
        offsets@.len() == s@.len() + 1,
        forall|k: int| 0 <= k <= s@.len() ==> #[trigger] offsets@[k] == byte_offset(s@, k),
    ensures
        match res {
            Some(at) => at <= s@.len() && is_boundary(s@, b as int) && at == position_at(
                s@,
                b as int,
            ) && byte_offset(s@, at as int) == b,
            None => !is_boundary(s@, b as int),
        },
{
    let mut at: usize = 0;
    while at < offsets.len()
        invariant
            at <= offsets@.len(),
            offsets@.len() == s@.len() + 1,
            forall|k: int| 0 <= k <= s@.len() ==> #[trigger] offsets@[k] == byte_offset(s@, k),
            forall|k: int| 0 <= k < at ==> #[trigger] byte_offset(s@, k) != b,
        decreases offsets@.len() - at,
    {
        assert(offsets@[at as int] == byte_offset(s@, at as int));
        if offsets[at] as u64 == b as u64 {
            proof {
                let other = position_at(s@, b as int);
                assert(0 <= other <= s@.len() && byte_offset(s@, other) == b);
                if other < at {
                    lemma_offsets_grow(s@, other, at as int);
                } else {
                    lemma_offsets_grow(s@, at as int, other);
                }
            }
            return Some(at);
        }
        at = at + 1;
    }
    None
}

/// The highlights as ranges of characters; an error unless they are few, in order,
/// disjoint and on character boundaries.
fn validate_highlights(
    s: &Vec<char>,
    offsets: &Vec<usize>,
    highlights: &[TextFormatHighlight],
) -> (res: Result<Vec<Line>>)
    requires
        offsets@.len() == s@.len() + 1,
        forall|k: int| 0 <= k <= s@.len() ==> #[trigger] offsets@[k] == byte_offset(s@, k),
    ensures
        match res {
            Ok(hs) => {
                &&& valid_highlights(s@, highlights@)
                &&& line_spans(hs@) == highlight_spans(s@, highlights@)
                &&& lines_within(hs@, s@.len() as int)
                &&& forall|i: int, j: int|
                    0 <= i < j < hs@.len() ==> (#[trigger] hs@[i]).end <= (#[trigger] hs@[j]).start
            },
            Err(e) => {
                &&& !valid_highlights(s@, highlights@)
                &&& e == NodeError::InvalidTextFormatting
            },
        },
{
    if highlights.len() > MAX_FORMAT_HIGHLIGHTS {
        return Err(NodeError::InvalidTextFormatting);
    }
    let mut hs: Vec<Line> = Vec::new();
    let mut prior: u32 = 0;
    let mut i: usize = 0;
    while i < highlights.len()
        invariant
            i <= highlights@.len() <= MAX_FORMAT_HIGHLIGHTS,
            offsets@.len() == s@.len() + 1,
            forall|k: int| 0 <= k <= s@.len() ==> #[trigger] offsets@[k] == byte_offset(s@, k),
            hs@.len() == i,
            prior == (if i == 0 { 0 } else { highlights@[i - 1].end }),
            forall|k: int| 0 <= k < i ==> highlight_ok(s@, #[trigger] highlights@[k]),
            forall|k: int, l: int|
                0 <= k < l < i ==> (#[trigger] highlights@[k]).end <= (
                #[trigger] highlights@[l]).start,
            forall|k: int|
                0 <= k < i ==> {
                    &&& (#[trigger] hs@[k]).start == position_at(s@, highlights@[k].start as int)
                    &&& hs@[k].end == position_at(s@, highlights@[k].end as int)
                    &&& hs@[k].start < hs@[k].end <= s@.len()
                    &&& byte_offset(s@, hs@[k].start as int) == highlights@[k].start
                    &&& byte_offset(s@, hs@[k].end as int) == highlights@[k].end
                },
        decreases highlights@.len() - i,
    {
        let h = highlights[i];
        if h.start >= h.end || h.start < prior {
            proof {
                if h.start < prior {
                    assert(highlights@[i - 1].end > highlights@[i as int].start);
                }
                assert(!(highlight_ok(s@, highlights@[i as int]) && h.start >= prior));
            }
            return Err(NodeError::InvalidTextFormatting);
        }
        match (locate(s, offsets, h.start), locate(s, offsets, h.end)) {
            (Some(start), Some(end)) => {
                proof {
                    if end <= start {
                        lemma_offsets_grow(s@, end as int, start as int);
                    }
                    assert forall|k: int| 0 <= k < i implies (#[trigger] highlights@[k]).end
                        <= h.start by {
                        if k < i - 1 {
                            assert(highlights@[k].end <= highlights@[i - 1].start);
                            assert(highlight_ok(s@, highlights@[i - 1]));
                        }
                    }
                }
                hs.push(Line { start, end });
                prior = h.end;
            },
            _ => {
                assert(!highlight_ok(s@, highlights@[i as int]));
                return Err(NodeError::InvalidTextFormatting);
            },
        }
        i = i + 1;
    }
    proof {
        assert(line_spans(hs@) =~= highlight_spans(s@, highlights@));
        assert forall|k: int, l: int| 0 <= k < l < hs@.len() implies (#[trigger] hs@[k]).end <= (
        #[trigger] hs@[l]).start by {
            assert(highlights@[k].end <= highlights@[l].start);
            if hs@[l].start < hs@[k].end {
                lemma_offsets_grow(s@, hs@[l].start as int, hs@[k].end as int);
            }
        }
        assert forall|k: int| 0 <= k < hs@.len() implies {
            &&& (#[trigger] hs@[k]).start <= hs@[k].end <= s@.len()
            &&& k > 0 ==> hs@[k].start > 0
        } by {
            if k > 0 {
                assert(hs@[0].end <= hs@[k].start);
            }
        }
    }
    Ok(hs)
}

/// The runs of all blocks together.
fn count_runs(blocks: &Vec<SourceBlock>) -> (n: u64)
    ensures
        n <= MAX_FORMAT_RUNS + 1,
        n <= MAX_FORMAT_RUNS ==> n == run_count(block_spans(blocks@), blocks@.len() as int),
        n > MAX_FORMAT_RUNS ==> run_count(block_spans(blocks@), blocks@.len() as int)
            > MAX_FORMAT_RUNS,
{
    let ghost all = block_spans(blocks@);
    let mut n: u64 = 0;
    let mut i: usize = 0;
    while i < blocks.len()
        invariant
            i <= blocks@.len(),
            all == block_spans(blocks@),
            n <= MAX_FORMAT_RUNS,
            n == run_count(all, i as int),
        decreases blocks@.len() - i,
    {
        let more: usize = blocks[i].runs.len();
        assert(all[i as int].runs.len() == more);
        if more > MAX_FORMAT_RUNS || n + more as u64 > MAX_FORMAT_RUNS as u64 {
            proof {
                lemma_run_count_grows(all, i + 1, all.len() as int);
            }
            return MAX_FORMAT_RUNS as u64 + 1;
        }
        n = n + more as u64;
        i = i + 1;
    }
    n
}

proof fn lemma_run_count_grows(blocks: Seq<SpanBlock>, a: int, b: int)
    requires
        0 <= a <= b <= blocks.len(),
    ensures
        run_count(blocks, a) <= run_count(blocks, b),
    decreases b - a,
{
    if a < b {
        lemma_run_count_grows(blocks, a, b - 1);
    }
}

/// Parse exact source text into a bounded, render-safe local display model.
///
/// Existing semantic ranges may be supplied as inert highlights. They must be
/// canonical sorted, non-overlapping UTF-8 ranges. Formatting markers are never
/// added to storage or transmitted bytes.
pub fn format_text(source: &str, highlights: &[TextFormatHighlight]) -> (res: Result<
    FormattedText,
>)
    ensures
        match res {
            Ok(text) => acceptable(source@, highlights@) && text@ == formatted(
                source@,
                highlights@,
            ),
            Err(e) => !acceptable(source@, highlights@) && e == NodeError::InvalidTextFormatting,
        },
{
    let (s, offsets) = match decompose(source) {
        Some(parts) => parts,
        None => {
            return Err(NodeError::InvalidTextFormatting);
        },
    };
    let hs = match validate_highlights(&s, &offsets, highlights) {
        Ok(hs) => hs,
        Err(e) => {
            return Err(e);
        },
    };
    let lines = source_lines(&s);
    let parsed = match parse_blocks(&s, &lines) {
        Some(parsed) => parsed,
        None => {
            return Ok(literal_fallback(source, &s, &hs));
        },
    };
    let blocks = apply_highlights(parsed, &hs, Ghost(s@.len() as int));
    assert(block_spans(blocks@).len() == blocks@.len());
    if blocks.len() > MAX_FORMAT_BLOCKS || count_runs(&blocks) > MAX_FORMAT_RUNS as u64 {
        return Ok(literal_fallback(source, &s, &hs));
    }
    let plain_text = copy_text(&s, &blocks);
    let mut shown: Vec<FormattedTextBlock> = Vec::new();
    let mut i: usize = 0;
    while i < blocks.len()
        invariant
            i <= blocks@.len(),
            shown@.len() == i,
            blocks_within(blocks@, s@.len() as int),
            forall|k: int| 0 <= k < i ==> (#[trigger] shown@[k])@ == shown_block(s@, blocks@[k]@),
        decreases blocks@.len() - i,
    {
        shown.push(show_block(&s, &blocks[i]));
        i = i + 1;
    }
    let res = FormattedText {
        source: source.to_owned(),
        plain_text,
        blocks: shown,
        used_fallback: false,
    };
    assert(res@.blocks =~= block_spans(blocks@).map_values(|b: SpanBlock| shown_block(s@, b)));
    Ok(res)
}

} // verus!
