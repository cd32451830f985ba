use kult_node::{
    format_text, FormattedTextBlock, TextFormatBlockKind, TextFormatHighlight, TextFormatStyle, MAX_FORMAT_BLOCKS,
    MAX_FORMAT_HIGHLIGHTS, MAX_FORMAT_LIST_DEPTH, MAX_FORMAT_RUNS, MAX_FORMAT_SOURCE_BYTES,
};

#[test]
fn subset_is_inert_bounded_and_copyable() {
    let source = "*em* **strong** `code`\n> quote\n- item\n2. next\n```html\n<script src=https://evil.invalid></script>\n```";
    let formatted = format_text(source, &[]).unwrap();
    assert!(!formatted.used_fallback);
    assert_eq!(formatted.blocks.len(), 5);
    assert_eq!(formatted.blocks[0].kind, TextFormatBlockKind::Paragraph);
    assert_eq!(formatted.blocks[1].kind, TextFormatBlockKind::Quote);
    assert_eq!(
        formatted.blocks[2].kind,
        TextFormatBlockKind::UnorderedListItem
    );
    assert_eq!(
        formatted.blocks[3].kind,
        TextFormatBlockKind::OrderedListItem
    );
    assert_eq!(formatted.blocks[4].kind, TextFormatBlockKind::CodeBlock);
    assert_eq!(
        formatted.plain_text,
        "em strong code\n> quote\n• item\n2. next\n<script src=https://evil.invalid></script>"
    );
    assert!(formatted
        .blocks
        .iter()
        .flat_map(|block| &block.runs)
        .any(|run| run.styles.contains(&TextFormatStyle::Strong)));
    assert!(formatted.plain_text.contains("<script"));
}

#[test]
fn links_images_html_bidi_and_unknown_syntax_stay_text() {
    let source =
        "[run](javascript:alert(1)) ![remote](https://evil.invalid/x.png) <b>x</b> \u{202e}abc";
    let formatted = format_text(source, &[]).unwrap();
    assert_eq!(formatted.plain_text, source);
    assert_eq!(formatted.blocks[0].runs[0].text, source);
    assert!(formatted.blocks[0].runs[0].styles.is_empty());
}

#[test]
fn exact_source_highlights_compose_with_inline_styles() {
    let source = "**hello @Café**";
    let start = source.find('@').unwrap() as u32;
    let end = source.rfind("**").unwrap() as u32;
    let formatted = format_text(source, &[TextFormatHighlight { start, end }]).unwrap();
    let highlighted = formatted.blocks[0]
        .runs
        .iter()
        .find(|run| run.styles.contains(&TextFormatStyle::Highlight))
        .unwrap();
    assert_eq!(highlighted.text, "@Café");
    assert!(highlighted.styles.contains(&TextFormatStyle::Strong));
}

#[test]
fn every_complexity_bound_falls_back_or_fails_closed() {
    let source = format!("{}x{}", "*".repeat(10), "*".repeat(10));
    assert!(format_text(&source, &[]).unwrap().used_fallback);

    let too_many_blocks = "item\n\n".repeat(MAX_FORMAT_BLOCKS + 1);
    assert!(format_text(&too_many_blocks, &[]).unwrap().used_fallback);

    let too_many_runs = "*x* ".repeat(MAX_FORMAT_RUNS + 1);
    assert!(format_text(&too_many_runs, &[]).unwrap().used_fallback);

    let too_deep_list = format!(
        "{}- item",
        " ".repeat((MAX_FORMAT_LIST_DEPTH as usize + 1) * 2)
    );
    assert!(format_text(&too_deep_list, &[]).unwrap().used_fallback);

    let highlighted_source = "x".repeat((MAX_FORMAT_HIGHLIGHTS + 1) * 2);
    let too_many_highlights = (0..=MAX_FORMAT_HIGHLIGHTS)
        .map(|index| TextFormatHighlight {
            start: (index * 2) as u32,
            end: (index * 2 + 1) as u32,
        })
        .collect::<Vec<_>>();
    assert!(format_text(&highlighted_source, &too_many_highlights).is_err());

    assert!(format_text("é", &[TextFormatHighlight { start: 1, end: 2 }]).is_err());
    assert!(format_text(&"x".repeat(MAX_FORMAT_SOURCE_BYTES + 1), &[]).is_err());
}

#[test]
fn highlights_change_neither_copied_nor_shown_text() {
    let source = "> a **quoted** line\n\n1. first `item`\n\nplain *text* here";
    let highlights = [
        TextFormatHighlight { start: 3, end: 8 },
        TextFormatHighlight { start: 25, end: 40 },
    ];
    let with = format_text(source, &highlights).unwrap();
    let without = format_text(source, &[]).unwrap();
    assert!(!with.used_fallback && !without.used_fallback);
    assert_eq!(with.plain_text, without.plain_text);
    assert_eq!(with.blocks.len(), without.blocks.len());
    for (a, b) in with.blocks.iter().zip(&without.blocks) {
        assert_eq!((a.kind, a.depth, a.ordinal), (b.kind, b.depth, b.ordinal));
        let text = |block: &FormattedTextBlock| -> String {
            block.runs.iter().map(|run| run.text.as_str()).collect()
        };
        assert_eq!(text(a), text(b));
    }
}
