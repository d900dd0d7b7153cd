use markdown_render::width::char_display_width;
use markdown_render::wrap::wrap_code_line;
use markdown_render::{
    parse, parse_counted, parse_invocation_count, render_markdown, render_parsed,
    reset_parse_invocation_count, Block, Color, Line, Palette, ParseInvocations, RenderOptions,
    Style,
};

fn options(osc8: bool) -> RenderOptions {
    RenderOptions {
        osc8,
        palette: Palette {
            sky: Color::Rgb(1, 2, 3),
            blue: Color::Rgb(4, 5, 6),
            text_dim: Color::DarkGray,
            surface_elevated: Color::Indexed(7),
        },
    }
}

fn joined_text(lines: &[Line]) -> String {
    lines
        .iter()
        .flat_map(|l| l.spans.iter().map(|s| s.content.as_str()))
        .collect::<String>()
}

fn line_texts(lines: &[Line]) -> Vec<String> {
    lines
        .iter()
        .map(|l| {
            l.spans
                .iter()
                .map(|s| s.content.as_str())
                .collect::<String>()
        })
        .collect()
}

fn render_with_osc8(enabled: bool, source: &str) -> String {
    joined_text(&render_markdown(source, 80, Style::default(), options(enabled)))
}

#[test]
fn render_markdown_matches_parse_then_render() {
    let source = "# Title\n\nA paragraph with a https://example.com link.\n\n- one\n- two\n```\ncode\n```";
    let direct = render_with_osc8(false, source);
    let parsed = parse(source);
    let two_step = joined_text(&render_parsed(&parsed, 80, Style::default(), options(false)));
    assert_eq!(direct, two_step);
}

#[test]
fn parse_is_width_independent() {
    let source = "Hello\n\n## Heading\n- list\n";
    let a = parse(source);
    let b = parse(source);
    assert_eq!(a, b);
}

#[test]
fn render_parsed_word_wrap_changes_with_width() {
    let parsed = parse("alpha beta gamma delta epsilon zeta");
    let wide = render_parsed(&parsed, 80, Style::default(), options(false));
    let narrow = render_parsed(&parsed, 10, Style::default(), options(false));
    assert!(
        narrow.len() > wide.len(),
        "narrow should produce more lines"
    );
}

#[test]
fn parse_invocations_increment() {
    let mut invocations = ParseInvocations::default();
    reset_parse_invocation_count(&mut invocations);
    let _ = parse_counted("hello\n", &mut invocations);
    let _ = parse_counted("world\n", &mut invocations);
    assert_eq!(parse_invocation_count(&invocations), 2);
}

#[test]
fn render_parsed_does_not_call_parse() {
    let mut invocations = ParseInvocations::default();
    let parsed = parse_counted(
        "multiline\nsource\nwith several\nlines\n",
        &mut invocations,
    );
    reset_parse_invocation_count(&mut invocations);
    let _ = render_parsed(&parsed, 80, Style::default(), options(false));
    let _ = render_parsed(&parsed, 40, Style::default(), options(false));
    let _ = render_parsed(&parsed, 20, Style::default(), options(false));
    assert_eq!(
        parse_invocation_count(&invocations),
        0,
        "render_parsed must not call parse"
    );
}

#[test]
fn fenced_code_block_collected_in_parse() {
    let parsed = parse("text\n```\ncode line one\ncode line two\n```\nmore\n");
    let blocks = parsed.blocks();
    let code_lines: Vec<_> = blocks
        .iter()
        .filter_map(|b| match b {
            Block::Code { line } => Some(line.as_str()),
            _ => None,
        })
        .collect();
    assert_eq!(code_lines, vec!["code line one", "code line two"]);
}

#[test]
fn code_block_indentation_is_preserved_in_render() {
    let md = "```\nfn main() {\n    println!(\"hi\");\n}\n```\n";
    let lines = render_markdown(md, 80, Style::default(), options(false));
    let text = line_texts(&lines);
    let indented = text
        .iter()
        .find(|t| t.contains("println"))
        .expect("should find println line");
    assert!(
        indented.starts_with("      "),
        "expected 6+ leading spaces (2 block prefix + 4 indent), got: {indented:?}"
    );
}

#[test]
fn wrap_code_line_preserves_leading_whitespace() {
    assert_eq!(wrap_code_line("    let x = 1;", 80), vec!["    let x = 1;"]);

    let chunks = wrap_code_line("    abcdefgh", 8);
    assert_eq!(chunks[0], "    abcd", "first chunk keeps leading spaces");
    assert_eq!(chunks[1], "efgh");

    assert_eq!(wrap_code_line("", 80), vec![""]);
}

#[test]
fn wrap_code_line_tab_counts_toward_width() {
    let chunks = wrap_code_line("\txy", 10);
    assert_eq!(chunks, vec!["\txy"], "tab + 2 chars fits in width 10");

    let chunks = wrap_code_line("\txy", 9);
    assert_eq!(chunks[0], "\tx", "tab + first char fits exactly");
    assert_eq!(chunks[1], "y", "second char wraps");

    let chunks = wrap_code_line("\tx", 8);
    assert_eq!(chunks[0], "\t");
    assert_eq!(chunks[1], "x");
}

#[test]
fn char_display_width_tab_uses_tab_stop() {
    assert_eq!(char_display_width('\t', 0), 8);
    assert_eq!(char_display_width('\t', 4), 4);
    assert_eq!(char_display_width('\t', 8), 8);
    assert_eq!(char_display_width('a', 0), 1);
}

#[test]
fn ordered_and_unordered_list_items_parse() {
    let parsed = parse("- alpha\n* beta\n1. gamma\n");
    let items: Vec<_> = parsed
        .blocks()
        .iter()
        .filter_map(|b| match b {
            Block::ListItem { bullet, text } => Some((bullet.as_str(), text.as_str())),
            _ => None,
        })
        .collect();
    assert_eq!(items, vec![("-", "alpha"), ("-", "beta"), ("1.", "gamma")]);
}

#[test]
fn http_links_get_osc_8_wrapped_when_enabled() {
    let joined = render_with_osc8(true, "see https://example.com for details");
    assert!(
        joined.contains("\x1b]8;;https://example.com\x1b\\https://example.com\x1b]8;;\x1b\\"),
        "expected OSC 8 wrapper around URL; got {joined:?}"
    );
}

#[test]
fn osc_8_disabled_emits_plain_url() {
    let joined = render_with_osc8(false, "see https://example.com for details");
    assert!(
        !joined.contains("\x1b]8;;"),
        "expected no OSC 8 wrapper when disabled; got {joined:?}"
    );
    assert!(joined.contains("https://example.com"));
}

#[test]
fn table_separator_row_is_kept() {
    let src = "| 项目属性 | 详情 |\n|----------|------|\n| **语言** | Rust 1.88+ |\n";
    let parsed = parse(src);
    let blocks: Vec<_> = parsed.blocks().iter().collect();
    let table_rows: Vec<_> = blocks
        .iter()
        .filter(|b| matches!(b, Block::TableRow(_)))
        .collect();
    assert_eq!(table_rows.len(), 2, "expected 2 table rows: {blocks:?}");
    let separators: Vec<_> = blocks
        .iter()
        .filter(|b| matches!(b, Block::TableSeparator))
        .collect();
    assert_eq!(
        separators.len(),
        1,
        "expected 1 table separator: {blocks:?}"
    );
}

#[test]
fn bold_markers_stripped_in_render() {
    let src = "这是一个 **Rust 工作区项目**，包含多个 crate。\n";
    let lines = render_markdown(src, 80, Style::default(), options(false));
    let text = joined_text(&lines);
    assert!(
        !text.contains("**"),
        "bold markers leaked into output: {text:?}"
    );
    assert!(text.contains("Rust"), "bold content missing: {text:?}");
}

#[test]
fn table_renders_with_box_drawing_borders() {
    let src = "| 文件 | 改动 |\n|---|---|\n| foo.rs | 重写 |\n";
    let lines = render_markdown(src, 60, Style::default(), options(false));
    let text = joined_text(&lines);
    assert!(text.contains('│'), "table pipe separator missing: {text:?}");
    assert!(
        !text.contains("|---|"),
        "raw separator row leaked: {text:?}"
    );
    assert!(
        text.contains('\u{250C}'),
        "top-left corner missing: {text:?}"
    );
    assert!(
        text.contains('\u{2510}'),
        "top-right corner missing: {text:?}"
    );
    assert!(
        text.contains('\u{2514}'),
        "bottom-left corner missing: {text:?}"
    );
    assert!(
        text.contains('\u{2518}'),
        "bottom-right corner missing: {text:?}"
    );
    assert!(
        text.contains('\u{251C}'),
        "middle-left junction missing: {text:?}"
    );
    assert!(
        text.contains('\u{2524}'),
        "middle-right junction missing: {text:?}"
    );
}

/// Cells longer than the per-column width must word-wrap to multiple lines
/// instead of getting truncated with `…`.
#[test]
fn table_cell_wider_than_column_wraps_instead_of_truncating() {
    let src = "| Feature | How to verify |\n\
               |---|---|\n\
               | Workspace-local commands | Drop a .deepseek/commands/foo.md in any project, run deepseek from there, type /foo — should dispatch |\n";
    let lines = render_markdown(src, 80, Style::default(), options(false));
    let combined = joined_text(&lines);

    assert!(
        !combined.contains('…'),
        "table cell was truncated with `…` instead of wrapping; got: {combined:?}"
    );
    assert!(
        combined.contains("type /foo"),
        "tail of long cell was lost; got: {combined:?}"
    );
    assert!(
        combined.contains("Workspace-local commands"),
        "short cell content lost; got: {combined:?}"
    );
}

/// Wrapped table rows must keep column separators on every visual line so the
/// columns remain visually aligned across all wrapped segments.
#[test]
fn wrapped_table_row_preserves_column_separators() {
    let src = "| A | B |\n\
               |---|---|\n\
               | short | this is a very very long second cell that absolutely must wrap to a new visual line because it cannot fit in the column allocated to it at this terminal width |\n";
    let lines = render_markdown(src, 60, Style::default(), options(false));
    let rendered = line_texts(&lines);

    let body_lines: Vec<&String> = rendered.iter().filter(|s| s.starts_with('│')).collect();

    assert!(
        body_lines.len() >= 3,
        "expected at least header + multi-line data row (3+ body lines), got {}: {:?}",
        body_lines.len(),
        body_lines
    );

    for line in &body_lines {
        assert!(
            line.matches('│').count() >= 3,
            "every wrapped table line should have N+1 column separators \
             for N columns; got fewer in: {line:?}"
        );
    }

    let combined: String = rendered.join("\n");
    for fragment in ["this is a very very long", "must wrap", "terminal width"] {
        assert!(
            combined.contains(fragment),
            "fragment {fragment:?} missing from wrapped output:\n{combined}"
        );
    }
}
