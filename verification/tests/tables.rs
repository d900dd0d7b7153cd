use markdown_render::chars::to_chars;
use markdown_render::layout::MeasuredSpan;
use markdown_render::style::rule_style;
use markdown_render::table::{
    belongs_to_table, push_padded, render_table_border, render_table_group, render_table_row,
    render_wrapped_row, table_col_width,
};
use markdown_render::wrap::wrap_text;
use markdown_render::{
    parse, render_markdown, render_markdown_tagged, render_parsed, render_parsed_tagged, Block,
    Color, Line, Palette, RenderOptions, Span, Style,
};
use unicode_width::UnicodeWidthStr;

fn drawn(osc8: bool) -> RenderOptions {
    RenderOptions {
        osc8,
        palette: Palette {
            sky: Color::Cyan,
            blue: Color::LightBlue,
            text_dim: Color::DarkGray,
            surface_elevated: Color::Black,
        },
    }
}

fn text_of(line: &Line) -> String {
    line.spans.iter().map(|s| s.content.as_str()).collect()
}

fn rendered_texts(source: &str, width: u16) -> Vec<String> {
    render_markdown(source, width, Style::new(), drawn(false)).iter().map(text_of).collect()
}

fn cell_row(cells: &[&str]) -> Block {
    Block::TableRow(cells.iter().map(|c| c.to_string()).collect())
}

const DOCUMENT: &str = "# Title of it\n\nSome *text* with https://a.b and more of it.\n\n\
    - one item\n12. twelfth item\n\n```rust\nfn main() {\n\tcall();\n}\n```\n---\n\
    | name | what it says |\n|---|---|\n| a | first cell of some length |\n| b | [x](y) |\n\nend";

#[test]
fn columns_share_what_the_borders_leave() {
    assert_eq!(table_col_width(2, 60), 26);
    assert_eq!(table_col_width(3, 80), 23);
    assert_eq!(table_col_width(1, 9), 5);
    assert_eq!(table_col_width(1, 5), 4);
    assert_eq!(table_col_width(3, 0), 4);
    assert_eq!(table_col_width(usize::MAX, usize::MAX), 4);
}

#[test]
fn borders_are_drawn_over_their_columns() {
    let style = Style::new().fg(Color::Red);
    let border = |n: usize, w: usize| {
        render_table_border(n, w, style, &to_chars("<"), &to_chars("+"), &to_chars(">"))
    };
    assert_eq!(text_of(&border(3, 2)), "<──+──+──>");
    assert_eq!(text_of(&border(1, 0)), "<>");
    assert_eq!(text_of(&border(0, 4)), "<");
    assert_eq!(border(2, 1).spans.len(), 1);
    assert_eq!(border(2, 1).spans[0].style, style);
}

#[test]
fn cells_are_padded_to_their_column() {
    let span = |text: &str, width: usize| MeasuredSpan { span: Span::raw(text.to_string()), width };
    let mut out = vec![Span::raw("|".to_string())];
    push_padded(&mut out, vec![span("a", 1), span("b", 2)], 5);
    let texts: Vec<&str> = out.iter().map(|s| s.content.as_str()).collect();
    assert_eq!(texts, vec!["|", "a", "b", "  "]);
    push_padded(&mut out, vec![span("c", 9)], 5);
    assert_eq!(out[5].content, "");
    push_padded(&mut out, vec![], 2);
    assert_eq!(out[6].content, "  ");
}

#[test]
fn a_small_table_line_by_line() {
    assert_eq!(
        rendered_texts("| a | 中 |\n|---|---|\n| 1 | **2** |", 20),
        vec![
            "┌────────┬────────┐",
            "│ a      │ 中     │",
            "├────────┼────────┤",
            "│ 1      │ 2      │",
            "└────────┴────────┘",
        ],
    );
}

#[test]
fn rows_without_a_separator_get_a_border_between_them() {
    assert_eq!(
        rendered_texts("| a |\n| b |\n|---|\n| c |", 8),
        vec!["┌──────┐", "│ a    │", "├──────┤", "│ b    │", "├──────┤", "│ c    │", "└──────┘"],
    );
}

#[test]
fn separators_alone_make_a_table_of_one_column() {
    assert_eq!(
        rendered_texts("|---|---|", 12),
        vec!["┌──────────┐", "├──────────┤", "└──────────┘"],
    );
    let lines = render_table_group(&[], 12, Style::new(), drawn(false));
    assert_eq!(lines.len(), 2);
}

#[test]
fn shorter_rows_have_columns_of_their_own() {
    assert_eq!(
        rendered_texts("| a | b |\n| c |", 20),
        vec![
            "┌────────┬────────┐",
            "│ a      │ b      │",
            "├────────┼────────┤",
            "│ c                │",
            "└────────┴────────┘",
        ],
    );
}

#[test]
fn long_cells_wrap_and_the_others_stay_blank() {
    let cells = vec!["ab".to_string(), "one two three".to_string()];
    let lines = render_table_row(&cells, 20, Style::new(), drawn(false));
    let texts: Vec<String> = lines.iter().map(text_of).collect();
    assert_eq!(
        texts,
        vec!["│ ab     │ one    │", "│        │ two    │", "│        │ three  │"],
    );
    for line in &lines {
        assert_eq!(line.spans[0].style, rule_style(drawn(false).palette));
    }
}

#[test]
fn bars_stand_at_the_same_columns() {
    let cells = vec!["中文 and ascii".to_string(), "x".to_string(), "a_b_ c d e f".to_string()];
    for width in 0..60 {
        let lines = render_table_row(&cells, width, Style::new(), drawn(false));
        let bars = |line: &Line| -> Vec<usize> {
            let text = text_of(line);
            text.match_indices('│').map(|(i, _)| text[..i].width()).collect()
        };
        for line in &lines {
            assert_eq!(bars(line), bars(&lines[0]));
            assert_eq!(bars(line).len(), 4);
            assert_eq!(text_of(line).width(), 3 * (table_col_width(3, width) + 3) + 1);
        }
    }
}

#[test]
fn a_row_without_cells_is_an_empty_line() {
    let lines = render_table_row(&vec![], 20, Style::new(), drawn(false));
    assert_eq!(lines, vec![Line::empty()]);
}

#[test]
fn rows_are_as_high_as_their_highest_cell() {
    let wrapped = vec![
        vec!["a".to_string()],
        vec!["b".to_string(), "*c*".to_string()],
        vec![],
    ];
    let lines = render_wrapped_row(&wrapped, 3, Style::new(), drawn(false));
    let texts: Vec<String> = lines.iter().map(text_of).collect();
    assert_eq!(texts, vec!["│ a   │ b   │     │", "│     │ c   │     │"]);
    assert_eq!(render_wrapped_row(&vec![], 3, Style::new(), drawn(false)).len(), 1);
}

#[test]
fn links_in_cells_are_written_out() {
    let row = |osc8: bool| {
        let lines = render_table_row(&vec!["[x](y)".to_string()], 20, Style::new(), drawn(osc8));
        text_of(&lines[0])
    };
    assert_eq!(row(false), "│ x (y)            │");
    assert!(row(true).contains("\u{1b}]8;;y\u{1b}\\x\u{1b}]8;;\u{1b}\\"));
}

#[test]
fn rows_and_separators_belong_to_tables() {
    assert!(belongs_to_table(&cell_row(&["a"])));
    assert!(belongs_to_table(&Block::TableSeparator));
    assert!(!belongs_to_table(&Block::Blank));
    assert!(!belongs_to_table(&Block::Paragraph { text: "| a |".to_string() }));
}

#[test]
fn other_blocks_leave_no_line_in_a_table() {
    let blocks = [cell_row(&["a"]), Block::Blank];
    let lines = render_table_group(&blocks, 10, Style::new(), drawn(false));
    assert_eq!(lines.len(), 3);
}

#[test]
fn rules_have_a_greatest_length() {
    assert_eq!(rendered_texts("---", 100), vec!["─".repeat(60)]);
    assert_eq!(rendered_texts("---", 7), vec!["─".repeat(7)]);
    assert_eq!(rendered_texts("# t", 100), vec!["t".to_string(), "─".repeat(40)]);
    assert_eq!(rendered_texts("# t", 39), vec!["t".to_string(), "─".repeat(39)]);
    let lines = render_markdown("---", 5, Style::new(), drawn(false));
    assert_eq!(lines[0].spans[0].style, rule_style(drawn(false).palette));
}

#[test]
fn nothing_is_rendered_as_one_empty_line() {
    for source in ["", "```\n```", "\n"] {
        let lines = render_markdown(source, 10, Style::new(), drawn(false));
        assert_eq!(lines, vec![Line::empty()]);
    }
}

#[test]
fn no_columns_are_rendered_as_one() {
    let parsed = parse(DOCUMENT);
    let none = render_parsed(&parsed, 0, Style::new(), drawn(false));
    let one = render_parsed(&parsed, 1, Style::new(), drawn(false));
    assert_eq!(none, one);
    assert_eq!(rendered_texts("---", 0), vec!["─"]);
}

#[test]
fn code_lines_are_tagged_and_no_others() {
    let lines = render_markdown_tagged("a\n```\nb\n\nc d e f\n```\n| g |\n- h", 6, Style::new(), drawn(false));
    let tagged: Vec<String> =
        lines.iter().filter(|l| l.is_code).map(|l| text_of(&l.line)).collect();
    assert_eq!(tagged, vec!["  b", "  ", "  c d ", "  e f"]);
    assert!(!lines[0].is_code);
    assert_eq!(lines.len(), 1 + 4 + 3 + 1);
}

#[test]
fn tags_do_not_change_the_lines() {
    let parsed = parse(DOCUMENT);
    for width in [0, 1, 10, 40, 80] {
        let tagged = render_parsed_tagged(&parsed, width, Style::new(), drawn(true));
        let lines: Vec<Line> = tagged.iter().map(|l| l.line.clone()).collect();
        assert_eq!(lines, render_parsed(&parsed, width, Style::new(), drawn(true)));
        let direct = render_markdown_tagged(DOCUMENT, width, Style::new(), drawn(true));
        assert_eq!(direct.len(), tagged.len());
        for (a, b) in direct.iter().zip(tagged.iter()) {
            let copy = b.clone();
            assert_eq!(a.line, copy.line);
            assert_eq!(a.is_code, copy.is_code);
        }
    }
}

#[test]
fn documents_can_be_rendered_in_parts() {
    let first = "# a\n| b |\n|---|\n";
    let second = "c\n\n| d |\n";
    let mut parts = rendered_texts(first, 30);
    parts.extend(rendered_texts(second, 30));
    assert_eq!(rendered_texts(&format!("{first}{second}"), 30), parts);
}

#[test]
fn rendered_lines_hold_no_line_breaks() {
    let source = DOCUMENT.replace('\n', "\r\n");
    for width in [0, 1, 5, 20, 80] {
        for line in render_markdown(&source, width, Style::new(), drawn(true)) {
            assert!(!text_of(&line).contains('\n'));
        }
        for line in render_markdown(&source, width, Style::new(), drawn(false)) {
            assert!(!text_of(&line).contains('\u{1b}'));
        }
    }
}

#[test]
fn every_visible_character_is_drawn_or_from_the_source() {
    for width in [1, 8, 33] {
        for text in rendered_texts(DOCUMENT, width) {
            for c in text.chars() {
                let box_drawing = ('\u{2500}'..='\u{257F}').contains(&c);
                assert!(DOCUMENT.contains(c) || " ()-.".contains(c) || box_drawing, "{c:?}");
            }
        }
    }
}

#[test]
fn a_document_says_the_same_at_every_width() {
    let source = "# Title of *it*\n\nSome *text* with https://a.b and more.\n\n- one `item`\n\
        12. twelfth [item](u)\n\n```\nfn main() {\n\tcall();\n}\n```\n---\n   \nend";
    let written = |width: u16| -> String {
        rendered_texts(source, width)
            .concat()
            .chars()
            .filter(|c| !c.is_whitespace() && !('\u{2500}'..='\u{257F}').contains(c))
            .collect()
    };
    let expected = "Titleof*it*Sometextwithhttps://a.bandmore.-oneitem12.twelfthitem(u)\
        fnmain(){call();}end";
    for width in 0..70 {
        assert_eq!(written(width), expected, "width {width}");
    }
}

#[test]
fn rows_of_plain_cells_keep_their_bars_in_place() {
    let cells = vec!["one two *three*".to_string(), "".to_string(), "[a](b) fourteen".to_string()];
    for width in 0..70 {
        let period = table_col_width(3, width) + 3;
        for line in render_table_row(&cells, width, Style::new(), drawn(false)) {
            let chars: Vec<char> = text_of(&line).chars().collect();
            assert_eq!(chars.len(), 3 * period + 1);
            for (i, c) in chars.iter().enumerate() {
                assert_eq!(*c == '│', i % period == 0);
            }
            assert_eq!((chars[1], chars[chars.len() - 2]), (' ', ' '));
        }
    }
}

#[test]
fn lines_of_a_plain_table_are_equally_long() {
    let source = "| name | what |\n|---|---|\n| a | some words to wrap |\n| **b** | c |";
    for width in 0..60u16 {
        let lens: Vec<usize> =
            rendered_texts(source, width).iter().map(|t| t.chars().count()).collect();
        assert!(lens.iter().all(|n| *n == lens[0]), "{lens:?}");
        assert_eq!(lens[0], 2 * (table_col_width(2, (width as usize).max(1)) + 3) + 1);
    }
}

#[test]
fn a_table_without_markup_says_the_same_at_every_width() {
    let source = "| name | what it says |\n|---|---|\n| aa bb | some words: to wrap / here |";
    let written = |width: u16| -> String {
        rendered_texts(source, width)
            .concat()
            .chars()
            .filter(|c| !c.is_whitespace() && !('\u{2500}'..='\u{257F}').contains(c))
            .collect()
    };
    assert_eq!(written(80), "namewhatitsaysaabbsomewords:towrap/here");
    let sorted = |s: String| -> Vec<char> {
        let mut chars: Vec<char> = s.chars().collect();
        chars.sort();
        chars
    };
    for width in 0..80 {
        assert_eq!(sorted(written(width)), sorted(written(80)));
    }
    // The lines of two wrapped cells stand side by side.
    assert_eq!(written(0), "namewhatitsaysaasomebbwords:towrap/here");
}

#[test]
fn plain_paragraphs_wrap_as_prose() {
    let line = "some plain words of various widths and one-rather-long-word at the end";
    for width in 1..80usize {
        let shown: Vec<String> = render_markdown(line, width as u16, Style::new(), drawn(true))
            .iter()
            .map(text_of)
            .collect();
        assert_eq!(shown, wrap_text(line, width));
    }
}

#[test]
fn paragraph_lines_fit_but_for_single_words() {
    let source = "some words of **various widths** 中文 and one-rather-long-word at the end";
    for width in 1..40u16 {
        for line in render_markdown(source, width, Style::new(), drawn(false)) {
            let text = text_of(&line);
            assert!(text.width() <= width as usize || !text.contains(' '), "{text:?}");
        }
    }
}
