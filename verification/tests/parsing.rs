use markdown_render::block::{is_horizontal_rule, parse_heading, parse_list_item, parse_table_row};
use markdown_render::chars::{
    find, find_char, find_word_end, is_whitespace, repeat_char, split, split_lines,
    split_whitespace, starts_with, to_chars, to_text, trim, trim_matches,
};
use markdown_render::{
    parse, parse_counted, parse_invocation_count, reset_parse_invocation_count, Block,
    ParseInvocations,
};

fn paragraph(text: &str) -> Block {
    Block::Paragraph { text: text.to_string() }
}

fn heading(level: usize, text: &str) -> Block {
    Block::Heading { level, text: text.to_string() }
}

fn item(bullet: &str, text: &str) -> Block {
    Block::ListItem { bullet: bullet.to_string(), text: text.to_string() }
}

fn code(line: &str) -> Block {
    Block::Code { line: line.to_string() }
}

fn row(cells: &[&str]) -> Block {
    Block::TableRow(cells.iter().map(|c| c.to_string()).collect())
}

fn check_blocks(source: &str, expected: Vec<Block>) {
    assert_eq!(*parse(source).blocks(), expected, "source: {source:?}");
}

fn strings(pieces: &[&[char]]) -> Vec<String> {
    pieces.iter().map(|p| to_text(p)).collect()
}

const SAMPLES: [&str; 16] = [
    "",
    "\n",
    "\r\n",
    "a",
    "a\n",
    "a\nb",
    "a\r\nb\r\n",
    "a\r\nb\r",
    "\n\na\n\n",
    "  a  b\tc\u{3000}d\u{a0} ",
    "|||a||b|",
    "||",
    "|",
    "\r\r\n\r",
    "中文 和 \u{2009}english",
    " \u{85}\u{2028} x",
];

#[test]
fn white_space_is_that_of_std() {
    for code_point in 0..=0x10FFFFu32 {
        if let Some(c) = char::from_u32(code_point) {
            assert_eq!(is_whitespace(c), c.is_whitespace(), "{code_point:#x}");
        }
    }
}

#[test]
fn lines_are_those_of_std() {
    for s in SAMPLES {
        let chars = to_chars(s);
        let expected: Vec<String> = s.lines().map(|l| l.to_string()).collect();
        assert_eq!(strings(&split_lines(&chars)), expected, "{s:?}");
    }
}

#[test]
fn words_are_those_of_std() {
    for s in SAMPLES {
        let chars = to_chars(s);
        let expected: Vec<String> = s.split_whitespace().map(|l| l.to_string()).collect();
        assert_eq!(strings(&split_whitespace(&chars)), expected, "{s:?}");
    }
}

#[test]
fn trimming_is_that_of_std() {
    for s in SAMPLES {
        let chars = to_chars(s);
        assert_eq!(to_text(trim(&chars)), s.trim(), "{s:?}");
        assert_eq!(to_text(trim_matches(&chars, '|')), s.trim_matches('|'), "{s:?}");
        let pieces: Vec<String> = s.split('|').map(|l| l.to_string()).collect();
        assert_eq!(strings(&split(&chars, '|')), pieces, "{s:?}");
    }
}

#[test]
fn searching_in_characters() {
    let text = to_chars("日本 **語**");
    assert!(starts_with(&text, &['日', '本']));
    assert!(!starts_with(&text, &['本']));
    assert_eq!(find(&text, &['*', '*']), Some(3));
    assert_eq!(find(&text, &['#']), None);
    assert_eq!(find(&text, &[]), Some(0));
    assert_eq!(find_char(&text, '語'), 5);
    assert_eq!(find_char(&text, '#'), text.len());
    assert_eq!(find_word_end(&text), 2);
    assert_eq!(repeat_char('─', 3), "───");
    assert_eq!(repeat_char('x', 0), "");
}

#[test]
fn empty_source_has_no_blocks() {
    check_blocks("", vec![]);
    check_blocks("\n", vec![Block::Blank]);
    check_blocks("\n\n", vec![Block::Blank, Block::Blank]);
}

#[test]
fn carriage_returns_before_line_breaks_are_dropped() {
    check_blocks("a\r\nb\r", vec![paragraph("a"), paragraph("b\r")]);
    check_blocks("a\r\n\r\nb", vec![paragraph("a"), Block::Blank, paragraph("b")]);
}

#[test]
fn heading_levels_go_from_one_to_six() {
    check_blocks("# one", vec![heading(1, "one"), Block::HeadingRule]);
    check_blocks("## two", vec![heading(2, "two")]);
    check_blocks("###### six", vec![heading(6, "six")]);
    check_blocks("####### seven", vec![paragraph("####### seven")]);
}

#[test]
fn heading_text_is_trimmed_and_not_blank() {
    check_blocks("  ##   spaced out  ", vec![heading(2, "spaced out")]);
    check_blocks("##tight", vec![heading(2, "tight")]);
    check_blocks("#", vec![paragraph("#")]);
    check_blocks("###   ", vec![paragraph("###   ")]);
    check_blocks("## # mixed", vec![heading(2, "# mixed")]);
    let chars = to_chars("### x");
    let (level, text) = parse_heading(&chars).unwrap();
    assert_eq!((level, to_text(text)), (3, "x".to_string()));
    assert!(parse_heading(&to_chars("x")).is_none());
}

#[test]
fn bullets_and_numbers_start_list_items() {
    check_blocks("- alpha  ", vec![item("-", "alpha")]);
    check_blocks("  * beta", vec![item("-", "beta")]);
    check_blocks("- ", vec![item("-", "")]);
    check_blocks("12.  twelve ", vec![item("12.", "twelve ")]);
    check_blocks("1. ", vec![item("1.", "")]);
    check_blocks("-alpha", vec![paragraph("-alpha")]);
    check_blocks("1.alpha", vec![paragraph("1.alpha")]);
    check_blocks("1.", vec![paragraph("1.")]);
    check_blocks("1) x", vec![paragraph("1) x")]);
    check_blocks("\u{663}. x", vec![paragraph("\u{663}. x")]);
    assert!(parse_list_item(&to_chars("123")).is_none());
    let chars = to_chars("7. x");
    let (bullet, text) = parse_list_item(&chars).unwrap();
    assert_eq!((bullet, to_text(text)), ("7.".to_string(), "x".to_string()));
}

#[test]
fn horizontal_rules_are_three_marks_of_one_kind() {
    for rule in ["---", "***", "___", "  ----  ", "_ _ _", "__\t_"] {
        check_blocks(rule, vec![Block::HorizontalRule]);
        assert!(is_horizontal_rule(&to_chars(rule)));
    }
    for other in ["--", "-*-", "___x"] {
        check_blocks(other, vec![paragraph(other)]);
        assert!(!is_horizontal_rule(&to_chars(other)));
    }
    // A dash or a star before a space is a bullet first.
    check_blocks("- - -", vec![item("-", "- -")]);
    check_blocks("* * *", vec![item("-", "* *")]);
    assert!(!is_horizontal_rule(&[]));
}

#[test]
fn table_rows_are_split_at_bars() {
    check_blocks("| a | b |", vec![row(&["a", "b"])]);
    check_blocks("  |a|b", vec![row(&["a", "b"])]);
    check_blocks("| a || b |", vec![row(&["a", "", "b"])]);
    check_blocks("||a||", vec![row(&["a"])]);
    check_blocks("a | b", vec![paragraph("a | b")]);
    assert_eq!(
        parse_table_row(&to_chars("| x | y")),
        Some(vec!["x".to_string(), "y".to_string()]),
    );
    assert_eq!(parse_table_row(&to_chars("x | y")), None);
}

#[test]
fn separator_rows_have_dashes_and_colons_alone() {
    for separator in ["|---|---|", "| :--: | - |", "|", "| |", "|--- ---|"] {
        check_blocks(separator, vec![Block::TableSeparator]);
        assert_eq!(parse_table_row(&to_chars(separator)), None);
    }
    check_blocks("|---|x|", vec![row(&["---", "x"])]);
    check_blocks("|-\t-|", vec![row(&["-\t-"])]);
}

#[test]
fn blank_is_an_empty_line_or_a_white_one() {
    check_blocks("a\n\nb", vec![paragraph("a"), Block::Blank, paragraph("b")]);
    check_blocks("   ", vec![Block::Blank]);
    check_blocks("a\n \t\u{3000}\nb", vec![paragraph("a"), Block::Blank, paragraph("b")]);
    check_blocks("   indented", vec![paragraph("indented")]);
}

#[test]
fn fences_are_dropped_and_code_is_kept_as_it_stands() {
    check_blocks(
        "  ```rust\n  # x\n\n| y |\n```\nz",
        vec![code("  # x"), code(""), code("| y |"), paragraph("z")],
    );
    check_blocks("a```", vec![paragraph("a```")]);
    check_blocks("````\nx\n````", vec![code("x")]);
}

#[test]
fn unclosed_code_block_runs_to_the_end() {
    check_blocks("a\n```\n- b\n# c", vec![paragraph("a"), code("- b"), code("# c")]);
}

#[test]
fn sources_can_be_parsed_in_parts() {
    let first = "# t\n```\nx\n```\n";
    let second = "- a\n| b |\n\n```\nopen";
    let mut blocks = parse(first).blocks().clone();
    blocks.extend(parse(second).blocks().clone());
    assert_eq!(*parse(&format!("{first}{second}")).blocks(), blocks);
}

#[test]
fn heading_rules_follow_titles_and_nothing_else() {
    let parsed = parse("# a\n## b\n# c\n---\ntext\n");
    let blocks = parsed.blocks();
    for (i, b) in blocks.iter().enumerate() {
        let below_title =
            i > 0 && matches!(&blocks[i - 1], Block::Heading { level, .. } if *level == 1);
        assert_eq!(matches!(b, Block::HeadingRule), below_title);
    }
    assert_eq!(blocks.len(), 7);
}

#[test]
fn clones_are_equal() {
    let parsed = parse("# a\n- b\n| c | d |\n|--|\n```\ne\n```\n\n---\nf");
    assert_eq!(parsed.clone(), parsed);
    assert_eq!(parsed.clone().blocks(), parsed.blocks());
}

#[test]
fn counting_goes_on_until_it_is_reset() {
    let mut invocations = ParseInvocations { count: 5 };
    let parsed = parse_counted("x", &mut invocations);
    assert_eq!(parsed, parse("x"));
    assert_eq!(parse_invocation_count(&invocations), 6);
    reset_parse_invocation_count(&mut invocations);
    assert_eq!(parse_invocation_count(&invocations), 0);
}
