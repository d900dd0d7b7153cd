use markdown_render::chars::to_chars;
use markdown_render::layout::{available_columns, measure_spans};
use markdown_render::width::{cells_or_one, char_display_width, column_advance};
use markdown_render::wrap::{
    measure_chars, plain_text, wrap_cell_text, wrap_cell_words, wrap_code_chars, wrap_code_line,
    wrap_text, wrap_words, CellWord, MeasuredWord,
};
use markdown_render::{Span, Style};
use unicode_width::{UnicodeWidthChar, UnicodeWidthStr};

fn measured_width(s: &str) -> usize {
    measure_spans(&[Span::styled(s.to_string(), Style::new())])[0].width
}

fn all_chars() -> Vec<char> {
    (0..=0x10FFFFu32).filter_map(char::from_u32).collect()
}

fn visible(s: &str) -> String {
    s.chars().filter(|c| !c.is_whitespace()).collect()
}

#[test]
fn characters_are_measured_as_documented() {
    for c in all_chars() {
        let measured = UnicodeWidthChar::width(c);
        let control = c < ' ' || ('\u{7f}'..'\u{a0}').contains(&c);
        assert_eq!(measured.is_none(), control, "{c:?}");
        assert!(measured.unwrap_or(1) <= 3, "{c:?}");
        if c != '\t' {
            assert_eq!(char_display_width(c, 3), measured.unwrap_or(1), "{c:?}");
        }
    }
}

#[test]
fn printable_ascii_takes_one_column() {
    let printable: String = (' '..='~').collect();
    assert_eq!(measured_width(&printable), printable.len());
    for c in ' '..='~' {
        assert_eq!(char_display_width(c, 0), 1);
        for d in ['#', '*', '0', 'a', ' '] {
            assert_eq!(measured_width(&format!("{c}{d}")), 2);
        }
    }
}

#[test]
fn wide_and_empty_characters_are_measured() {
    assert_eq!(char_display_width('中', 0), 2);
    assert_eq!(char_display_width('\u{301}', 0), 0);
    assert_eq!(char_display_width('\u{17d8}', 0), 3);
    assert_eq!(char_display_width('\u{7}', 0), 1);
    assert_eq!(char_display_width('\u{7f}', 9), 1);
}

#[test]
fn strings_are_measured_as_a_whole() {
    for s in ["", "abc", "中文", "e\u{301}", "👩\u{200d}👩\u{200d}👧", "❤\u{fe0f}", "a\r\nb"] {
        assert_eq!(measured_width(s), UnicodeWidthStr::width(s), "{s:?}");
    }
    assert_eq!(measured_width("中文"), 4);
    assert_eq!(measured_width("👩\u{200d}👩\u{200d}👧"), 2);
}

#[test]
fn missing_widths_count_as_one() {
    assert_eq!(cells_or_one(None), 1);
    assert_eq!(cells_or_one(Some(0)), 0);
    assert_eq!(cells_or_one(Some(2)), 2);
}

#[test]
fn tabs_go_to_the_next_stop() {
    for col in 0..32 {
        let step = char_display_width('\t', col);
        assert!(1 <= step && step <= 8);
        assert_eq!((col + step) % 8, 0);
        assert_eq!(column_advance('\t', 1, col), step);
    }
    assert_eq!(column_advance('x', 2, 7), 2);
    assert_eq!(char_display_width('\t', usize::MAX), 1);
}

#[test]
fn measured_text_keeps_its_characters() {
    let measured = measure_chars("a中\u{7}");
    assert_eq!(measured, vec![('a', 1), ('中', 2), ('\u{7}', 1)]);
    assert_eq!(plain_text(&measured), "a中\u{7}");
}

#[test]
fn code_is_cut_where_the_next_character_does_not_fit() {
    assert_eq!(wrap_code_line("中中中", 5), vec!["中中", "中"]);
    assert_eq!(wrap_code_line("中中", 1), vec!["中", "中"]);
    assert_eq!(wrap_code_line("a中b", 2), vec!["a", "中", "b"]);
    assert_eq!(wrap_code_line("abc", 0), vec!["abc"]);
    assert_eq!(wrap_code_line("", 0), vec![""]);
    assert_eq!(wrap_code_line("e\u{301}e\u{301}", 1), vec!["e\u{301}", "e\u{301}"]);
}

#[test]
fn a_tab_that_begins_a_line_reaches_its_first_stop() {
    assert_eq!(wrap_code_line("abcdefghi\tabc", 10), vec!["abcdefghi", "\tab", "c"]);
    assert_eq!(wrap_code_line("abcd\tx", 9), vec!["abcd\tx"]);
    assert_eq!(wrap_code_line("abcd\txy", 9), vec!["abcd\tx", "y"]);
    assert_eq!(wrap_code_line("\t\t", 4), vec!["\t", "\t"]);
}

#[test]
fn code_wraps_as_it_was_measured() {
    let line = [('a', 3), ('b', 3), ('c', 1)];
    assert_eq!(wrap_code_chars(&line, 6), vec!["ab", "c"]);
    assert_eq!(wrap_code_chars(&line, 2), vec!["a", "b", "c"]);
    assert_eq!(wrap_code_chars(&[('a', usize::MAX), ('b', 1)], 6), vec!["a", "b"]);
}

#[test]
fn no_character_of_code_is_lost() {
    let line = "\tif (x) {  中文\t// tab \u{7} and  spaces  ";
    for width in 0..30 {
        let chunks = wrap_code_line(line, width);
        assert_eq!(chunks.concat(), line);
        if width >= 8 {
            for chunk in &chunks {
                let mut col = 0;
                for c in chunk.chars() {
                    col += char_display_width(c, col);
                }
                assert!(col <= width, "{chunk:?} at {width}");
            }
        }
    }
}

#[test]
fn prose_is_filled_word_by_word() {
    assert_eq!(wrap_text("ab cd", 5), vec!["ab cd"]);
    assert_eq!(wrap_text("ab cd", 4), vec!["ab", "cd"]);
    assert_eq!(wrap_text("  a \t b ", 10), vec!["a b"]);
    assert_eq!(wrap_text("aaaaaaa b", 3), vec!["aaaaaaa", "b"]);
    assert_eq!(wrap_text("", 3), vec![""]);
    assert_eq!(wrap_text("   ", 3), vec![""]);
    assert_eq!(wrap_text(" a  b ", 0), vec![" a  b "]);
    assert_eq!(wrap_text("中文 ab", 6), vec!["中文", "ab"]);
    assert_eq!(wrap_text("中文 ab", 7), vec!["中文 ab"]);
}

#[test]
fn prose_wraps_as_it_was_measured() {
    let word = |text: &str, width: usize| MeasuredWord { text: text.to_string(), width };
    assert_eq!(wrap_words(&[word("a", 4), word("b", 1)], 6), vec!["a b"]);
    assert_eq!(wrap_words(&[word("a", 4), word("b", 2)], 6), vec!["a", "b"]);
    assert_eq!(wrap_words(&[word("a", 0), word("b", usize::MAX)], 6), vec!["a", "b"]);
    assert_eq!(wrap_words(&[], 6), vec![""]);
}

#[test]
fn no_word_of_prose_is_lost() {
    let text = "one two  three 四 five-hundred sixty 七七七 eight";
    let words: Vec<&str> = text.split_whitespace().collect();
    for width in 1..40 {
        let lines = wrap_text(text, width);
        let found: Vec<&str> = lines.iter().flat_map(|l| l.split_whitespace()).collect();
        assert_eq!(found, words);
        for line in &lines {
            assert!(measured_width(line) <= width || !line.contains(' '));
        }
    }
}

#[test]
fn cells_prefer_to_break_at_white_space() {
    assert_eq!(wrap_cell_text("hello world", 11), vec!["hello world"]);
    assert_eq!(wrap_cell_text("hello world", 5), vec!["hello", "world"]);
    assert_eq!(wrap_cell_text("a  b", 10), vec!["a  b"]);
    assert_eq!(wrap_cell_text("a  b c d", 5), vec!["a b c", "d"]);
    assert_eq!(wrap_cell_text("", 4), vec![""]);
    assert_eq!(wrap_cell_text("     ", 2), vec![""]);
}

#[test]
fn words_wider_than_the_column_are_broken() {
    assert_eq!(wrap_cell_text("abcdefghij", 4), vec!["abcd", "efgh", "ij"]);
    assert_eq!(wrap_cell_text("ab cdefgh ij", 4), vec!["ab", "cdef", "gh", "ij"]);
    assert_eq!(wrap_cell_text("abcdef g", 4), vec!["abcd", "ef g"]);
    assert_eq!(wrap_cell_text("中中中", 5), vec!["中中", "中"]);
    assert_eq!(wrap_cell_text("ab", 0), vec!["a", "b"]);
    assert_eq!(wrap_cell_text("中a", 1), vec!["中", "a"]);
}

#[test]
fn only_words_wider_than_the_column_are_broken() {
    let cell = "a few 中文 words and one-rather-long-word of various lengths";
    for col_width in 1..60 {
        let lines = wrap_cell_text(cell, col_width);
        for word in cell.split_whitespace() {
            if measured_width(word) <= col_width {
                assert!(lines.iter().any(|l| l.contains(word)), "{word:?} at {col_width}");
            }
        }
    }
}

#[test]
fn cells_wrap_as_they_were_measured() {
    let word = |text: &str, width: usize| CellWord {
        chars: to_chars(text).into_iter().map(|c| (c, 1)).collect(),
        width,
    };
    assert_eq!(wrap_cell_words(&[word("ab", 2), word("cd", 1)], 4), vec!["ab cd"]);
    assert_eq!(wrap_cell_words(&[word("ab", 2), word("cd", 2)], 4), vec!["ab", "cd"]);
    assert_eq!(wrap_cell_words(&[word("abc", 9)], 2), vec!["ab", "c"]);
    // Nothing separates a word from one that takes no columns.
    assert_eq!(wrap_cell_words(&[word("ab", 0), word("cd", 2)], 4), vec!["abcd"]);
    assert_eq!(wrap_cell_words(&[], 4), vec![""]);
}

#[test]
fn no_text_of_a_cell_is_lost() {
    let cell = "Drop a .deepseek/commands/foo.md in any project — 中文 too";
    for col_width in 0..70 {
        let lines = wrap_cell_text(cell, col_width);
        assert!(!lines.is_empty());
        assert_eq!(visible(&lines.concat()), visible(cell));
        if col_width >= 2 {
            for line in &lines {
                assert!(measured_width(line) <= col_width, "{line:?} at {col_width}");
            }
        }
    }
}

#[test]
fn one_column_is_always_left() {
    assert_eq!(available_columns(10, 3), 7);
    assert_eq!(available_columns(3, 3), 1);
    assert_eq!(available_columns(0, 3), 1);
}
