use markdown_render::chars::to_chars;
use markdown_render::layout::{
    hang_lines, indent_lines, lay_out_words, render_line_with_links, render_list_line,
    render_wrapped_line_tagged, split_spans, MeasuredSpan,
};
use markdown_render::markup::{find_next_marker, parse_inline_spans, wrap_link};
use markdown_render::style::{
    bullet_style, code_block_style, heading_style, link_style, rule_style, BOLD, CROSSED_OUT,
    ITALIC, UNDERLINED,
};
use markdown_render::{Color, Line, Palette, RenderOptions, Span, Style};
use ratatui::style::Modifier;

const PALETTE: Palette = Palette {
    sky: Color::LightCyan,
    blue: Color::Blue,
    text_dim: Color::Gray,
    surface_elevated: Color::Rgb(20, 20, 40),
};

fn with_links(osc8: bool) -> RenderOptions {
    RenderOptions { osc8, palette: PALETTE }
}

fn base() -> Style {
    Style::new().fg(Color::White)
}

fn spans_of(line: &str, osc8: bool) -> Vec<(String, Style)> {
    parse_inline_spans(line, base(), link_style(PALETTE), with_links(osc8))
        .into_iter()
        .map(|s| (s.content, s.style))
        .collect()
}

fn plain(text: &str) -> (String, Style) {
    (text.to_string(), base())
}

fn bold(text: &str) -> (String, Style) {
    (text.to_string(), base().add_modifier(BOLD))
}

fn italic(text: &str) -> (String, Style) {
    (text.to_string(), base().add_modifier(ITALIC))
}

fn inline_code(text: &str) -> (String, Style) {
    (text.to_string(), base().add_modifier(ITALIC).bg(PALETTE.surface_elevated))
}

fn struck(text: &str) -> (String, Style) {
    (text.to_string(), base().add_modifier(CROSSED_OUT))
}

fn link(text: &str) -> (String, Style) {
    (text.to_string(), link_style(PALETTE))
}

fn shown(line: &Line) -> String {
    line.spans.iter().map(|s| s.content.as_str()).collect()
}

fn flow(line: &str, width: usize) -> Vec<Line> {
    render_line_with_links(line, width, base(), link_style(PALETTE), with_links(false))
}

fn flow_texts(line: &str, width: usize) -> Vec<String> {
    flow(line, width).iter().map(shown).collect()
}

#[test]
fn modifiers_have_the_bits_of_the_terminal_library() {
    assert_eq!(BOLD, Modifier::BOLD.bits());
    assert_eq!(ITALIC, Modifier::ITALIC.bits());
    assert_eq!(UNDERLINED, Modifier::UNDERLINED.bits());
    assert_eq!(CROSSED_OUT, Modifier::CROSSED_OUT.bits());
}

#[test]
fn styles_change_one_thing_at_a_time() {
    assert_eq!(Style::default(), Style::new());
    let style = Style { sub_modifier: BOLD | ITALIC, ..Style::new() };
    let bolder = style.add_modifier(BOLD).fg(Color::Red).bg(Color::Black);
    assert_eq!(
        bolder,
        Style {
            fg: Some(Color::Red),
            bg: Some(Color::Black),
            underline_color: None,
            add_modifier: BOLD,
            sub_modifier: ITALIC,
        },
    );
}

#[test]
fn styles_of_the_parts() {
    assert_eq!(link_style(PALETTE), Style::new().fg(Color::Blue).add_modifier(UNDERLINED));
    assert_eq!(heading_style(PALETTE), Style::new().fg(Color::LightCyan).add_modifier(BOLD));
    assert_eq!(code_block_style(PALETTE), Style::new().fg(Color::LightCyan).add_modifier(ITALIC));
    assert_eq!(bullet_style(PALETTE), Style::new().fg(Color::LightCyan));
    assert_eq!(rule_style(PALETTE), Style::new().fg(Color::Gray));
}

#[test]
fn markers_are_found_by_character() {
    assert_eq!(find_next_marker(&to_chars("中文 **x")), 3);
    assert_eq!(find_next_marker(&to_chars("a_b")), 1);
    assert_eq!(find_next_marker(&to_chars("`")), 0);
    assert_eq!(find_next_marker(&to_chars("ab[")), 2);
    assert_eq!(find_next_marker(&to_chars("a~b~~")), 3);
    assert_eq!(find_next_marker(&to_chars("see https://x")), 4);
    assert_eq!(find_next_marker(&to_chars("http x")), 6);
    assert_eq!(find_next_marker(&[]), 0);
}

#[test]
fn inline_text_without_markers_is_one_span() {
    assert_eq!(spans_of("just text ~ here", false), vec![plain("just text ~ here")]);
    assert_eq!(spans_of("", false), vec![]);
}

#[test]
fn inline_markers_are_dropped_and_styled() {
    assert_eq!(spans_of("a **b** c", false), vec![plain("a "), bold("b"), plain(" c")]);
    assert_eq!(spans_of("__b__", false), vec![bold("b")]);
    assert_eq!(spans_of("*i* _i_", false), vec![italic("i"), plain(" "), italic("i")]);
    assert_eq!(spans_of("x `c*d` y", false), vec![plain("x "), inline_code("c*d"), plain(" y")]);
    assert_eq!(spans_of("~~s~~!", false), vec![struck("s"), plain("!")]);
    assert_eq!(spans_of("**a*b**", false), vec![bold("a*b")]);
    assert_eq!(spans_of("a_b_c", false), vec![plain("a"), italic("b"), plain("c")]);
    assert_eq!(spans_of("****", false), vec![bold("")]);
    assert_eq!(spans_of("``", false), vec![inline_code("")]);
}

#[test]
fn unclosed_markers_are_text() {
    assert_eq!(spans_of("**open", false), vec![plain("*"), plain("*"), plain("open")]);
    assert_eq!(spans_of("*", false), vec![plain("*")]);
    assert_eq!(spans_of("_x", false), vec![plain("_"), plain("x")]);
    assert_eq!(spans_of("`x", false), vec![plain("`"), plain("x")]);
    assert_eq!(spans_of("~~x", false), vec![plain("~"), plain("~x")]);
    assert_eq!(spans_of("[x](y", false), vec![plain("["), plain("x](y")]);
    assert_eq!(spans_of("[x] (y)", false), vec![plain("["), plain("x] (y)")]);
}

#[test]
fn links_are_written_in_two_ways() {
    assert_eq!(spans_of("[t](u)!", false), vec![link("t (u)"), plain("!")]);
    assert_eq!(
        spans_of("[t](u)!", true),
        vec![link("\u{1b}]8;;u\u{1b}\\t\u{1b}]8;;\u{1b}\\"), plain("!")],
    );
    assert_eq!(spans_of("[](x)", false), vec![link(" (x)")]);
    assert_eq!(
        wrap_link(&to_chars("target"), &to_chars("label")),
        "\u{1b}]8;;target\u{1b}\\label\u{1b}]8;;\u{1b}\\",
    );
}

#[test]
fn bare_urls_reach_up_to_white_space() {
    assert_eq!(
        spans_of("see http://x.y/_z_\u{3000}now", false),
        vec![plain("see "), link("http://x.y/_z_"), plain("\u{3000}now")],
    );
    assert_eq!(
        spans_of("https://x", true),
        vec![link("\u{1b}]8;;https://x\u{1b}\\https://x\u{1b}]8;;\u{1b}\\")],
    );
    assert_eq!(spans_of("http:/x", false), vec![plain("http:/x")]);
}

#[test]
fn spans_are_cut_at_every_space() {
    let words: Vec<String> = split_spans(&[
        Span::raw("a  b".to_string()),
        Span::raw("c ".to_string()),
        Span::raw(String::new()),
    ])
    .into_iter()
    .map(|s| s.content)
    .collect();
    assert_eq!(words, vec!["a", " ", " ", "b", "c", " "]);
}

#[test]
fn paragraphs_break_between_words() {
    assert_eq!(flow_texts("alpha beta gamma", 10), vec!["alpha beta", "gamma"]);
    assert_eq!(flow_texts("alpha beta gamma", 6), vec!["alpha", "beta", "gamma"]);
    assert_eq!(flow_texts("alpha beta gamma", 1), vec!["alpha", "beta", "gamma"]);
    assert_eq!(flow_texts("alpha beta gamma", 80), vec!["alpha beta gamma"]);
    assert_eq!(flow_texts("中文 ab", 6), vec!["中文", "ab"]);
    assert_eq!(flow_texts("  a", 10), vec!["a"]);
    assert_eq!(flow_texts("a  b", 10), vec!["a  b"]);
    assert_eq!(flow_texts("ab**cd**", 3), vec!["ab", "cd"]);
}

#[test]
fn blank_paragraphs_are_one_empty_line() {
    assert_eq!(flow("   ", 10), vec![Line { spans: vec![] }]);
    assert_eq!(flow("", 10), vec![Line { spans: vec![] }]);
}

#[test]
fn spaces_between_words_have_the_default_style() {
    let lines = flow("**a b**", 10);
    assert_eq!(lines.len(), 1);
    assert_eq!(
        lines[0].spans,
        vec![
            Span::styled("a".to_string(), base().add_modifier(BOLD)),
            Span::raw(" ".to_string()),
            Span::styled("b".to_string(), base().add_modifier(BOLD)),
        ],
    );
}

#[test]
fn words_are_laid_out_as_they_were_measured() {
    let word = |text: &str, width: usize| MeasuredSpan { span: Span::raw(text.to_string()), width };
    let texts = |words: Vec<MeasuredSpan>, width: usize| -> Vec<String> {
        lay_out_words(words, width).iter().map(shown).collect()
    };
    assert_eq!(texts(vec![word("a", 3), word(" ", 1), word("b", 2)], 6), vec!["a b"]);
    assert_eq!(texts(vec![word("a", 3), word(" ", 1), word("b", 3)], 6), vec!["a", "b"]);
    assert_eq!(texts(vec![word("a", 0), word("b", 9)], 6), vec!["ab"]);
    assert_eq!(texts(vec![word(" ", 1)], 6), vec![""]);
    assert_eq!(texts(vec![], 6), vec![""]);
}

#[test]
fn another_width_shows_the_same_words() {
    let line = "some **bold words** and a [link](http://e.org) in `some code` 中文";
    let inked = |width: usize| -> Vec<(String, Style)> {
        flow(line, width)
            .into_iter()
            .flat_map(|l| l.spans)
            .filter(|s| s.content != " ")
            .map(|s| (s.content, s.style))
            .collect()
    };
    let wide = inked(200);
    for width in 1..60 {
        assert_eq!(inked(width), wide);
        for l in flow(line, width) {
            assert!(!shown(&l).starts_with(' '));
        }
    }
}

#[test]
fn list_items_hang_beside_their_bullet() {
    let lines = render_list_line(
        "10.",
        "alpha beta",
        9,
        bullet_style(PALETTE),
        base(),
        with_links(false),
    );
    let texts: Vec<String> = lines.iter().map(shown).collect();
    assert_eq!(texts, vec!["10. alpha", "    beta"]);
    assert_eq!(lines[0].spans[0].style, bullet_style(PALETTE));
    assert_eq!(lines[1].spans[0].style, Style::new());
    assert_eq!(lines[1].spans[1].style, base());
    let empty = render_list_line("-", "", 9, bullet_style(PALETTE), base(), with_links(false));
    assert_eq!(empty.iter().map(shown).collect::<Vec<String>>(), vec!["- "]);
}

#[test]
fn hanging_takes_the_width_it_is_given() {
    let line = |text: &str| Line::of_span(Span::raw(text.to_string()));
    let hung = hang_lines(vec![line("a"), line("b"), line("c")], "* ", 3, base());
    let texts: Vec<String> = hung.iter().map(shown).collect();
    assert_eq!(texts, vec!["* a", "   b", "   c"]);
}

#[test]
fn code_is_indented_by_two_columns() {
    let style = code_block_style(PALETTE);
    let lines = render_wrapped_line_tagged("  abcdef", 6, style, true, true);
    let texts: Vec<String> = lines.iter().map(|l| shown(&l.line)).collect();
    assert_eq!(texts, vec!["    ab", "  cdef"]);
    for l in &lines {
        assert!(l.is_code);
        assert_eq!(l.line.spans[0], Span::raw("  ".to_string()));
        assert_eq!(l.line.spans[1].style, style);
    }
    let narrow = render_wrapped_line_tagged("ab", 1, style, true, false);
    assert_eq!(narrow.len(), 2);
    assert!(!narrow[0].is_code);
}

#[test]
fn headings_are_not_indented() {
    let lines = render_wrapped_line_tagged("a  long title", 6, heading_style(PALETTE), false, false);
    let texts: Vec<String> = lines.iter().map(|l| shown(&l.line)).collect();
    assert_eq!(texts, vec!["a long", "title"]);
    assert_eq!(lines[0].line.spans[0], Span::raw(String::new()));
    let indented = indent_lines(vec!["x".to_string()], 3, base(), true);
    assert_eq!(shown(&indented[0].line), "   x");
    assert!(indented[0].is_code);
}
