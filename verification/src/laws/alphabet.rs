//! Laws of what a rendering is written with: a character that stands neither in
//! the source nor among those that the renderer draws is not in the rendering.
use vstd::prelude::*;

use crate::block;
use crate::chars;
use crate::layout;
use crate::markup;
use crate::render;
use crate::style::{link_style, RenderOptions, Style};
use crate::table;
use crate::text;
use crate::width;
use crate::wrap;

verus! {

/// Whether `c` does not occur in `s`.
pub open spec fn lacks(s: Seq<char>, c: char) -> bool {
    forall|i: int| 0 <= i < s.len() ==> #[trigger] s[i] != c
}

/// Whether `c` occurs in none of the texts.
pub open spec fn all_lack(texts: Seq<Seq<char>>, c: char) -> bool {
    forall|i: int| 0 <= i < texts.len() ==> lacks(#[trigger] texts[i], c)
}

/// Whether `c` does not occur in what a block says.
pub open spec fn block_lacks(b: block::BlockView, c: char) -> bool {
    match b {
        block::BlockView::Heading { level, text } => lacks(text, c),
        block::BlockView::ListItem { bullet, text } => lacks(bullet, c) && lacks(text, c),
        block::BlockView::Code { line } => lacks(line, c),
        block::BlockView::TableRow(cells) => all_lack(cells, c),
        block::BlockView::Paragraph { text } => lacks(text, c),
        _ => true,
    }
}

/// Whether `c` does not occur in what blocks say.
pub open spec fn blocks_lack(blocks: Seq<block::BlockView>, c: char) -> bool {
    forall|i: int| 0 <= i < blocks.len() ==> block_lacks(#[trigger] blocks[i], c)
}

/// Whether `c` occurs in none of the spans.
pub open spec fn spans_lack(spans: Seq<text::SpanView>, c: char) -> bool {
    forall|i: int| 0 <= i < spans.len() ==> lacks((#[trigger] spans[i]).content, c)
}

/// Whether `c` occurs on none of the lines.
pub open spec fn lines_lack(lines: Seq<Seq<text::SpanView>>, c: char) -> bool {
    forall|i: int| 0 <= i < lines.len() ==> spans_lack(#[trigger] lines[i], c)
}

/// Whether `c` occurs on none of the rendered lines.
pub open spec fn rendering_lacks(lines: Seq<text::RenderedView>, c: char) -> bool {
    forall|i: int| 0 <= i < lines.len() ==> spans_lack((#[trigger] lines[i]).line, c)
}

/// The characters that bullets, indentation and plain links are written with.
pub open spec fn is_plain_mark(c: char) -> bool {
    c == ' ' || c == '(' || c == ')' || c == '-' || c == '.'
}

/// The characters that rules and tables are drawn with.
pub open spec fn is_box_drawing(c: char) -> bool {
    '\u{2500}' <= c <= '\u{257F}'
}

/// The characters that OSC 8 links are written with, besides their target and
/// their label.
pub open spec fn is_osc8_mark(c: char) -> bool {
    c == '\u{1b}' || c == ']' || c == '8' || c == ';' || c == '\\'
}

/// The characters that inline text is written with, besides those of its source.
pub open spec fn is_inline_mark(c: char, options: RenderOptions) -> bool {
    is_plain_mark(c) || (options.osc8 && is_osc8_mark(c))
}

/// The characters that the renderer writes of its own accord.
pub open spec fn is_drawn(c: char, options: RenderOptions) -> bool {
    is_inline_mark(c, options) || is_box_drawing(c)
}

// ---------------------------------------------------------------------------
// Pieces of text

proof fn lemma_trimmed_lacks(s: Seq<char>, c: char)
    requires
        lacks(s, c),
    ensures
        lacks(chars::trimmed_start(s), c),
        lacks(chars::trimmed(s), c),
{
    chars::lemma_trimmed_start(s);
    let t = chars::trimmed_start(s);
    let k = s.len() - t.len();
    assert forall|i: int| 0 <= i < t.len() implies #[trigger] t[i] != c by {
        assert(t[i] == s[i + k]);
    }
    chars::lemma_trimmed_end(t);
    let u = chars::trimmed_end(t);
    assert forall|i: int| 0 <= i < u.len() implies #[trigger] u[i] != c by {
        assert(u[i] == t[i]);
    }
}

proof fn lemma_stripped_start_lacks(s: Seq<char>, m: char, c: char)
    requires
        lacks(s, c),
    ensures
        lacks(chars::stripped_start(s, m), c),
    decreases s.len(),
{
    if s.len() > 0 && s[0] == m {
        assert forall|i: int| 0 <= i < s.skip(1).len() implies #[trigger] s.skip(1)[i] != c by {
            assert(s.skip(1)[i] == s[i + 1]);
        }
        lemma_stripped_start_lacks(s.skip(1), m, c);
    }
}

proof fn lemma_stripped_end_lacks(s: Seq<char>, m: char, c: char)
    requires
        lacks(s, c),
    ensures
        lacks(chars::stripped_end(s, m), c),
    decreases s.len(),
{
    if s.len() > 0 && s.last() == m {
        assert forall|i: int| 0 <= i < s.drop_last().len() implies #[trigger] s.drop_last()[i]
            != c by {
            assert(s.drop_last()[i] == s[i]);
        }
        lemma_stripped_end_lacks(s.drop_last(), m, c);
    }
}

proof fn lemma_part_lacks(s: Seq<char>, from: int, to: int, c: char)
    requires
        lacks(s, c),
        0 <= from <= to <= s.len(),
    ensures
        lacks(s.subrange(from, to), c),
        lacks(s.skip(from), c),
        lacks(s.take(to), c),
{
    assert forall|i: int| 0 <= i < to - from implies #[trigger] s.subrange(from, to)[i] != c by {
        assert(s.subrange(from, to)[i] == s[i + from]);
    }
    assert forall|i: int| 0 <= i < s.len() - from implies #[trigger] s.skip(from)[i] != c by {
        assert(s.skip(from)[i] == s[i + from]);
    }
    assert forall|i: int| 0 <= i < to implies #[trigger] s.take(to)[i] != c by {
        assert(s.take(to)[i] == s[i]);
    }
}

proof fn lemma_concat_lacks(a: Seq<char>, b: Seq<char>, c: char)
    requires
        lacks(a, c),
        lacks(b, c),
    ensures
        lacks(a + b, c),
{
    assert forall|i: int| 0 <= i < (a + b).len() implies #[trigger] (a + b)[i] != c by {
        if i < a.len() {
            assert((a + b)[i] == a[i]);
        } else {
            assert((a + b)[i] == b[i - a.len()]);
        }
    }
}

proof fn lemma_first_and_rest_lack(first: Seq<char>, rest: Seq<Seq<char>>, c: char)
    requires
        lacks(first, c),
        all_lack(rest, c),
    ensures
        all_lack(seq![first] + rest, c),
{
    let all = seq![first] + rest;
    assert forall|i: int| 0 <= i < all.len() implies lacks(#[trigger] all[i], c) by {
        if i > 0 {
            assert(all[i] == rest[i - 1]);
        }
    }
}

proof fn lemma_pieces_lack(s: Seq<char>, m: char, c: char)
    requires
        lacks(s, c),
    ensures
        all_lack(chars::split_pieces(s, m), c),
    decreases s.len(),
{
    chars::lemma_first_index(s, m);
    let n = chars::first_index(s, m) as int;
    if n < s.len() {
        lemma_part_lacks(s, n + 1, s.len() as int, c);
        lemma_part_lacks(s, 0, n, c);
        lemma_pieces_lack(s.skip(n + 1), m, c);
        lemma_first_and_rest_lack(s.take(n), chars::split_pieces(s.skip(n + 1), m), c);
    }
}

proof fn lemma_words_lack(s: Seq<char>, c: char)
    requires
        lacks(s, c),
    ensures
        all_lack(chars::words_of(s), c),
    decreases s.len(),
{
    let t = chars::trimmed_start(s);
    chars::lemma_trimmed_start(s);
    lemma_trimmed_lacks(s, c);
    chars::lemma_word_len(t);
    let n = chars::word_len(t) as int;
    if t.len() > 0 {
        lemma_part_lacks(t, n, t.len() as int, c);
        lemma_part_lacks(t, 0, n, c);
        lemma_words_lack(t.skip(n), c);
        lemma_first_and_rest_lack(t.take(n), chars::words_of(t.skip(n)), c);
    }
}

/// A character that is not in a source is on none of its lines.
proof fn lemma_lines_lack(s: Seq<char>, c: char)
    requires
        lacks(s, c) || c == '\n',
    ensures
        all_lack(chars::lines_of(s), c),
    decreases s.len(),
{
    chars::lemma_first_index(s, '\n');
    let n = chars::first_index(s, '\n') as int;
    if s.len() > 0 && n < s.len() {
        let line = s.take(n);
        assert forall|i: int| 0 <= i < line.len() implies #[trigger] line[i] != c by {
            assert(line[i] == s[i]);
        }
        assert(lacks(chars::without_cr(line), c)) by {
            if line.len() > 0 {
                lemma_part_lacks(line, 0, line.len() - 1, c);
                assert(line.drop_last() == line.take(line.len() - 1));
            }
        }
        if lacks(s, c) {
            lemma_part_lacks(s, n + 1, s.len() as int, c);
        }
        lemma_lines_lack(s.skip(n + 1), c);
        lemma_first_and_rest_lack(
            chars::without_cr(line),
            chars::lines_of(s.skip(n + 1)),
            c,
        );
    } else if s.len() > 0 {
        assert(lacks(s, c));
    }
}

// ---------------------------------------------------------------------------
// Parsing

proof fn lemma_digits_len(s: Seq<char>)
    ensures
        block::digits_len(s) <= s.len(),
    decreases s.len(),
{
    if s.len() > 0 && block::is_digit(s[0]) {
        lemma_digits_len(s.skip(1));
    }
}

proof fn lemma_line_blocks_lack(line: Seq<char>, c: char)
    requires
        lacks(line, c),
        !is_plain_mark(c),
    ensures
        blocks_lack(block::blocks_of_line(line), c),
{
    let t = chars::trimmed_start(line);
    lemma_trimmed_lacks(line, c);
    lemma_trimmed_lacks(t, c);
    let tt = chars::trimmed_start(t);
    // headings
    lemma_stripped_start_lacks(tt, '#', c);
    lemma_trimmed_lacks(chars::stripped_start(tt, '#'), c);
    // list items
    if tt.len() >= 2 {
        lemma_part_lacks(tt, 2, tt.len() as int, c);
        lemma_trimmed_lacks(tt.skip(2), c);
    }
    lemma_digits_len(tt);
    let n = block::digits_len(tt) as int;
    lemma_part_lacks(tt, 0, n, c);
    lemma_concat_lacks(tt.take(n), seq!['.'], c);
    assert(tt.take(n).push('.') == tt.take(n) + seq!['.']);
    if n + 1 <= tt.len() {
        lemma_part_lacks(tt, n + 1, tt.len() as int, c);
        lemma_trimmed_lacks(tt.skip(n + 1), c);
    }
    // table rows
    lemma_stripped_start_lacks(t, '|', c);
    lemma_stripped_end_lacks(chars::stripped_start(t, '|'), '|', c);
    lemma_pieces_lack(chars::stripped(t, '|'), '|', c);
    let pieces = chars::split_pieces(chars::stripped(t, '|'), '|');
    let cells = block::cells_of(t);
    assert forall|i: int| 0 <= i < cells.len() implies lacks(#[trigger] cells[i], c) by {
        assert(lacks(pieces[i], c));
        lemma_trimmed_lacks(pieces[i], c);
    }
    let blocks = block::blocks_of_line(line);
    if block::list_item_of(t) is Some {
        assert(lacks((block::list_item_of(t)->0).0, c));
        assert(lacks((block::list_item_of(t)->0).1, c)) by {
            if !(seq!['-', ' '].is_prefix_of(tt) || seq!['*', ' '].is_prefix_of(tt)) {
                assert(seq!['.', ' '].is_prefix_of(tt.skip(n)));
            }
        }
    }
    assert forall|i: int| 0 <= i < blocks.len() implies block_lacks(#[trigger] blocks[i], c) by {}
}

proof fn lemma_blocks_lack(lines: Seq<Seq<char>>, c: char)
    requires
        all_lack(lines, c),
        !is_plain_mark(c),
    ensures
        blocks_lack(block::blocks_of(lines), c),
    decreases lines.len(),
{
    if lines.len() > 0 {
        let init = lines.drop_last();
        assert forall|i: int| 0 <= i < init.len() implies lacks(#[trigger] init[i], c) by {
            assert(init[i] == lines[i]);
        }
        lemma_blocks_lack(init, c);
        let line = lines.last();
        assert(lacks(lines[lines.len() - 1], c));
        lemma_line_blocks_lack(line, c);
        let before = block::blocks_of(init);
        let part = block::blocks_of_line(line);
        let all = block::blocks_of(lines);
        assert forall|i: int| 0 <= i < all.len() implies block_lacks(#[trigger] all[i], c) by {
            if i < before.len() {
                assert(all[i] == before[i]);
            } else if block::in_code(init) {
                assert(all[i] == (block::BlockView::Code { line }));
            } else {
                assert(all[i] == part[i - before.len()]);
            }
        }
    }
}

/// The blocks of a source say nothing that is not in its lines, but for the dash
/// and the full stop of bullets.
pub proof fn law_blocks_say_what_the_source_says(content: Seq<char>, c: char)
    requires
        lacks(content, c) || c == '\n',
        !is_plain_mark(c),
    ensures
        blocks_lack(block::parsed(content), c),
{
    lemma_lines_lack(content, c);
    lemma_blocks_lack(chars::lines_of(content), c);
}

// ---------------------------------------------------------------------------
// Wrapping

proof fn lemma_text_of_lacks(s: Seq<(char, usize)>, from: int, to: int, c: char)
    requires
        lacks(wrap::text_of(s), c),
        0 <= from <= to <= s.len(),
    ensures
        lacks(wrap::text_of(s.subrange(from, to)), c),
        lacks(wrap::text_of(s.take(to)), c),
        lacks(wrap::text_of(s.skip(from)), c),
{
    let t = wrap::text_of(s);
    lemma_part_lacks(t, from, to, c);
    assert(wrap::text_of(s.subrange(from, to)) == t.subrange(from, to));
    assert(wrap::text_of(s.take(to)) == t.take(to));
    assert(wrap::text_of(s.skip(from)) == t.skip(from));
}

proof fn lemma_code_chunks_lack(s: Seq<(char, usize)>, width: nat, c: char)
    requires
        lacks(wrap::text_of(s), c),
    ensures
        all_lack(wrap::code_chunks(s, width), c),
    decreases s.len(),
{
    if s.len() > 0 {
        let n = wrap::chunk_len(s, 0, width) as int;
        wrap::lemma_chunk_len(s, 0, width);
        lemma_text_of_lacks(s, n, s.len() as int, c);
        lemma_text_of_lacks(s, 0, n, c);
        lemma_code_chunks_lack(s.skip(n), width, c);
        lemma_first_and_rest_lack(
            wrap::text_of(s.take(n)),
            wrap::code_chunks(s.skip(n), width),
            c,
        );
    }
}

/// Whether `c` occurs in none of the words.
spec fn words_lack(words: Seq<wrap::WordView>, c: char) -> bool {
    forall|i: int| 0 <= i < words.len() ==> lacks((#[trigger] words[i]).text, c)
}

proof fn lemma_joined_lacks(words: Seq<wrap::WordView>, c: char)
    requires
        words_lack(words, c),
        c != ' ',
    ensures
        lacks(wrap::joined(words), c),
    decreases words.len(),
{
    if words.len() > 0 {
        assert(lacks(words[words.len() - 1].text, c));
        assert(lacks(words[0].text, c));
        if words.len() > 1 {
            let init = words.drop_last();
            assert forall|i: int| 0 <= i < init.len() implies lacks(
                (#[trigger] init[i]).text,
                c,
            ) by {
                assert(init[i] == words[i]);
            }
            lemma_joined_lacks(init, c);
            lemma_concat_lacks(wrap::joined(init), seq![' '], c);
            assert(wrap::joined(init).push(' ') == wrap::joined(init) + seq![' ']);
            lemma_concat_lacks(wrap::joined(init).push(' '), words.last().text, c);
        }
    }
}

proof fn lemma_filled_lacks(words: Seq<wrap::WordView>, width: nat, c: char)
    requires
        words_lack(words, c),
        c != ' ',
    ensures
        all_lack(wrap::filled(words, width), c),
    decreases words.len(),
{
    if words.len() > 0 {
        let n = wrap::line_len(words, 0, width) as int;
        wrap::lemma_line_len(words, 0, width);
        let head = words.take(n);
        let rest = words.skip(n);
        assert forall|i: int| 0 <= i < head.len() implies lacks((#[trigger] head[i]).text, c) by {
            assert(head[i] == words[i]);
        }
        assert forall|i: int| 0 <= i < rest.len() implies lacks((#[trigger] rest[i]).text, c) by {
            assert(rest[i] == words[i + n]);
        }
        lemma_joined_lacks(head, c);
        lemma_filled_lacks(rest, width, c);
        lemma_first_and_rest_lack(wrap::joined(head), wrap::filled(rest, width), c);
    }
}

proof fn lemma_text_lines_lack(s: Seq<char>, width: nat, c: char)
    requires
        lacks(s, c),
        c != ' ',
    ensures
        all_lack(wrap::text_lines(s, width), c),
{
    let words = wrap::measured_words(chars::words_of(s));
    lemma_words_lack(s, c);
    assert forall|i: int| 0 <= i < words.len() implies lacks((#[trigger] words[i]).text, c) by {
        assert(lacks(chars::words_of(s)[i], c));
    }
    lemma_filled_lacks(words, width, c);
}

/// Whether `c` does not occur in a cell that is being filled.
spec fn cell_state_lacks(st: wrap::CellState, c: char) -> bool {
    all_lack(st.lines, c) && lacks(st.current, c)
}

proof fn lemma_broken_lacks(st: wrap::CellState, c: char)
    requires
        cell_state_lacks(st, c),
    ensures
        cell_state_lacks(wrap::broken(st), c),
{
    let next = wrap::broken(st);
    assert forall|i: int| 0 <= i < next.lines.len() implies lacks(#[trigger] next.lines[i], c) by {
        if i < st.lines.len() {
            assert(next.lines[i] == st.lines[i]);
        }
    }
}

proof fn lemma_with_chars_lacks(
    st: wrap::CellState,
    s: Seq<(char, usize)>,
    col_width: nat,
    c: char,
)
    requires
        cell_state_lacks(st, c),
        lacks(wrap::text_of(s), c),
    ensures
        cell_state_lacks(wrap::with_chars(st, s, col_width), c),
    decreases s.len(),
{
    if s.len() > 0 {
        lemma_text_of_lacks(s, 0, s.len() - 1, c);
        assert(s.take(s.len() - 1) == s.drop_last());
        lemma_with_chars_lacks(st, s.drop_last(), col_width, c);
        let before = wrap::with_chars(st, s.drop_last(), col_width);
        lemma_broken_lacks(before, c);
        assert(wrap::text_of(s)[s.len() - 1] != c);
        let at = if before.width + s.last().1 > col_width && before.width > 0 {
            wrap::broken(before)
        } else {
            before
        };
        lemma_concat_lacks(at.current, seq![s.last().0], c);
        assert(at.current.push(s.last().0) == at.current + seq![s.last().0]);
    }
}

proof fn lemma_with_word_lacks(
    st: wrap::CellState,
    word: wrap::CellWordView,
    col_width: nat,
    c: char,
)
    requires
        cell_state_lacks(st, c),
        lacks(wrap::text_of(word.chars), c),
        c != ' ',
    ensures
        cell_state_lacks(wrap::with_word(st, word, col_width), c),
{
    let text = wrap::text_of(word.chars);
    lemma_broken_lacks(st, c);
    let fresh = wrap::broken(st);
    lemma_with_chars_lacks(st, word.chars, col_width, c);
    lemma_with_chars_lacks(fresh, word.chars, col_width, c);
    lemma_concat_lacks(st.current, text, c);
    lemma_concat_lacks(fresh.current, text, c);
    lemma_concat_lacks(st.current, seq![' '], c);
    assert(st.current.push(' ') == st.current + seq![' ']);
    lemma_concat_lacks(st.current.push(' '), text, c);
}

proof fn lemma_with_words_lacks(words: Seq<wrap::CellWordView>, col_width: nat, c: char)
    requires
        forall|i: int|
            0 <= i < words.len() ==> lacks(wrap::text_of((#[trigger] words[i]).chars), c),
        c != ' ',
    ensures
        cell_state_lacks(wrap::with_words(words, col_width), c),
    decreases words.len(),
{
    if words.len() > 0 {
        let init = words.drop_last();
        assert forall|i: int| 0 <= i < init.len() implies lacks(
            wrap::text_of((#[trigger] init[i]).chars),
            c,
        ) by {
            assert(init[i] == words[i]);
        }
        lemma_with_words_lacks(init, col_width, c);
        assert(lacks(wrap::text_of(words[words.len() - 1].chars), c));
        lemma_with_word_lacks(wrap::with_words(init, col_width), words.last(), col_width, c);
    }
}

/// The lines of a cell lack a character that the cell lacks.
pub proof fn lemma_cell_lines_lack(cell: Seq<char>, col_width: nat, c: char)
    requires
        lacks(cell, c),
        c != ' ',
    ensures
        all_lack(wrap::cell_lines(cell, col_width), c),
{
    let words = wrap::measured_cell(chars::words_of(cell));
    lemma_words_lack(cell, c);
    assert forall|i: int| 0 <= i < words.len() implies lacks(
        wrap::text_of((#[trigger] words[i]).chars),
        c,
    ) by {
        let w = chars::words_of(cell)[i];
        assert(lacks(w, c));
        assert(wrap::text_of(wrap::measured_chars(w)) == w);
    }
    lemma_with_words_lacks(words, col_width, c);
    let st = wrap::with_words(words, col_width);
    lemma_broken_lacks(st, c);
    assert(wrap::broken(st).lines == st.lines.push(st.current));
}

// ---------------------------------------------------------------------------
// Inline markup

proof fn lemma_enclosed_lacks(s: Seq<char>, delimiter: Seq<char>, c: char)
    requires
        lacks(s, c),
    ensures
        markup::enclosed(s, delimiter) matches Some(inner) ==> lacks(inner, c),
{
    if delimiter.is_prefix_of(s) {
        let d = delimiter.len() as int;
        chars::lemma_first_match(s.skip(d), delimiter);
        if let Some(n) = chars::first_match(s.skip(d), delimiter) {
            lemma_part_lacks(s, d, d + n, c);
        }
    }
}

proof fn lemma_osc8_lacks(target: Seq<char>, label: Seq<char>, c: char)
    requires
        lacks(target, c),
        lacks(label, c),
        !is_osc8_mark(c),
    ensures
        lacks(markup::osc8_link(target, label), c),
{
    let start = seq!['\u{1b}', ']', '8', ';', ';'];
    let sep = seq!['\u{1b}', '\\'];
    let end = seq!['\u{1b}', ']', '8', ';', ';', '\u{1b}', '\\'];
    lemma_concat_lacks(start, target, c);
    lemma_concat_lacks(start + target, sep, c);
    lemma_concat_lacks(start + target + sep, label, c);
    lemma_concat_lacks(start + target + sep + label, end, c);
}

proof fn lemma_token_lacks(
    s: Seq<char>,
    base_style: Style,
    link_style: Style,
    options: RenderOptions,
    c: char,
)
    requires
        s.len() > 0,
        lacks(s, c),
        !is_inline_mark(c, options),
    ensures
        lacks(markup::first_token(s, base_style, link_style, options).text, c),
{
    lemma_enclosed_lacks(s, seq!['*', '*'], c);
    lemma_enclosed_lacks(s, seq!['_', '_'], c);
    lemma_enclosed_lacks(s, seq!['*'], c);
    lemma_enclosed_lacks(s, seq!['_'], c);
    lemma_enclosed_lacks(s, seq!['`'], c);
    lemma_enclosed_lacks(s, seq!['~', '~'], c);
    chars::lemma_first_index(s, ']');
    let b = chars::first_index(s, ']') as int;
    if markup::link_of(s) is Some {
        let after = s.skip(b + 1);
        chars::lemma_first_index(after, ')');
        let p = chars::first_index(after, ')') as int;
        lemma_part_lacks(s, 1, b, c);
        lemma_part_lacks(s, b + 1, s.len() as int, c);
        lemma_part_lacks(after, 1, p, c);
        let (label, url) = markup::link_of(s)->0;
        if options.osc8 {
            lemma_osc8_lacks(url, label, c);
        } else {
            lemma_concat_lacks(label, seq![' ', '('], c);
            lemma_concat_lacks(label + seq![' ', '('], url, c);
            lemma_concat_lacks(label + seq![' ', '('] + url, seq![')'], c);
        }
    }
    chars::lemma_word_len(s);
    let n = chars::word_len(s) as int;
    lemma_part_lacks(s, 0, n, c);
    if options.osc8 {
        lemma_osc8_lacks(s.take(n), s.take(n), c);
    }
    markup::lemma_next_marker(s);
    lemma_part_lacks(s, 0, markup::next_marker(s) as int, c);
    lemma_part_lacks(s, 0, 1, c);
}

proof fn lemma_spans_concat_lack(a: Seq<text::SpanView>, b: Seq<text::SpanView>, c: char)
    requires
        spans_lack(a, c),
        spans_lack(b, c),
    ensures
        spans_lack(a + b, c),
{
    assert forall|i: int| 0 <= i < (a + b).len() implies lacks(
        (#[trigger] (a + b)[i]).content,
        c,
    ) by {
        if i < a.len() {
            assert((a + b)[i] == a[i]);
        } else {
            assert((a + b)[i] == b[i - a.len()]);
        }
    }
}

/// Inline text lacks a character that its source lacks and that it is not written
/// with.
pub proof fn lemma_inline_lacks(
    s: Seq<char>,
    base_style: Style,
    link_style: Style,
    options: RenderOptions,
    c: char,
)
    requires
        lacks(s, c),
        !is_inline_mark(c, options),
    ensures
        spans_lack(markup::inline_spans(s, base_style, link_style, options), c),
    decreases s.len(),
{
    if s.len() > 0 {
        let token = markup::first_token(s, base_style, link_style, options);
        markup::lemma_first_token_used(s, base_style, link_style, options);
        lemma_token_lacks(s, base_style, link_style, options, c);
        lemma_part_lacks(s, token.used as int, s.len() as int, c);
        lemma_inline_lacks(s.skip(token.used as int), base_style, link_style, options, c);
        lemma_spans_concat_lack(
            seq![text::SpanView { content: token.text, style: token.style }],
            markup::inline_spans(s.skip(token.used as int), base_style, link_style, options),
            c,
        );
    }
}

// ---------------------------------------------------------------------------
// Layout

proof fn lemma_span_words_lack(s: Seq<char>, style: Style, c: char)
    requires
        lacks(s, c),
    ensures
        spans_lack(layout::span_words(s, style), c),
    decreases s.len(),
{
    chars::lemma_first_index(s, ' ');
    if s.len() > 0 {
        let n = if s[0] == ' ' {
            1int
        } else {
            chars::first_index(s, ' ') as int
        };
        lemma_part_lacks(s, n, s.len() as int, c);
        lemma_part_lacks(s, 0, n, c);
        lemma_span_words_lack(s.skip(n), style, c);
        let head = seq![text::SpanView { content: s.take(n), style }];
        assert(s[0] == ' ' ==> s.take(1) == seq![' ']);
        lemma_spans_concat_lack(head, layout::span_words(s.skip(n), style), c);
    }
}

proof fn lemma_all_words_lack(spans: Seq<text::SpanView>, c: char)
    requires
        spans_lack(spans, c),
    ensures
        spans_lack(layout::all_words(spans), c),
    decreases spans.len(),
{
    if spans.len() > 0 {
        let init = spans.drop_last();
        assert forall|i: int| 0 <= i < init.len() implies lacks((#[trigger] init[i]).content, c) by {
            assert(init[i] == spans[i]);
        }
        lemma_all_words_lack(init, c);
        assert(lacks(spans[spans.len() - 1].content, c));
        lemma_span_words_lack(spans.last().content, spans.last().style, c);
        lemma_spans_concat_lack(
            layout::all_words(init),
            layout::span_words(spans.last().content, spans.last().style),
            c,
        );
    }
}

/// Whether `c` does not occur in a text that is being laid out.
spec fn layout_lacks(st: layout::LayoutState, c: char) -> bool {
    lines_lack(st.lines, c) && spans_lack(st.spans, c)
}

proof fn lemma_layout_lacks(words: Seq<layout::MeasuredSpanView>, width: nat, c: char)
    requires
        forall|i: int| 0 <= i < words.len() ==> lacks((#[trigger] words[i]).span.content, c),
        c != ' ',
    ensures
        layout_lacks(layout::with_words(words, width), c),
    decreases words.len(),
{
    if words.len() > 0 {
        let init = words.drop_last();
        assert forall|i: int| 0 <= i < init.len() implies lacks(
            (#[trigger] init[i]).span.content,
            c,
        ) by {
            assert(init[i] == words[i]);
        }
        lemma_layout_lacks(init, width, c);
        let st = layout::with_words(init, width);
        let next = layout::with_words(words, width);
        let word = words.last();
        assert(lacks(words[words.len() - 1].span.content, c));
        lemma_spans_concat_lack(st.spans, seq![word.span], c);
        assert(st.spans.push(word.span) == st.spans + seq![word.span]);
        let space = text::raw_span(seq![' ']);
        lemma_spans_concat_lack(st.spans, seq![space], c);
        assert(st.spans.push(space) == st.spans + seq![space]);
        let trimmed = layout::without_last_space(st.spans);
        assert forall|i: int| 0 <= i < trimmed.len() implies lacks(
            (#[trigger] trimmed[i]).content,
            c,
        ) by {
            assert(trimmed[i] == st.spans[i]);
        }
        assert forall|i: int| 0 <= i < next.lines.len() implies spans_lack(
            #[trigger] next.lines[i],
            c,
        ) by {
            if i < st.lines.len() {
                assert(next.lines[i] == st.lines[i]);
            } else {
                assert(next.lines[i] == trimmed);
            }
        }
    }
}

proof fn lemma_link_lines_lack(
    line: Seq<char>,
    width: nat,
    base_style: Style,
    link_style: Style,
    options: RenderOptions,
    c: char,
)
    requires
        lacks(line, c),
        !is_drawn(c, options),
    ensures
        lines_lack(layout::link_lines(line, width, base_style, link_style, options), c),
{
    let spans = markup::inline_spans(line, base_style, link_style, options);
    lemma_inline_lacks(line, base_style, link_style, options, c);
    lemma_all_words_lack(spans, c);
    let words = layout::measured_spans(layout::all_words(spans));
    assert forall|i: int| 0 <= i < words.len() implies lacks(
        (#[trigger] words[i]).span.content,
        c,
    ) by {
        assert(lacks(layout::all_words(spans)[i].content, c));
    }
    lemma_layout_lacks(words, width, c);
    let st = layout::with_words(words, width);
    let out = layout::laid_out(words, width);
    assert forall|i: int| 0 <= i < out.len() implies spans_lack(#[trigger] out[i], c) by {
        if i < st.lines.len() {
            assert(out[i] == st.lines[i]);
        }
    }
}

proof fn lemma_list_lines_lack(
    bullet: Seq<char>,
    item: Seq<char>,
    width: nat,
    bullet_style: Style,
    text_style: Style,
    options: RenderOptions,
    c: char,
)
    requires
        lacks(bullet, c),
        lacks(item, c),
        !is_drawn(c, options),
    ensures
        lines_lack(
            layout::list_lines(bullet, item, width, bullet_style, text_style, options),
            c,
        ),
{
    let prefix = bullet.push(' ');
    lemma_concat_lacks(bullet, seq![' '], c);
    assert(prefix == bullet + seq![' ']);
    let prefix_width = width::str_width(prefix) as nat;
    let lines = layout::link_lines(
        item,
        layout::columns_left(width, prefix_width),
        text_style,
        link_style(options.palette),
        options,
    );
    lemma_link_lines_lack(
        item,
        layout::columns_left(width, prefix_width),
        text_style,
        link_style(options.palette),
        options,
        c,
    );
    let out = layout::list_lines(bullet, item, width, bullet_style, text_style, options);
    let first = seq![text::SpanView { content: prefix, style: bullet_style }];
    let space = seq![text::raw_span(chars::repeated(' ', prefix_width))];
    assert forall|i: int| 0 <= i < out.len() implies spans_lack(#[trigger] out[i], c) by {
        assert(spans_lack(lines[i], c));
        lemma_spans_concat_lack(first, lines[i], c);
        lemma_spans_concat_lack(space, lines[i], c);
    }
}

proof fn lemma_wrapped_lines_lack(
    line: Seq<char>,
    width: nat,
    style: Style,
    indent_code: bool,
    is_code: bool,
    c: char,
)
    requires
        lacks(line, c),
        c != ' ',
    ensures
        rendering_lacks(layout::wrapped_lines(line, width, style, indent_code, is_code), c),
{
    let left = layout::columns_left(width, layout::CODE_INDENT as nat);
    let measured = wrap::measured_chars(line);
    assert(wrap::text_of(measured) == line);
    lemma_code_chunks_lack(measured, left, c);
    lemma_text_lines_lack(line, layout::columns_left(width, 0), c);
    let texts = if indent_code {
        wrap::code_lines(measured, left)
    } else {
        wrap::text_lines(line, layout::columns_left(width, 0))
    };
    let out = layout::wrapped_lines(line, width, style, indent_code, is_code);
    assert forall|i: int| 0 <= i < out.len() implies spans_lack((#[trigger] out[i]).line, c) by {
        assert(lacks(texts[i], c));
    }
}

// ---------------------------------------------------------------------------
// Tables

proof fn lemma_border_lacks(
    num_cols: nat,
    col_width: nat,
    left: Seq<char>,
    mid: Seq<char>,
    right: Seq<char>,
    c: char,
)
    requires
        !is_box_drawing(c),
        lacks(left, c),
        lacks(mid, c),
        lacks(right, c),
    ensures
        lacks(left + table::border_cells(num_cols, col_width, mid, right), c),
    decreases num_cols,
{
    let fill = chars::repeated('\u{2500}', col_width);
    lemma_concat_lacks(fill, right, c);
    lemma_concat_lacks(fill, mid, c);
    if num_cols > 1 {
        lemma_border_lacks((num_cols - 1) as nat, col_width, fill + mid, mid, right, c);
    }
    lemma_concat_lacks(left, table::border_cells(num_cols, col_width, mid, right), c);
}

/// The borders of tables are made of box-drawing characters.
pub proof fn lemma_borders_lack(num_cols: nat, col_width: nat, style: Style, c: char)
    requires
        !is_box_drawing(c),
    ensures
        spans_lack(table::top_border(num_cols, col_width, style), c),
        spans_lack(table::mid_border(num_cols, col_width, style), c),
        spans_lack(table::bottom_border(num_cols, col_width, style), c),
{
    lemma_border_lacks(
        num_cols,
        col_width,
        seq!['\u{250C}', '\u{2500}'],
        seq!['\u{2500}', '\u{252C}', '\u{2500}'],
        seq!['\u{2500}', '\u{2510}'],
        c,
    );
    lemma_border_lacks(
        num_cols,
        col_width,
        seq!['\u{251C}', '\u{2500}'],
        seq!['\u{2500}', '\u{253C}', '\u{2500}'],
        seq!['\u{2500}', '\u{2524}'],
        c,
    );
    lemma_border_lacks(
        num_cols,
        col_width,
        seq!['\u{2514}', '\u{2500}'],
        seq!['\u{2500}', '\u{2534}', '\u{2500}'],
        seq!['\u{2500}', '\u{2518}'],
        c,
    );
}

proof fn lemma_row_spans_lack(
    wrapped: Seq<Seq<Seq<char>>>,
    row: int,
    k: nat,
    col_width: nat,
    base_style: Style,
    options: RenderOptions,
    c: char,
)
    requires
        k <= wrapped.len(),
        forall|i: int| 0 <= i < wrapped.len() ==> all_lack(#[trigger] wrapped[i], c),
        !is_drawn(c, options),
    ensures
        spans_lack(table::row_spans(wrapped, row, k, col_width, base_style, options), c),
    decreases k,
{
    if k > 0 {
        lemma_row_spans_lack(wrapped, row, (k - 1) as nat, col_width, base_style, options, c);
        let before = table::row_spans(
            wrapped,
            row,
            (k - 1) as nat,
            col_width,
            base_style,
            options,
        );
        assert(all_lack(wrapped[k - 1], c));
        let segment = table::segment_at(wrapped[k - 1], row);
        assert(lacks(segment, c));
        let spans = markup::inline_spans(
            segment,
            base_style,
            link_style(options.palette),
            options,
        );
        lemma_inline_lacks(segment, base_style, link_style(options.palette), options, c);
        let cell = table::padded(layout::measured_spans(spans), col_width);
        assert forall|i: int| 0 <= i < cell.len() implies lacks((#[trigger] cell[i]).content, c) by {
            if i < spans.len() {
                assert(cell[i] == spans[i]);
            }
        }
        lemma_spans_concat_lack(before, cell, c);
        let all = table::row_spans(wrapped, row, k, col_width, base_style, options);
        assert(all.drop_last() == before + cell);
        lemma_spans_concat_lack(before + cell, seq![all.last()], c);
        assert(all == before + cell + seq![all.last()]);
    }
}

proof fn lemma_row_lines_lack(
    cells: Seq<Seq<char>>,
    width: nat,
    base_style: Style,
    options: RenderOptions,
    c: char,
)
    requires
        all_lack(cells, c),
        !is_drawn(c, options),
    ensures
        lines_lack(table::row_lines(cells, width, base_style, options), c),
{
    if cells.len() > 0 {
        let col_width = table::column_width(cells.len(), width);
        let wrapped = table::wrapped_cells(cells, col_width);
        assert forall|i: int| 0 <= i < wrapped.len() implies all_lack(#[trigger] wrapped[i], c) by {
            assert(lacks(cells[i], c));
            lemma_cell_lines_lack(cells[i], col_width, c);
        }
        let out = table::row_lines(cells, width, base_style, options);
        assert forall|row: int| 0 <= row < out.len() implies spans_lack(#[trigger] out[row], c) by {
            lemma_row_spans_lack(
                wrapped,
                row,
                wrapped.len(),
                col_width,
                base_style,
                options,
                c,
            );
        }
    }
}

proof fn lemma_lines_concat_lack(
    a: Seq<Seq<text::SpanView>>,
    b: Seq<Seq<text::SpanView>>,
    c: char,
)
    requires
        lines_lack(a, c),
        lines_lack(b, c),
    ensures
        lines_lack(a + b, c),
{
    assert forall|i: int| 0 <= i < (a + b).len() implies spans_lack(#[trigger] (a + b)[i], c) by {
        if i < a.len() {
            assert((a + b)[i] == a[i]);
        } else {
            assert((a + b)[i] == b[i - a.len()]);
        }
    }
}

proof fn lemma_table_head_lacks(
    blocks: Seq<block::BlockView>,
    k: nat,
    width: nat,
    base_style: Style,
    options: RenderOptions,
    c: char,
)
    requires
        k <= blocks.len(),
        blocks_lack(blocks, c),
        !is_drawn(c, options),
    ensures
        lines_lack(table::table_head(blocks, k, width, base_style, options), c),
    decreases k,
{
    let num_cols = table::table_columns(blocks);
    let col_width = table::column_width(num_cols, width);
    let style = crate::style::rule_style(options.palette);
    lemma_borders_lack(num_cols, col_width, style, c);
    if k > 0 {
        let i = k - 1;
        lemma_table_head_lacks(blocks, i as nat, width, base_style, options, c);
        let mid = seq![table::mid_border(num_cols, col_width, style)];
        assert(block_lacks(blocks[i], c));
        if let block::BlockView::TableRow(cells) = blocks[i] {
            let rows = table::row_lines(cells, width, base_style, options);
            lemma_row_lines_lack(cells, width, base_style, options, c);
            lemma_lines_concat_lack(rows, mid, c);
            assert(rows.push(mid[0]) == rows + mid);
        }
        lemma_lines_concat_lack(
            table::table_head(blocks, i as nat, width, base_style, options),
            table::table_part(blocks, i, width, base_style, options),
            c,
        );
    }
}

proof fn lemma_table_lines_lack(
    blocks: Seq<block::BlockView>,
    width: nat,
    base_style: Style,
    options: RenderOptions,
    c: char,
)
    requires
        blocks_lack(blocks, c),
        !is_drawn(c, options),
    ensures
        lines_lack(table::table_lines(blocks, width, base_style, options), c),
{
    let num_cols = table::table_columns(blocks);
    let col_width = table::column_width(num_cols, width);
    let style = crate::style::rule_style(options.palette);
    lemma_borders_lack(num_cols, col_width, style, c);
    lemma_table_head_lacks(blocks, blocks.len(), width, base_style, options, c);
    let head = table::table_head(blocks, blocks.len(), width, base_style, options);
    let bottom = seq![table::bottom_border(num_cols, col_width, style)];
    lemma_lines_concat_lack(head, bottom, c);
    assert(head.push(bottom[0]) == head + bottom);
}

// ---------------------------------------------------------------------------
// Rendering

proof fn lemma_tagged_lacks(lines: Seq<Seq<text::SpanView>>, c: char)
    requires
        lines_lack(lines, c),
    ensures
        rendering_lacks(text::tagged(lines, false), c),
{
    let out = text::tagged(lines, false);
    assert forall|i: int| 0 <= i < out.len() implies spans_lack((#[trigger] out[i]).line, c) by {
        assert(spans_lack(lines[i], c));
    }
}

proof fn lemma_block_lines_lack(
    b: block::BlockView,
    width: nat,
    base_style: Style,
    options: RenderOptions,
    c: char,
)
    requires
        block_lacks(b, c),
        !is_drawn(c, options),
    ensures
        rendering_lacks(render::block_lines(b, width, base_style, options), c),
{
    match b {
        block::BlockView::Heading { level, text } => {
            lemma_wrapped_lines_lack(
                text,
                width,
                crate::style::heading_style(options.palette),
                false,
                false,
                c,
            );
        },
        block::BlockView::ListItem { bullet, text } => {
            let style = crate::style::bullet_style(options.palette);
            lemma_list_lines_lack(bullet, text, width, style, base_style, options, c);
            lemma_tagged_lacks(
                layout::list_lines(bullet, text, width, style, base_style, options),
                c,
            );
        },
        block::BlockView::Code { line } => {
            lemma_wrapped_lines_lack(
                line,
                width,
                crate::style::code_block_style(options.palette),
                true,
                true,
                c,
            );
        },
        block::BlockView::Paragraph { text } => {
            lemma_link_lines_lack(
                text,
                width,
                base_style,
                link_style(options.palette),
                options,
                c,
            );
            lemma_tagged_lacks(
                layout::link_lines(text, width, base_style, link_style(options.palette), options),
                c,
            );
        },
        _ => {},
    }
}

proof fn lemma_blocks_lines_lack(
    blocks: Seq<block::BlockView>,
    width: nat,
    base_style: Style,
    options: RenderOptions,
    c: char,
)
    requires
        blocks_lack(blocks, c),
        !is_drawn(c, options),
    ensures
        rendering_lacks(render::blocks_lines(blocks, width, base_style, options), c),
    decreases blocks.len(),
{
    if blocks.len() > 0 {
        render::lemma_table_len(blocks);
        let n = render::table_len(blocks) as int;
        let k = if n > 0 {
            n
        } else {
            1
        };
        let rest = blocks.skip(k);
        assert forall|i: int| 0 <= i < rest.len() implies block_lacks(#[trigger] rest[i], c) by {
            assert(rest[i] == blocks[i + k]);
        }
        lemma_blocks_lines_lack(rest, width, base_style, options, c);
        let tail = render::blocks_lines(rest, width, base_style, options);
        let head = if n > 0 {
            text::tagged(table::table_lines(blocks.take(n), width, base_style, options), false)
        } else {
            render::block_lines(blocks[0], width, base_style, options)
        };
        if n > 0 {
            let group = blocks.take(n);
            assert forall|i: int| 0 <= i < group.len() implies block_lacks(
                #[trigger] group[i],
                c,
            ) by {
                assert(group[i] == blocks[i]);
            }
            lemma_table_lines_lack(group, width, base_style, options, c);
            lemma_tagged_lacks(table::table_lines(group, width, base_style, options), c);
        } else {
            assert(block_lacks(blocks[0], c));
            lemma_block_lines_lack(blocks[0], width, base_style, options, c);
        }
        let all = render::blocks_lines(blocks, width, base_style, options);
        assert(all == head + tail);
        assert forall|i: int| 0 <= i < all.len() implies spans_lack((#[trigger] all[i]).line, c) by {
            if i < head.len() {
                assert(all[i] == head[i]);
            } else {
                assert(all[i] == tail[i - head.len()]);
            }
        }
    }
}

/// A rendering is written with the characters of its source and with those that
/// the renderer draws, and with no others.
pub proof fn law_rendering_alphabet(
    content: Seq<char>,
    width: u16,
    base_style: Style,
    options: RenderOptions,
    c: char,
)
    requires
        lacks(content, c) || c == '\n',
        !is_drawn(c, options),
    ensures
        rendering_lacks(
            render::rendered(block::parsed(content), width, base_style, options),
            c,
        ),
{
    law_blocks_say_what_the_source_says(content, c);
    let columns = if width == 0 {
        1
    } else {
        width as nat
    };
    lemma_blocks_lines_lack(block::parsed(content), columns, base_style, options, c);
}

/// No rendered line contains a line break.
pub proof fn law_lines_are_single_lines(
    content: Seq<char>,
    width: u16,
    base_style: Style,
    options: RenderOptions,
)
    ensures
        rendering_lacks(
            render::rendered(block::parsed(content), width, base_style, options),
            '\n',
        ),
{
    law_rendering_alphabet(content, width, base_style, options, '\n');
}

/// With OSC 8 links switched off, no escape character is written that was not in
/// the source.
pub proof fn law_no_escapes_without_osc8(
    content: Seq<char>,
    width: u16,
    base_style: Style,
    options: RenderOptions,
)
    requires
        !options.osc8,
        lacks(content, '\u{1b}'),
    ensures
        rendering_lacks(
            render::rendered(block::parsed(content), width, base_style, options),
            '\u{1b}',
        ),
{
    law_rendering_alphabet(content, width, base_style, options, '\u{1b}');
}

} // verus!
