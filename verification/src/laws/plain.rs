//! Laws of plain text, in which every character takes one column: rows of tables
//! keep their bars in place, and paragraphs wrap as prose does.
use vstd::arithmetic::div_mod::lemma_fundamental_div_mod_converse_mod;
use vstd::prelude::*;

use crate::block;
use crate::chars;
use crate::laws::alphabet;
use crate::laws::inline_text;
use crate::laws::reflow;
use crate::laws::tables;
use crate::laws::wrapping;
use crate::layout;
use crate::markup;
use crate::style::{link_style, rule_style, RenderOptions, Style};
use crate::table;
use crate::text;
use crate::width;
use crate::wrap;

verus! {

// ---------------------------------------------------------------------------
// Plain text stays plain

/// The lines of a plain cell are plain.
pub proof fn law_cell_lines_are_plain(cell: Seq<char>, col_width: nat, i: int)
    requires
        width::is_plain(cell),
        0 <= i < wrap::cell_lines(cell, col_width).len(),
    ensures
        width::is_plain(wrap::cell_lines(cell, col_width)[i]),
{
    let line = wrap::cell_lines(cell, col_width)[i];
    assert forall|j: int| 0 <= j < line.len() implies width::is_ascii_printable(
        #[trigger] line[j],
    ) by {
        let c = line[j];
        if !width::is_ascii_printable(c) {
            assert(alphabet::lacks(cell, c)) by {
                assert forall|k: int| 0 <= k < cell.len() implies #[trigger] cell[k] != c by {
                    assert(width::is_ascii_printable(cell[k]));
                }
            }
            alphabet::lemma_cell_lines_lack(cell, col_width, c);
            assert(alphabet::lacks(line, c));
        }
    }
}

/// With OSC 8 links switched off, the spans of a plain text are plain.
pub proof fn law_inline_spans_are_plain(
    s: Seq<char>,
    base_style: Style,
    link_style: Style,
    options: RenderOptions,
    i: int,
)
    requires
        width::is_plain(s),
        !options.osc8,
        0 <= i < markup::inline_spans(s, base_style, link_style, options).len(),
    ensures
        width::is_plain(markup::inline_spans(s, base_style, link_style, options)[i].content),
{
    let spans = markup::inline_spans(s, base_style, link_style, options);
    let content = spans[i].content;
    assert forall|j: int| 0 <= j < content.len() implies width::is_ascii_printable(
        #[trigger] content[j],
    ) by {
        let c = content[j];
        if !width::is_ascii_printable(c) {
            assert(alphabet::lacks(s, c)) by {
                assert forall|k: int| 0 <= k < s.len() implies #[trigger] s[k] != c by {
                    assert(width::is_ascii_printable(s[k]));
                }
            }
            alphabet::lemma_inline_lacks(s, base_style, link_style, options, c);
            assert(alphabet::lacks(spans[i].content, c));
        }
    }
}

/// With OSC 8 links switched off, inline text is never longer than its source.
pub proof fn law_inline_text_is_no_longer(
    s: Seq<char>,
    base_style: Style,
    link_style: Style,
    options: RenderOptions,
)
    requires
        !options.osc8,
    ensures
        text::line_text(markup::inline_spans(s, base_style, link_style, options)).len() <= s.len(),
    decreases s.len(),
{
    if s.len() > 0 {
        let token = markup::first_token(s, base_style, link_style, options);
        markup::lemma_first_token_used(s, base_style, link_style, options);
        let head = seq![text::SpanView { content: token.text, style: token.style }];
        let rest = s.skip(token.used as int);
        let tail = markup::inline_spans(rest, base_style, link_style, options);
        law_inline_text_is_no_longer(rest, base_style, link_style, options);
        reflow::lemma_line_text_concat(head, tail);
        lemma_line_text_one(head[0]);
        assert(token.text.len() <= token.used);
    }
}

proof fn lemma_line_text_one(span: text::SpanView)
    ensures
        text::line_text(seq![span]) == span.content,
{
    let one = seq![span];
    assert(one.drop_last() == Seq::<text::SpanView>::empty());
    assert(text::line_text(one.drop_last()) == Seq::<char>::empty());
    assert(Seq::<char>::empty() + span.content == span.content);
}

// ---------------------------------------------------------------------------
// Rows

/// Whether a line of a cell, as it is shown, takes a column for each character,
/// fits in its column, and has no bar in it.
pub open spec fn is_narrow_cell(
    segment: Seq<char>,
    col_width: nat,
    base_style: Style,
    options: RenderOptions,
) -> bool {
    let spans = tables::shown_cell(segment, base_style, options);
    let shown = text::line_text(spans);
    &&& table::total_width(layout::measured_spans(spans)) == shown.len()
    &&& shown.len() <= col_width
    &&& alphabet::lacks(shown, '\u{2502}')
}

/// Whether the text of a line of a table row with `n` cells has a bar at every
/// `col_width + 3` characters, from the first to the last, and nowhere else: the
/// `n + 1` bars of the row, with a space inside each end.
pub open spec fn is_aligned(line: Seq<char>, n: nat, col_width: nat) -> bool {
    &&& line.len() == n * (col_width + 3) + 1
    &&& forall|j: int|
        0 <= j < line.len() ==> (#[trigger] line[j] == '\u{2502}' <==> j % (col_width + 3) as int
            == 0)
    &&& tables::occurrences(line, '\u{2502}') == n + 1
    &&& seq!['\u{2502}', ' '].is_prefix_of(line)
    &&& seq![' ', '\u{2502}'].is_suffix_of(line)
}

/// What is known of the text of a row up to its first `k` cells.
spec fn is_aligned_part(line: Seq<char>, k: nat, n: nat, col_width: nat) -> bool {
    let m = (col_width + 3) as int;
    &&& line.len() == if k < n {
        k * m + 2
    } else {
        k * m + 1
    }
    &&& forall|j: int|
        0 <= j < line.len() ==> (#[trigger] line[j] == '\u{2502}' <==> j % m == 0)
    &&& tables::occurrences(line, '\u{2502}') == k + 1
    &&& line[0] == '\u{2502}'
    &&& line[1] == ' '
    &&& k == n ==> line[line.len() - 2] == ' ' && line.last() == '\u{2502}'
}

proof fn lemma_no_occurrences(s: Seq<char>, c: char)
    requires
        alphabet::lacks(s, c),
    ensures
        tables::occurrences(s, c) == 0,
    decreases s.len(),
{
    if s.len() > 0 {
        let init = s.drop_last();
        assert forall|j: int| 0 <= j < init.len() implies #[trigger] init[j] != c by {
            assert(init[j] == s[j]);
        }
        assert(s[s.len() - 1] != c);
        lemma_no_occurrences(init, c);
    }
}

/// A padded cell is as many characters long as its column is wide, and has no
/// bar in it.
proof fn lemma_padded_text(
    segment: Seq<char>,
    col_width: nat,
    base_style: Style,
    options: RenderOptions,
)
    requires
        is_narrow_cell(segment, col_width, base_style, options),
    ensures
        ({
            let spans = tables::shown_cell(segment, base_style, options);
            let shown = text::line_text(
                table::padded(layout::measured_spans(spans), col_width),
            );
            shown.len() == col_width && alphabet::lacks(shown, '\u{2502}')
        }),
{
    let spans = tables::shown_cell(segment, base_style, options);
    let measured = layout::measured_spans(spans);
    let padded = table::padded(measured, col_width);
    let pad = padded.last();
    assert(padded.drop_last() == spans);
    let shown = text::line_text(spans);
    let all = text::line_text(padded);
    assert(all == shown + pad.content);
    assert forall|j: int| 0 <= j < all.len() implies #[trigger] all[j] != '\u{2502}' by {
        if j < shown.len() {
            assert(all[j] == shown[j]);
        } else {
            assert(all[j] == pad.content[j - shown.len()]);
        }
    }
}

/// The text of a row with one cell more.
proof fn lemma_aligned_step(
    before: Seq<char>,
    cell: Seq<char>,
    bar: Seq<char>,
    k: nat,
    n: nat,
    col_width: nat,
)
    requires
        0 < k <= n,
        is_aligned_part(before, (k - 1) as nat, n, col_width),
        cell.len() == col_width,
        alphabet::lacks(cell, '\u{2502}'),
        bar == if k < n {
            seq![' ', '\u{2502}', ' ']
        } else {
            seq![' ', '\u{2502}']
        },
    ensures
        is_aligned_part(before + cell + bar, k, n, col_width),
{
    let m = (col_width + 3) as int;
    let line = before + cell + bar;
    let base = (k - 1) * m;
    assert(k * m == base + m) by (nonlinear_arith)
        requires
            base == (k - 1) * m,
    ;
    assert(before.len() == base + 2);
    assert forall|j: int| 0 <= j < line.len() implies (#[trigger] line[j] == '\u{2502}' <==> j % m
        == 0) by {
        if j < before.len() {
            assert(line[j] == before[j]);
        } else if j < k * m {
            lemma_fundamental_div_mod_converse_mod(j, m, k - 1, j - base);
            if j < before.len() + cell.len() {
                assert(line[j] == cell[j - before.len()]);
            } else {
                assert(line[j] == bar[0]);
            }
        } else {
            lemma_fundamental_div_mod_converse_mod(j, m, k as int, j - k * m);
            assert(line[j] == bar[j - before.len() - cell.len()]);
        }
    }
    tables::lemma_occurrences_concat(before + cell, bar, '\u{2502}');
    tables::lemma_occurrences_concat(before, cell, '\u{2502}');
    lemma_no_occurrences(cell, '\u{2502}');
    assert(tables::occurrences(bar, '\u{2502}') == 1) by {
        let space = seq![' '];
        let end = seq!['\u{2502}'];
        let none = Seq::<char>::empty();
        assert(space.drop_last() == none);
        assert(end.drop_last() == none);
        assert(tables::occurrences(none, '\u{2502}') == 0);
        tables::lemma_occurrences_concat(space, end, '\u{2502}');
        tables::lemma_occurrences_concat(space + end, space, '\u{2502}');
        assert(space + end == seq![' ', '\u{2502}']);
        assert(space + end + space == seq![' ', '\u{2502}', ' ']);
    }
    assert(line[0] == before[0]);
    assert(line[1] == before[1]);
    if k == n {
        assert(line[line.len() - 2] == bar[0]);
        assert(line.last() == bar[1]);
    }
}

proof fn lemma_row_part(
    wrapped: Seq<Seq<Seq<char>>>,
    row: int,
    k: nat,
    col_width: nat,
    base_style: Style,
    options: RenderOptions,
)
    requires
        0 < wrapped.len(),
        k <= wrapped.len(),
        forall|j: int|
            0 <= j < wrapped.len() ==> is_narrow_cell(
                table::segment_at(#[trigger] wrapped[j], row),
                col_width,
                base_style,
                options,
            ),
    ensures
        is_aligned_part(
            text::line_text(table::row_spans(wrapped, row, k, col_width, base_style, options)),
            k,
            wrapped.len(),
            col_width,
        ),
    decreases k,
{
    let n = wrapped.len();
    let all = table::row_spans(wrapped, row, k, col_width, base_style, options);
    let sep_style = rule_style(options.palette);
    let m = (col_width + 3) as int;
    if k == 0 {
        let first = text::SpanView { content: seq!['\u{2502}', ' '], style: sep_style };
        lemma_line_text_one(first);
        let line = first.content;
        lemma_fundamental_div_mod_converse_mod(0, m, 0, 0);
        lemma_fundamental_div_mod_converse_mod(1, m, 0, 1);
        assert forall|j: int| 0 <= j < line.len() implies (#[trigger] line[j] == '\u{2502}' <==> j
            % m == 0) by {
            assert(j == 0 || j == 1);
        }
        assert(line.drop_last() == seq!['\u{2502}']);
        assert(line.drop_last().drop_last() == Seq::<char>::empty());
        assert(tables::occurrences(line.drop_last().drop_last(), '\u{2502}') == 0);
        assert(tables::occurrences(line.drop_last(), '\u{2502}') == 1);
        assert(tables::occurrences(line, '\u{2502}') == 1);
        assert(0 * m == 0);
    } else {
        lemma_row_part(wrapped, row, (k - 1) as nat, col_width, base_style, options);
        let before = table::row_spans(
            wrapped,
            row,
            (k - 1) as nat,
            col_width,
            base_style,
            options,
        );
        let segment = table::segment_at(wrapped[k - 1], row);
        let cell = table::padded(
            layout::measured_spans(tables::shown_cell(segment, base_style, options)),
            col_width,
        );
        let bar = if k < n {
            seq![' ', '\u{2502}', ' ']
        } else {
            seq![' ', '\u{2502}']
        };
        lemma_padded_text(segment, col_width, base_style, options);
        reflow::lemma_line_text_concat(before, cell);
        assert(all.drop_last() == before + cell);
        lemma_aligned_step(
            text::line_text(before),
            text::line_text(cell),
            bar,
            k,
            n,
            col_width,
        );
    }
}

/// The bars of a row of narrow cells stand at the same places on each of its
/// visual lines: the row has one more of them than it has cells, at every
/// `col_width + 3` characters.
pub proof fn law_bars_stay_aligned(
    wrapped: Seq<Seq<Seq<char>>>,
    row: int,
    col_width: nat,
    base_style: Style,
    options: RenderOptions,
)
    requires
        0 < wrapped.len(),
        forall|j: int|
            0 <= j < wrapped.len() ==> is_narrow_cell(
                table::segment_at(#[trigger] wrapped[j], row),
                col_width,
                base_style,
                options,
            ),
    ensures
        is_aligned(
            text::line_text(
                table::row_spans(wrapped, row, wrapped.len(), col_width, base_style, options),
            ),
            wrapped.len(),
            col_width,
        ),
{
    let n = wrapped.len();
    let line = text::line_text(
        table::row_spans(wrapped, row, n, col_width, base_style, options),
    );
    lemma_row_part(wrapped, row, n, col_width, base_style, options);
    assert(n * (col_width + 3) >= 1) by (nonlinear_arith)
        requires
            n >= 1,
    ;
    assert(seq!['\u{2502}', ' '].is_prefix_of(line));
    assert(seq![' ', '\u{2502}'].is_suffix_of(line));
}

/// Whether all the lines of wrapped cells are plain and at most `col_width`
/// characters long.
pub open spec fn are_plain_cells(wrapped: Seq<Seq<Seq<char>>>, col_width: nat) -> bool {
    forall|j: int, i: int|
        0 <= j < wrapped.len() && 0 <= i < wrapped[j].len() ==> width::is_plain(
            #[trigger] wrapped[j][i],
        ) && wrapped[j][i].len() <= col_width
}

/// A plain line of a cell that was measured as such is narrow.
pub proof fn lemma_plain_cell_is_narrow(
    segment: Seq<char>,
    col_width: nat,
    base_style: Style,
    options: RenderOptions,
)
    requires
        !options.osc8,
        width::is_plain(segment),
        segment.len() <= col_width,
        forall|i: int|
            0 <= i < tables::shown_cell(segment, base_style, options).len() ==> width::str_width(
                (#[trigger] tables::shown_cell(segment, base_style, options)[i]).content,
            ) == tables::shown_cell(segment, base_style, options)[i].content.len(),
    ensures
        is_narrow_cell(segment, col_width, base_style, options),
{
    let spans = tables::shown_cell(segment, base_style, options);
    let link = link_style(options.palette);
    law_inline_text_is_no_longer(segment, base_style, link, options);
    lemma_total_is_len(spans);
    assert forall|i: int| 0 <= i < spans.len() implies alphabet::lacks(
        (#[trigger] spans[i]).content,
        '\u{2502}',
    ) by {
        law_inline_spans_are_plain(segment, base_style, link, options, i);
        let content = spans[i].content;
        assert forall|j: int| 0 <= j < content.len() implies #[trigger] content[j]
            != '\u{2502}' by {
            assert(width::is_ascii_printable(content[j]));
        }
    }
    lemma_line_text_lacks(spans, '\u{2502}');
}

proof fn lemma_total_is_len(spans: Seq<text::SpanView>)
    requires
        forall|i: int|
            0 <= i < spans.len() ==> width::str_width((#[trigger] spans[i]).content)
                == spans[i].content.len(),
    ensures
        table::total_width(layout::measured_spans(spans)) == text::line_text(spans).len(),
    decreases spans.len(),
{
    if spans.len() > 0 {
        let init = spans.drop_last();
        assert forall|i: int| 0 <= i < init.len() implies width::str_width(
            (#[trigger] init[i]).content,
        ) == init[i].content.len() by {
            assert(init[i] == spans[i]);
        }
        lemma_total_is_len(init);
        assert(layout::measured_spans(spans).drop_last() == layout::measured_spans(init));
        assert(width::str_width(spans[spans.len() - 1].content) == spans.last().content.len());
    }
}

proof fn lemma_line_text_lacks(spans: Seq<text::SpanView>, c: char)
    requires
        alphabet::spans_lack(spans, c),
    ensures
        alphabet::lacks(text::line_text(spans), c),
    decreases spans.len(),
{
    if spans.len() > 0 {
        let init = spans.drop_last();
        assert forall|i: int| 0 <= i < init.len() implies alphabet::lacks(
            (#[trigger] init[i]).content,
            c,
        ) by {
            assert(init[i] == spans[i]);
        }
        lemma_line_text_lacks(init, c);
        let a = text::line_text(init);
        let b = spans.last().content;
        assert(alphabet::lacks(spans[spans.len() - 1].content, c));
        let all = text::line_text(spans);
        assert forall|j: int| 0 <= j < all.len() implies #[trigger] all[j] != c by {
            if j < a.len() {
                assert(all[j] == a[j]);
            } else {
                assert(all[j] == b[j - a.len()]);
            }
        }
    }
}

// ---------------------------------------------------------------------------
// Tables

/// Whether every row of a table has `n` cells, all of them plain.
pub open spec fn is_plain_grid(blocks: Seq<block::BlockView>, n: nat) -> bool {
    forall|i: int|
        0 <= i < blocks.len() ==> (#[trigger] blocks[i] matches block::BlockView::TableRow(cells)
            ==> cells.len() == n && are_plain(cells))
}

/// Whether all texts are plain.
pub open spec fn are_plain(texts: Seq<Seq<char>>) -> bool {
    forall|j: int| 0 <= j < texts.len() ==> width::is_plain(#[trigger] texts[j])
}

/// Whether the text of every line has `len` characters.
pub open spec fn are_as_long(lines: Seq<Seq<text::SpanView>>, len: nat) -> bool {
    forall|i: int| 0 <= i < lines.len() ==> text::line_text(#[trigger] lines[i]).len() == len
}

/// Lines that are all as long, put together, are all as long.
pub proof fn lemma_as_long_concat(
    a: Seq<Seq<text::SpanView>>,
    b: Seq<Seq<text::SpanView>>,
    len: nat,
)
    requires
        are_as_long(a, len),
        are_as_long(b, len),
    ensures
        are_as_long(a + b, len),
{
    assert forall|i: int| 0 <= i < (a + b).len() implies text::line_text(#[trigger] (a + b)[i]).len()
        == len by {
        if i < a.len() {
            assert((a + b)[i] == a[i]);
        } else {
            assert((a + b)[i] == b[i - a.len()]);
        }
    }
}

/// The borders of a table of `num_cols` columns are as long as a row of as many
/// cells.
pub proof fn law_borders_are_as_long_as_rows(num_cols: nat, col_width: nat, style: Style)
    requires
        num_cols > 0,
    ensures
        text::line_text(table::top_border(num_cols, col_width, style)).len() == num_cols * (
        col_width + 3) + 1,
        text::line_text(table::mid_border(num_cols, col_width, style)).len() == num_cols * (
        col_width + 3) + 1,
        text::line_text(table::bottom_border(num_cols, col_width, style)).len() == num_cols * (
        col_width + 3) + 1,
{
    tables::law_borders_align(num_cols, col_width, style);
    lemma_line_text_one(table::top_border(num_cols, col_width, style)[0]);
    lemma_line_text_one(table::mid_border(num_cols, col_width, style)[0]);
    lemma_line_text_one(table::bottom_border(num_cols, col_width, style)[0]);
}

// ---------------------------------------------------------------------------
// Paragraphs

/// Whether a text is its words with one space between any two of them.
pub open spec fn is_single_spaced(s: Seq<char>) -> bool {
    s == wrap::joined(wrap::measured_words(chars::words_of(s)))
}

/// Words as spans, with a space between any two of them.
pub open spec fn spaced(words: Seq<wrap::WordView>, style: Style) -> Seq<text::SpanView>
    decreases words.len(),
{
    if words.len() == 0 {
        seq![]
    } else if words.len() == 1 {
        seq![text::SpanView { content: words[0].text, style }]
    } else {
        spaced(words.drop_last(), style) + seq![
            text::SpanView { content: seq![' '], style },
            text::SpanView { content: words.last().text, style },
        ]
    }
}

/// The words stand at every other place among the spans.
proof fn lemma_spaced(words: Seq<wrap::WordView>, style: Style)
    requires
        words.len() > 0,
    ensures
        spaced(words, style).len() == 2 * words.len() - 1,
        forall|k: int|
            0 <= k < words.len() ==> spaced(words, style)[2 * k].content == (
            #[trigger] words[k]).text,
    decreases words.len(),
{
    if words.len() > 1 {
        let init = words.drop_last();
        lemma_spaced(init, style);
        assert forall|k: int| 0 <= k < words.len() implies spaced(words, style)[2 * k].content == (
        #[trigger] words[k]).text by {
            if k < init.len() {
                assert(init[k] == words[k]);
            }
        }
    }
}

proof fn lemma_span_words_of_word(w: Seq<char>, style: Style)
    requires
        wrapping::is_word(w),
    ensures
        layout::span_words(w, style) == seq![text::SpanView { content: w, style }],
{
    chars::lemma_first_index(w, ' ');
    let n = chars::first_index(w, ' ') as int;
    if n < w.len() {
        assert(!chars::is_white_space(w[n]));
    }
    assert(!chars::is_white_space(w[0]));
    assert(w.take(n) == w);
    assert(layout::span_words(w.skip(n), style) == Seq::<text::SpanView>::empty());
    let one = seq![text::SpanView { content: w, style }];
    assert(one + Seq::<text::SpanView>::empty() == one);
}

proof fn lemma_first_index_before_space(a: Seq<char>, b: Seq<char>)
    ensures
        chars::first_index(a.push(' ') + b, ' ') == chars::first_index(a, ' '),
    decreases a.len(),
{
    let s = a.push(' ') + b;
    if a.len() == 0 {
        assert(s[0] == ' ');
    } else {
        assert(s[0] == a[0]);
        assert(s.skip(1) == a.skip(1).push(' ') + b);
        lemma_first_index_before_space(a.skip(1), b);
    }
}

/// A space is a word of its own between the words on its two sides.
proof fn lemma_span_words_at_space(a: Seq<char>, b: Seq<char>, style: Style)
    ensures
        layout::span_words(a.push(' ') + b, style) == layout::span_words(a, style) + seq![
            text::SpanView { content: seq![' '], style },
        ] + layout::span_words(b, style),
    decreases a.len(),
{
    let s = a.push(' ') + b;
    let space = seq![text::SpanView { content: seq![' '], style }];
    let tail = layout::span_words(b, style);
    if a.len() == 0 {
        assert(s[0] == ' ');
        assert(s.skip(1) == b);
        assert(layout::span_words(a, style) == Seq::<text::SpanView>::empty());
        assert(Seq::<text::SpanView>::empty() + space == space);
    } else {
        lemma_first_index_before_space(a, b);
        chars::lemma_first_index(a, ' ');
        let n = if a[0] == ' ' {
            1int
        } else {
            chars::first_index(a, ' ') as int
        };
        assert(s[0] == a[0]);
        let rest = a.skip(n);
        assert(s.skip(n) == rest.push(' ') + b);
        assert(s.take(n) == a.take(n));
        lemma_span_words_at_space(rest, b, style);
        let head = seq![
            text::SpanView {
                content: if a[0] == ' ' {
                    seq![' ']
                } else {
                    a.take(n)
                },
                style,
            },
        ];
        let mid = layout::span_words(rest, style);
        assert(head + (mid + space + tail) == head + mid + space + tail);
    }
}

/// Joined words are cut into the words and the spaces between them.
proof fn lemma_span_words_of_joined(words: Seq<wrap::WordView>, style: Style)
    requires
        forall|k: int| 0 <= k < words.len() ==> wrapping::is_word(#[trigger] words[k].text),
    ensures
        layout::span_words(wrap::joined(words), style) == spaced(words, style),
    decreases words.len(),
{
    if words.len() == 1 {
        assert(wrapping::is_word(words[0].text));
        lemma_span_words_of_word(words[0].text, style);
    } else if words.len() > 1 {
        let init = words.drop_last();
        assert forall|k: int| 0 <= k < init.len() implies wrapping::is_word(
            #[trigger] init[k].text,
        ) by {
            assert(init[k] == words[k]);
        }
        lemma_span_words_of_joined(init, style);
        assert(wrapping::is_word(words[words.len() - 1].text));
        lemma_span_words_at_space(wrap::joined(init), words.last().text, style);
        lemma_span_words_of_word(words.last().text, style);
        assert(spaced(init, style) + seq![text::SpanView { content: seq![' '], style }] + seq![
            text::SpanView { content: words.last().text, style },
        ] == spaced(words, style));
    }
}

/// Where a layout stands after the first `i` words: it has written the lines that
/// come before the word at `start`, and the words from there on are on the line
/// that is being written.
spec fn is_filling(
    st: layout::LayoutState,
    words: Seq<wrap::WordView>,
    width: nat,
    start: int,
    i: int,
) -> bool {
    let rest = words.skip(start);
    let part = rest.take(i - start);
    &&& 0 <= start < i <= words.len()
    &&& text::line_texts(st.lines) + wrap::filled(rest, width) == wrap::filled(words, width)
    &&& text::line_text(st.spans) == wrap::joined(part)
    &&& st.width == wrap::joined_width(part)
    &&& st.width > 0
    &&& st.spans.len() > 0
    &&& st.spans.last().content != seq![' ']
    &&& wrap::line_len(rest, 0, width) == wrap::line_len(rest, (i - start) as nat, width)
}

/// The words of a line are words and take columns.
spec fn are_solid(words: Seq<wrap::WordView>) -> bool {
    forall|k: int|
        0 <= k < words.len() ==> wrapping::is_word(#[trigger] words[k].text) && words[k].width > 0
            && words[k].width == width::str_width(words[k].text)
}

proof fn lemma_not_space(w: Seq<char>)
    requires
        wrapping::is_word(w),
    ensures
        w != seq![' '],
{
    assert(!chars::is_white_space(w[0]));
}

/// One more word, behind a space, goes where prose puts it.
proof fn lemma_filling_step(
    st: layout::LayoutState,
    words: Seq<wrap::WordView>,
    style: Style,
    width: nat,
    start: int,
    i: int,
) -> (next_start: int)
    requires
        width > 0,
        are_solid(words),
        i < words.len(),
        is_filling(st, words, width, start, i),
    ensures
        ({
            let space = text::SpanView { content: seq![' '], style };
            let word = text::SpanView { content: words[i].text, style };
            let spaced = layout::measured_spans(seq![space, word]);
            is_filling(
                layout::with_word(layout::with_word(st, spaced[0], width), spaced[1], width),
                words,
                width,
                next_start,
                i + 1,
            )
        }),
{
    let space = text::SpanView { content: seq![' '], style };
    let span = text::SpanView { content: words[i].text, style };
    let spaced = layout::measured_spans(seq![space, span]);
    let mid = layout::with_word(st, spaced[0], width);
    let next = layout::with_word(mid, spaced[1], width);
    let rest = words.skip(start);
    let k = i - start;
    let part = rest.take(k);
    let longer = rest.take(k + 1);
    let word = words[i];
    assert(wrapping::is_word(words[i].text));
    lemma_not_space(word.text);
    assert(longer.drop_last() == part);
    assert(longer.last() == word);
    assert(wrap::joined_width(longer) == st.width + 1 + word.width);
    assert(wrap::joined(longer) == wrap::joined(part).push(' ') + word.text);
    if st.width + 1 + word.width > width {
        let line = text::line_text(st.spans);
        assert(layout::without_last_space(mid.spans) == st.spans) by {
            if mid.spans != st.spans {
                assert(mid.spans.drop_last() == st.spans);
            }
        }
        assert(next.lines == st.lines.push(st.spans));
        assert(next.spans == seq![span]);
        lemma_line_text_one(span);
        assert(wrap::line_len(rest, 0, width) == k);
        assert(rest.skip(k) == words.skip(i));
        let tail = wrap::filled(words.skip(i), width);
        assert(wrap::filled(rest, width) == seq![wrap::joined(part)] + tail);
        assert(text::line_texts(next.lines) == text::line_texts(st.lines).push(line));
        assert(text::line_texts(st.lines) + (seq![line] + tail) == text::line_texts(
            st.lines,
        ).push(line) + tail);
        let one = words.skip(i).take(1);
        assert(one.len() == 1 && one[0] == word);
        assert(wrap::line_len(words.skip(i), 0, width) == wrap::line_len(
            words.skip(i),
            1,
            width,
        ));
        i
    } else {
        let raw = text::raw_span(seq![' ']);
        assert(mid.spans == st.spans.push(raw));
        assert(next.spans == st.spans.push(raw).push(span));
        reflow::lemma_line_text_push(st.spans, raw);
        reflow::lemma_line_text_push(st.spans.push(raw), span);
        assert(text::line_text(next.spans) == wrap::joined(longer)) by {
            let line = wrap::joined(part);
            assert(line + seq![' '] == line.push(' '));
        }
        start
    }
}

proof fn lemma_filling(words: Seq<wrap::WordView>, style: Style, width: nat, i: int) -> (start: int)
    requires
        width > 0,
        are_solid(words),
        0 < i <= words.len(),
    ensures
        is_filling(
            layout::with_words(layout::measured_spans(spaced(words.take(i), style)), width),
            words,
            width,
            start,
            i,
        ),
    decreases i,
{
    let head = words.take(i);
    let all = layout::measured_spans(spaced(head, style));
    let st = layout::with_words(all, width);
    assert(wrapping::is_word(words[i - 1].text));
    if i == 1 {
        let span = text::SpanView { content: words[0].text, style };
        assert(head[0] == words[0]);
        assert(all.drop_last() == Seq::<layout::MeasuredSpanView>::empty());
        assert(layout::with_words(all.drop_last(), width) == layout::empty_layout());
        lemma_not_space(words[0].text);
        assert(st.spans == seq![span]);
        lemma_line_text_one(span);
        assert(words.skip(0) == words);
        assert(text::line_texts(st.lines) == Seq::<Seq<char>>::empty());
        assert(text::line_texts(st.lines) + wrap::filled(words, width) == wrap::filled(
            words,
            width,
        ));
        assert(words.take(1)[0] == words[0]);
        0
    } else {
        let start = lemma_filling(words, style, width, i - 1);
        let init = words.take(i - 1);
        assert(head.drop_last() == init);
        assert(head.last() == words[i - 1]);
        let before = layout::measured_spans(spaced(init, style));
        let space = text::SpanView { content: seq![' '], style };
        let word = text::SpanView { content: words[i - 1].text, style };
        let two = layout::measured_spans(seq![space, word]);
        assert(all == before + two);
        assert(all.drop_last() == before.push(two[0]));
        assert(all.last() == two[1]);
        assert(before.push(two[0]).drop_last() == before);
        let mid = layout::with_words(all.drop_last(), width);
        assert(mid == layout::with_word(layout::with_words(before, width), two[0], width));
        lemma_filling_step(
            layout::with_words(before, width),
            words,
            style,
            width,
            start,
            i - 1,
        )
    }
}

/// A paragraph of words with single spaces between them, without any marker, is
/// laid out as prose is wrapped, as long as every word takes a column.
pub proof fn law_paragraphs_wrap_as_prose(
    line: Seq<char>,
    width: nat,
    base_style: Style,
    link_style: Style,
    options: RenderOptions,
)
    requires
        width > 0,
        is_single_spaced(line),
        markup::next_marker(line) == line.len(),
        forall|k: int|
            0 <= k < chars::words_of(line).len() ==> width::str_width(
                #[trigger] chars::words_of(line)[k],
            ) > 0,
    ensures
        text::line_texts(layout::link_lines(line, width, base_style, link_style, options))
            == wrap::text_lines(line, width),
{
    let words = wrap::measured_words(chars::words_of(line));
    assert forall|k: int| 0 <= k < words.len() implies wrapping::is_word(#[trigger] words[k].text)
        && words[k].width > 0 && words[k].width == width::str_width(words[k].text) by {
        wrapping::law_words_are_words(line, k);
        assert(width::str_width(chars::words_of(line)[k]) > 0);
    }
    let lines = layout::link_lines(line, width, base_style, link_style, options);
    if words.len() == 0 {
        assert(line == Seq::<char>::empty());
        assert(chars::trimmed_start(line) == line);
        assert(text::line_text(seq![]) == Seq::<char>::empty());
        assert(text::line_texts(lines) == seq![Seq::<char>::empty()]);
    } else {
        let cut = spaced(words, base_style);
        let start = lemma_filling(words, base_style, width, words.len() as int);
        assert(words.take(words.len() as int) == words);
        let st = layout::with_words(layout::measured_spans(cut), width);
        lemma_not_blank(line);
        assert(line.len() > 0);
        inline_text::law_plain_text(line, base_style, link_style, options);
        lemma_all_words_plain(line, base_style);
        lemma_span_words_of_joined(words, base_style);
        assert(lines == layout::laid_out(layout::measured_spans(cut), width));
        assert(lines == st.lines.push(st.spans));
        let rest = words.skip(start);
        assert(rest.take(rest.len() as int) == rest);
        assert(wrap::filled(rest.skip(rest.len() as int), width) == Seq::<Seq<char>>::empty());
        assert(wrap::filled(rest, width) == seq![wrap::joined(rest)]) by {
            let one = seq![wrap::joined(rest)];
            assert(one + Seq::<Seq<char>>::empty() == one);
        }
        assert(text::line_texts(lines) == text::line_texts(st.lines) + seq![
            text::line_text(st.spans),
        ]);
    }
}

/// The words of a line without markers are those of its one span.
proof fn lemma_all_words_plain(line: Seq<char>, style: Style)
    ensures
        layout::all_words(seq![text::SpanView { content: line, style }]) == layout::span_words(
            line,
            style,
        ),
{
    let one = seq![text::SpanView { content: line, style }];
    assert(one.drop_last() == Seq::<text::SpanView>::empty());
    assert(layout::all_words(one.drop_last()) == Seq::<text::SpanView>::empty());
    let words = layout::span_words(line, style);
    assert(Seq::<text::SpanView>::empty() + words == words);
}

/// A text with a word in it is not blank.
proof fn lemma_not_blank(s: Seq<char>)
    requires
        chars::words_of(s).len() > 0,
    ensures
        chars::trimmed(s).len() > 0,
        s.len() > 0,
{
    let t = chars::trimmed_start(s);
    chars::lemma_trimmed_start(s);
    chars::lemma_trimmed_end(t);
    assert(t.len() > 0);
    if chars::trimmed_end(t).len() == 0 {
        assert(chars::is_white_space(t[0]));
    }
}

/// A blank text has no words.
pub proof fn lemma_blank_has_no_words(s: Seq<char>)
    requires
        chars::trimmed(s).len() == 0,
    ensures
        chars::words_of(s).len() == 0,
{
    if chars::words_of(s).len() > 0 {
        lemma_not_blank(s);
    }
}

/// The words of a plain paragraph are among those that it is laid out with.
pub proof fn lemma_words_are_laid_out(
    line: Seq<char>,
    base_style: Style,
    link_style: Style,
    options: RenderOptions,
    k: int,
)
    requires
        is_single_spaced(line),
        markup::next_marker(line) == line.len(),
        0 <= k < chars::words_of(line).len(),
    ensures
        ({
            let cut = layout::all_words(
                markup::inline_spans(line, base_style, link_style, options),
            );
            2 * k < cut.len() && cut[2 * k].content == chars::words_of(line)[k]
        }),
{
    let words = wrap::measured_words(chars::words_of(line));
    assert forall|j: int| 0 <= j < words.len() implies wrapping::is_word(
        #[trigger] words[j].text,
    ) by {
        wrapping::law_words_are_words(line, j);
    }
    lemma_not_blank(line);
    inline_text::law_plain_text(line, base_style, link_style, options);
    lemma_all_words_plain(line, base_style);
    lemma_span_words_of_joined(words, base_style);
    lemma_spaced(words, base_style);
    assert(words[k].text == chars::words_of(line)[k]);
}

} // verus!
