//! Tables: bordered rows of cells, each wrapped within its column.
use vstd::prelude::*;

use crate::block;
use crate::block::Block;
use crate::chars;
use crate::chars::{push_chars, repeat_char, to_text};
use crate::laws::plain;
use crate::laws::tables;
use crate::layout;
use crate::layout::{measure_spans, MeasuredSpan};
use crate::markup;
use crate::markup::parse_inline_spans;
use crate::style::{link_style, rule_style, RenderOptions, Style};
use crate::text;
use crate::text::{Line, Span};
use crate::width;
use crate::wrap;
use crate::wrap::wrap_cell_text;

verus! {

// ---------------------------------------------------------------------------
// Columns and borders

/// The narrowest column.
pub const MIN_COL_WIDTH: usize = 4;

/// The width of each of `num_cols` columns in `width` columns of the terminal,
/// of which each takes three for its borders and the table one more.
pub open spec fn column_width(num_cols: nat, width: nat) -> nat {
    let borders = 3 * num_cols + 1;
    let free = if width > borders {
        (width - borders) as nat
    } else {
        0
    };
    if free / num_cols > MIN_COL_WIDTH {
        free / num_cols
    } else {
        MIN_COL_WIDTH as nat
    }
}

/// The width of each of `num_cols` columns in a terminal of `term_width` columns.
pub fn table_col_width(num_cols: usize, term_width: usize) -> (r: usize)
    requires
        num_cols > 0,
    ensures
        r == column_width(num_cols as nat, term_width as nat),
{
    let free: usize = match num_cols.checked_mul(3) {
        Some(borders) => term_width.saturating_sub(borders).saturating_sub(1),
        None => 0,
    };
    let col_width = free / num_cols;
    if col_width > MIN_COL_WIDTH {
        col_width
    } else {
        MIN_COL_WIDTH
    }
}

/// What follows the left end of a border over `num_cols` columns.
pub open spec fn border_cells(
    num_cols: nat,
    col_width: nat,
    mid: Seq<char>,
    right: Seq<char>,
) -> Seq<char>
    decreases num_cols,
{
    let fill = chars::repeated('\u{2500}', col_width);
    if num_cols == 0 {
        seq![]
    } else if num_cols == 1 {
        fill + right
    } else {
        fill + mid + border_cells((num_cols - 1) as nat, col_width, mid, right)
    }
}

/// A border over `num_cols` columns.
pub open spec fn border(
    num_cols: nat,
    col_width: nat,
    style: Style,
    left: Seq<char>,
    mid: Seq<char>,
    right: Seq<char>,
) -> Seq<text::SpanView> {
    seq![
        text::SpanView { content: left + border_cells(num_cols, col_width, mid, right), style },
    ]
}

/// Draws a border over `num_cols` columns.
pub fn render_table_border(
    num_cols: usize,
    col_width: usize,
    sep_style: Style,
    left: &[char],
    mid: &[char],
    right: &[char],
) -> (r: Line)
    ensures
        r@ == border(num_cols as nat, col_width as nat, sep_style, left@, mid@, right@),
{
    let fill = repeat_char('\u{2500}', col_width);
    let fill_chars = crate::chars::to_chars(fill.as_str());
    let mut s = to_text(left);
    let ghost whole = left@ + border_cells(num_cols as nat, col_width as nat, mid@, right@);
    let mut i: usize = 0;
    while i < num_cols
        invariant
            i <= num_cols,
            fill_chars@ == chars::repeated('\u{2500}', col_width as nat),
            s@ + border_cells((num_cols - i) as nat, col_width as nat, mid@, right@) == whole,
        decreases num_cols - i,
    {
        let ghost before = s@;
        let ghost tail = border_cells((num_cols - i - 1) as nat, col_width as nat, mid@, right@);
        push_chars(&mut s, fill_chars.as_slice());
        if i + 1 < num_cols {
            push_chars(&mut s, mid);
            assert(before + (fill_chars@ + mid@ + tail) == before + fill_chars@ + mid@ + tail);
        } else {
            push_chars(&mut s, right);
            assert(tail == Seq::<char>::empty());
            assert(before + (fill_chars@ + right@) == before + fill_chars@ + right@ + tail);
        }
        i = i + 1;
    }
    assert(s@ + Seq::<char>::empty() == s@);
    Line::of_span(Span::styled(s, sep_style))
}

/// The border above a table.
pub open spec fn top_border(num_cols: nat, col_width: nat, style: Style) -> Seq<text::SpanView> {
    border(
        num_cols,
        col_width,
        style,
        seq!['\u{250C}', '\u{2500}'],
        seq!['\u{2500}', '\u{252C}', '\u{2500}'],
        seq!['\u{2500}', '\u{2510}'],
    )
}

/// The border between two rows.
pub open spec fn mid_border(num_cols: nat, col_width: nat, style: Style) -> Seq<text::SpanView> {
    border(
        num_cols,
        col_width,
        style,
        seq!['\u{251C}', '\u{2500}'],
        seq!['\u{2500}', '\u{253C}', '\u{2500}'],
        seq!['\u{2500}', '\u{2524}'],
    )
}

/// The border below a table.
pub open spec fn bottom_border(num_cols: nat, col_width: nat, style: Style) -> Seq<
    text::SpanView,
> {
    border(
        num_cols,
        col_width,
        style,
        seq!['\u{2514}', '\u{2500}'],
        seq!['\u{2500}', '\u{2534}', '\u{2500}'],
        seq!['\u{2500}', '\u{2518}'],
    )
}

// ---------------------------------------------------------------------------
// Rows

/// The columns that measured spans take.
pub open spec fn total_width(spans: Seq<layout::MeasuredSpanView>) -> nat
    decreases spans.len(),
{
    if spans.len() == 0 {
        0
    } else {
        total_width(spans.drop_last()) + spans.last().width as nat
    }
}

/// Spans followed by as much space as it takes to fill `col_width` columns.
pub open spec fn padded(spans: Seq<layout::MeasuredSpanView>, col_width: nat) -> Seq<
    text::SpanView,
> {
    let used = total_width(spans);
    let pad = if used < col_width {
        (col_width - used) as nat
    } else {
        0
    };
    Seq::new(spans.len(), |i: int| spans[i].span).push(text::raw_span(chars::repeated(' ', pad)))
}

/// Appends spans to `out`, and as much space as it takes to fill `col_width`
/// columns.
pub fn push_padded(out: &mut Vec<Span>, spans: Vec<MeasuredSpan>, col_width: usize)
    ensures
        chars::views(final(out)@) == chars::views(old(out)@) + padded(
            chars::views(spans@),
            col_width as nat,
        ),
{
    let ghost all = chars::views(spans@);
    let ghost contents = Seq::new(all.len(), |i: int| all[i].span);
    let ghost before = chars::views(out@);
    let mut pad: usize = col_width;
    for measured in it: spans
        invariant
            all == chars::views(it.seq()),
            contents == Seq::new(all.len(), |i: int| all[i].span),
            chars::views(out@) == before + contents.take(it.index() as int),
            pad == (if total_width(all.take(it.index() as int)) < col_width {
                col_width - total_width(all.take(it.index() as int))
            } else {
                0
            }),
    {
        proof {
            let i = it.index() as int;
            assert(all.take(i + 1).drop_last() == all.take(i));
            assert(all.take(i + 1).last() == measured@);
        }
        let ghost so_far = chars::views(out@);
        pad = pad.saturating_sub(measured.width);
        out.push(measured.span);
        assert(chars::views(out@) == so_far.push(contents[it.index() as int]));
    }
    assert(all.take(all.len() as int) == all);
    assert(contents.take(all.len() as int) == contents);
    let ghost so_far = chars::views(out@);
    let space = Span::raw(repeat_char(' ', pad));
    let ghost last = space@;
    out.push(space);
    assert(chars::views(out@) == so_far.push(last));
}

/// The line of a wrapped cell that stands in visual line `row` of its table row:
/// nothing, where the cell has fewer lines.
pub open spec fn segment_at(segments: Seq<Seq<char>>, row: int) -> Seq<char> {
    if 0 <= row < segments.len() {
        segments[row]
    } else {
        seq![]
    }
}

/// The spans of one visual line of a table row, up to and with the first `k`
/// cells: the bar on the left, then each cell, padded, and the bar behind it.
pub open spec fn row_spans(
    wrapped: Seq<Seq<Seq<char>>>,
    row: int,
    k: nat,
    col_width: nat,
    base_style: Style,
    options: RenderOptions,
) -> Seq<text::SpanView>
    decreases k,
{
    let sep_style = rule_style(options.palette);
    if k == 0 {
        seq![text::SpanView { content: seq!['\u{2502}', ' '], style: sep_style }]
    } else {
        let bar = if k < wrapped.len() {
            seq![' ', '\u{2502}', ' ']
        } else {
            seq![' ', '\u{2502}']
        };
        let cell = markup::inline_spans(
            segment_at(wrapped[k - 1], row),
            base_style,
            link_style(options.palette),
            options,
        );
        (row_spans(wrapped, row, (k - 1) as nat, col_width, base_style, options) + padded(
            layout::measured_spans(cell),
            col_width,
        )).push(text::SpanView { content: bar, style: sep_style })
    }
}

/// The number of lines of the cell that has the most of them, among the first
/// `k`; there is always one.
pub open spec fn row_height(wrapped: Seq<Seq<Seq<char>>>, k: nat) -> nat
    decreases k,
{
    if k == 0 {
        1
    } else {
        let rest = row_height(wrapped, (k - 1) as nat);
        if wrapped[k - 1].len() > rest {
            wrapped[k - 1].len()
        } else {
            rest
        }
    }
}

/// The visual lines of a row of wrapped cells.
pub open spec fn wrapped_row_lines(
    wrapped: Seq<Seq<Seq<char>>>,
    col_width: nat,
    base_style: Style,
    options: RenderOptions,
) -> Seq<Seq<text::SpanView>> {
    Seq::new(
        row_height(wrapped, wrapped.len()),
        |row: int| row_spans(wrapped, row, wrapped.len(), col_width, base_style, options),
    )
}

/// The cells of a row, each wrapped within its column.
pub open spec fn wrapped_cells(cells: Seq<Seq<char>>, col_width: nat) -> Seq<Seq<Seq<char>>> {
    Seq::new(cells.len(), |i: int| wrap::cell_lines(cells[i], col_width))
}

/// The visual lines of a table row. A row without cells is one empty line.
pub open spec fn row_lines(
    cells: Seq<Seq<char>>,
    width: nat,
    base_style: Style,
    options: RenderOptions,
) -> Seq<Seq<text::SpanView>> {
    if cells.len() == 0 {
        seq![seq![]]
    } else {
        let col_width = column_width(cells.len(), width);
        wrapped_row_lines(wrapped_cells(cells, col_width), col_width, base_style, options)
    }
}

/// What vectors of strings stand for.
pub open spec fn nested(v: Seq<Vec<String>>) -> Seq<Seq<Seq<char>>> {
    Seq::new(v.len(), |i: int| chars::views(v[i]@))
}

/// Draws one visual line of a row of wrapped cells.
fn render_row_line(
    wrapped: &Vec<Vec<String>>,
    row: usize,
    col_width: usize,
    base_style: Style,
    options: RenderOptions,
) -> (r: Line)
    ensures
        r@ == row_spans(
            nested(wrapped@),
            row as int,
            wrapped@.len(),
            col_width as nat,
            base_style,
            options,
        ),
        wrapped@.len() > 0 && !options.osc8 && plain::are_plain_cells(
            nested(wrapped@),
            col_width as nat,
        ) ==> plain::is_aligned(text::line_text(r@), wrapped@.len(), col_width as nat),
{
    let ghost all = nested(wrapped@);
    let sep_style = rule_style(options.palette);
    let mut spans: Vec<Span> = Vec::new();
    spans.push(Span::styled(to_text(&['\u{2502}', ' ']), sep_style));
    proof {
        assert(['\u{2502}', ' ']@ == seq!['\u{2502}', ' ']);
        assert([' ', '\u{2502}', ' ']@ == seq![' ', '\u{2502}', ' ']);
        assert([' ', '\u{2502}']@ == seq![' ', '\u{2502}']);
        assert(chars::views(spans@) == row_spans(
            all,
            row as int,
            0,
            col_width as nat,
            base_style,
            options,
        ));
    }
    let mut i: usize = 0;
    while i < wrapped.len()
        invariant
            all == nested(wrapped@),
            sep_style == rule_style(options.palette),
            i <= wrapped@.len(),
            [' ', '\u{2502}', ' ']@ == seq![' ', '\u{2502}', ' '],
            [' ', '\u{2502}']@ == seq![' ', '\u{2502}'],
            chars::views(spans@) == row_spans(
                all,
                row as int,
                i as nat,
                col_width as nat,
                base_style,
                options,
            ),
            !options.osc8 && plain::are_plain_cells(all, col_width as nat) ==> forall|j: int|
                0 <= j < i ==> plain::is_narrow_cell(
                    segment_at(#[trigger] all[j], row as int),
                    col_width as nat,
                    base_style,
                    options,
                ),
        decreases wrapped@.len() - i,
    {
        let segments = &wrapped[i];
        let segment: &str = if row < segments.len() {
            segments[row].as_str()
        } else {
            ""
        };
        proof {
            reveal_strlit("");
            assert(all[i as int] == chars::views(segments@));
            assert(segment@ == segment_at(all[i as int], row as int));
        }
        let cell_spans = parse_inline_spans(
            segment,
            base_style,
            link_style(options.palette),
            options,
        );
        let measured = measure_spans(cell_spans.as_slice());
        proof {
            if !options.osc8 && plain::are_plain_cells(all, col_width as nat) {
                let shown = tables::shown_cell(segment@, base_style, options);
                assert(width::is_plain(segment@) && segment@.len() <= col_width) by {
                    if row < segments@.len() {
                        assert(all[i as int][row as int] == segment@);
                    }
                }
                assert forall|k: int| 0 <= k < shown.len() implies width::str_width(
                    (#[trigger] shown[k]).content,
                ) == shown[k].content.len() by {
                    assert(shown[k] == cell_spans@[k]@);
                    plain::law_inline_spans_are_plain(
                        segment@,
                        base_style,
                        link_style(options.palette),
                        options,
                        k,
                    );
                    assert(width::is_plain(cell_spans@[k].content@));
                }
                plain::lemma_plain_cell_is_narrow(
                    segment@,
                    col_width as nat,
                    base_style,
                    options,
                );
            }
        }
        push_padded(&mut spans, measured, col_width);
        let bar = if i + 1 < wrapped.len() {
            to_text(&[' ', '\u{2502}', ' '])
        } else {
            to_text(&[' ', '\u{2502}'])
        };
        let ghost before = chars::views(spans@);
        let span = Span::styled(bar, sep_style);
        let ghost last = span@;
        spans.push(span);
        assert(chars::views(spans@) == before.push(last));
        i = i + 1;
    }
    proof {
        if wrapped@.len() > 0 && !options.osc8 && plain::are_plain_cells(all, col_width as nat) {
            plain::law_bars_stay_aligned(all, row as int, col_width as nat, base_style, options);
        }
    }
    Line { spans }
}

/// Draws a row of wrapped cells: as many visual lines as the cell with the most
/// lines has.
pub fn render_wrapped_row(
    wrapped: &Vec<Vec<String>>,
    col_width: usize,
    base_style: Style,
    options: RenderOptions,
) -> (r: Vec<Line>)
    ensures
        chars::views(r@) == wrapped_row_lines(
            nested(wrapped@),
            col_width as nat,
            base_style,
            options,
        ),
        wrapped@.len() > 0 && !options.osc8 && plain::are_plain_cells(
            nested(wrapped@),
            col_width as nat,
        ) ==> forall|i: int|
            0 <= i < r@.len() ==> plain::is_aligned(
                text::line_text((#[trigger] r@[i])@),
                wrapped@.len(),
                col_width as nat,
            ),
{
    let ghost all = nested(wrapped@);
    let mut height: usize = 1;
    let mut i: usize = 0;
    while i < wrapped.len()
        invariant
            all == nested(wrapped@),
            i <= wrapped@.len(),
            height == row_height(all, i as nat),
        decreases wrapped@.len() - i,
    {
        assert(all[i as int] == chars::views(wrapped@[i as int]@));
        if wrapped[i].len() > height {
            height = wrapped[i].len();
        }
        i = i + 1;
    }
    let ghost done = wrapped_row_lines(all, col_width as nat, base_style, options);
    let mut lines: Vec<Line> = Vec::new();
    let mut row: usize = 0;
    while row < height
        invariant
            all == nested(wrapped@),
            row <= height,
            height == row_height(all, all.len()),
            done == wrapped_row_lines(all, col_width as nat, base_style, options),
            chars::views(lines@) == done.take(row as int),
            wrapped@.len() > 0 && !options.osc8 && plain::are_plain_cells(all, col_width as nat)
                ==> forall|i: int|
                0 <= i < lines@.len() ==> plain::is_aligned(
                    text::line_text((#[trigger] lines@[i])@),
                    wrapped@.len(),
                    col_width as nat,
                ),
        decreases height - row,
    {
        let ghost before = chars::views(lines@);
        let line = render_row_line(wrapped, row, col_width, base_style, options);
        let ghost shown = line@;
        lines.push(line);
        assert(shown == done[row as int]);
        assert(chars::views(lines@) == before.push(done[row as int]));
        row = row + 1;
    }
    assert(chars::views(lines@) == done);
    lines
}

/// Renders a table row. A cell that is wider than its column wraps to further
/// visual lines; the others are blank there, so that the bars stay aligned.
pub fn render_table_row(
    cells: &Vec<String>,
    width: usize,
    base_style: Style,
    options: RenderOptions,
) -> (r: Vec<Line>)
    ensures
        chars::views(r@) == row_lines(chars::views(cells@), width as nat, base_style, options),
        cells@.len() > 0 && !options.osc8 && plain::are_plain(chars::views(cells@)) ==> (forall|i: int|
            0 <= i < r@.len() ==> plain::is_aligned(
                text::line_text((#[trigger] r@[i])@),
                cells@.len(),
                column_width(cells@.len(), width as nat),
            )),
{
    if cells.len() == 0 {
        let mut out: Vec<Line> = Vec::new();
        out.push(Line::empty());
        assert(chars::views(out@) == seq![Seq::<text::SpanView>::empty()]);
        return out;
    }
    let col_width = table_col_width(cells.len(), width);
    let ghost all = wrapped_cells(chars::views(cells@), col_width as nat);
    let mut wrapped: Vec<Vec<String>> = Vec::new();
    let mut i: usize = 0;
    while i < cells.len()
        invariant
            i <= cells@.len(),
            all == wrapped_cells(chars::views(cells@), col_width as nat),
            nested(wrapped@) == all.take(i as int),
            col_width > 0,
            plain::are_plain(chars::views(cells@)) ==> plain::are_plain_cells(
                nested(wrapped@),
                col_width as nat,
            ),
        decreases cells@.len() - i,
    {
        let ghost before = nested(wrapped@);
        let lines = wrap_cell_text(cells[i].as_str(), col_width);
        let ghost shown = chars::views(lines@);
        wrapped.push(lines);
        assert(shown == all[i as int]);
        assert(nested(wrapped@) == before.push(all[i as int]));
        proof {
            if plain::are_plain(chars::views(cells@)) {
                let cell = chars::views(cells@)[i as int];
                assert(width::is_plain(cell));
                let now = nested(wrapped@);
                assert forall|j: int, k: int|
                    0 <= j < now.len() && 0 <= k < now[j].len() implies width::is_plain(
                    #[trigger] now[j][k],
                ) && now[j][k].len() <= col_width by {
                    if j < i {
                        assert(now[j] == before[j]);
                        assert(width::is_plain(before[j][k]));
                    } else {
                        plain::law_cell_lines_are_plain(cell, col_width as nat, k);
                        assert(now[j] == shown);
                        assert(shown[k] == wrapped@[i as int]@[k]@);
                    }
                }
            }
        }
        i = i + 1;
    }
    assert(nested(wrapped@) == all);
    render_wrapped_row(&wrapped, col_width, base_style, options)
}

// ---------------------------------------------------------------------------
// Tables

/// The blocks that make up tables.
pub open spec fn is_table_block(b: block::BlockView) -> bool {
    b is TableRow || b is TableSeparator
}

/// Whether a block belongs to a table.
pub fn belongs_to_table(b: &Block) -> (r: bool)
    ensures
        r == is_table_block(b@),
{
    match b {
        Block::TableRow(_) => true,
        Block::TableSeparator => true,
        _ => false,
    }
}

/// The number of cells of the longest row, if there is a row.
pub open spec fn longest_row(blocks: Seq<block::BlockView>) -> Option<nat>
    decreases blocks.len(),
{
    if blocks.len() == 0 {
        None
    } else {
        let before = longest_row(blocks.drop_last());
        match blocks.last() {
            block::BlockView::TableRow(cells) => match before {
                Some(n) => if cells.len() > n {
                    Some(cells.len())
                } else {
                    Some(n)
                },
                None => Some(cells.len()),
            },
            _ => before,
        }
    }
}

/// The number of columns of a table: that of its longest row, or one.
pub open spec fn table_columns(blocks: Seq<block::BlockView>) -> nat {
    match longest_row(blocks) {
        Some(n) => n,
        None => 1,
    }
}

/// The lines of the block at position `i` of a table, between the top and the
/// bottom border. A row that another row follows has a border below it.
pub open spec fn table_part(
    blocks: Seq<block::BlockView>,
    i: int,
    width: nat,
    base_style: Style,
    options: RenderOptions,
) -> Seq<Seq<text::SpanView>> {
    let num_cols = table_columns(blocks);
    let mid = mid_border(num_cols, column_width(num_cols, width), rule_style(options.palette));
    match blocks[i] {
        block::BlockView::TableRow(cells) => {
            if i + 1 < blocks.len() && blocks[i + 1] is TableRow {
                row_lines(cells, width, base_style, options).push(mid)
            } else {
                row_lines(cells, width, base_style, options)
            }
        },
        block::BlockView::TableSeparator => seq![mid],
        _ => seq![],
    }
}

/// The lines of the first `k` blocks of a table, with the top border.
pub open spec fn table_head(
    blocks: Seq<block::BlockView>,
    k: nat,
    width: nat,
    base_style: Style,
    options: RenderOptions,
) -> Seq<Seq<text::SpanView>>
    decreases k,
{
    let num_cols = table_columns(blocks);
    if k == 0 {
        seq![top_border(num_cols, column_width(num_cols, width), rule_style(options.palette))]
    } else {
        table_head(blocks, (k - 1) as nat, width, base_style, options) + table_part(
            blocks,
            k - 1,
            width,
            base_style,
            options,
        )
    }
}

/// The lines of a table.
pub open spec fn table_lines(
    blocks: Seq<block::BlockView>,
    width: nat,
    base_style: Style,
    options: RenderOptions,
) -> Seq<Seq<text::SpanView>> {
    let num_cols = table_columns(blocks);
    table_head(blocks, blocks.len(), width, base_style, options).push(
        bottom_border(num_cols, column_width(num_cols, width), rule_style(options.palette)),
    )
}

/// The number of columns of a table.
fn count_columns(blocks: &[Block]) -> (r: usize)
    ensures
        r == table_columns(chars::views(blocks@)),
{
    let ghost all = chars::views(blocks@);
    let mut longest: Option<usize> = None;
    let mut i: usize = 0;
    while i < blocks.len()
        invariant
            all == chars::views(blocks@),
            i <= blocks@.len(),
            match longest {
                Some(n) => longest_row(all.take(i as int)) == Some(n as nat),
                None => longest_row(all.take(i as int)) is None,
            },
        decreases blocks@.len() - i,
    {
        assert(all.take(i + 1).drop_last() == all.take(i as int));
        assert(all.take(i + 1).last() == blocks@[i as int]@);
        if let Block::TableRow(cells) = &blocks[i] {
            assert(chars::views(cells@).len() == cells@.len());
            longest = match longest {
                Some(n) => if cells.len() > n {
                    Some(cells.len())
                } else {
                    Some(n)
                },
                None => Some(cells.len()),
            };
        }
        i = i + 1;
    }
    assert(all.take(i as int) == all);
    match longest {
        Some(n) => n,
        None => 1,
    }
}

/// Renders a table: consecutive rows and separator rows, between a top and a
/// bottom border.
pub fn render_table_group(
    blocks: &[Block],
    width: usize,
    base_style: Style,
    options: RenderOptions,
) -> (r: Vec<Line>)
    requires
        table_columns(chars::views(blocks@)) > 0,
    ensures
        chars::views(r@) == table_lines(chars::views(blocks@), width as nat, base_style, options),
        ({
            let num_cols = table_columns(chars::views(blocks@));
            let col_width = column_width(num_cols, width as nat);
            !options.osc8 && plain::is_plain_grid(chars::views(blocks@), num_cols)
                ==> plain::are_as_long(chars::views(r@), num_cols * (col_width + 3) + 1)
        }),
{
    let ghost all = chars::views(blocks@);
    let sep_style = rule_style(options.palette);
    let num_cols = count_columns(blocks);
    let col_width = table_col_width(num_cols, width);
    let ghost len = (num_cols * (col_width + 3) + 1) as nat;
    let ghost is_grid = !options.osc8 && plain::is_plain_grid(all, num_cols as nat);
    proof {
        plain::law_borders_are_as_long_as_rows(num_cols as nat, col_width as nat, sep_style);
    }
    let mut lines: Vec<Line> = Vec::new();
    let top = render_table_border(
        num_cols,
        col_width,
        sep_style,
        &['\u{250C}', '\u{2500}'],
        &['\u{2500}', '\u{252C}', '\u{2500}'],
        &['\u{2500}', '\u{2510}'],
    );
    lines.push(top);
    proof {
        assert(['\u{250C}', '\u{2500}']@ == seq!['\u{250C}', '\u{2500}']);
        assert(['\u{2500}', '\u{252C}', '\u{2500}']@ == seq!['\u{2500}', '\u{252C}', '\u{2500}']);
        assert(['\u{2500}', '\u{2510}']@ == seq!['\u{2500}', '\u{2510}']);
        assert(chars::views(lines@) == table_head(all, 0, width as nat, base_style, options));
    }
    let mut i: usize = 0;
    while i < blocks.len()
        invariant
            all == chars::views(blocks@),
            sep_style == rule_style(options.palette),
            num_cols == table_columns(all),
            col_width == column_width(num_cols as nat, width as nat),
            i <= blocks@.len(),
            chars::views(lines@) == table_head(all, i as nat, width as nat, base_style, options),
            num_cols > 0,
            len == num_cols * (col_width + 3) + 1,
            text::line_text(mid_border(num_cols as nat, col_width as nat, sep_style)).len() == len,
            is_grid == (!options.osc8 && plain::is_plain_grid(all, num_cols as nat)),
            is_grid ==> plain::are_as_long(chars::views(lines@), len),
        decreases blocks@.len() - i,
    {
        let ghost before = chars::views(lines@);
        let ghost part = table_part(all, i as int, width as nat, base_style, options);
        assert(all[i as int] == blocks@[i as int]@);
        let mut with_border = false;
        match &blocks[i] {
            Block::TableRow(cells) => {
                let mut rows = render_table_row(cells, width, base_style, options);
                let ghost row_texts = rows@;
                let ghost shown = chars::views(rows@);
                lines.append(&mut rows);
                assert(chars::views(lines@) == before + shown);
                proof {
                    if is_grid {
                        let row = chars::views(cells@);
                        assert(all[i as int] == block::BlockView::TableRow(row));
                        assert(row.len() == num_cols && plain::are_plain(row));
                        assert forall|k: int| 0 <= k < shown.len() implies text::line_text(
                            #[trigger] shown[k],
                        ).len() == len by {
                            assert(plain::is_aligned(
                                text::line_text(row_texts[k]@),
                                num_cols as nat,
                                col_width as nat,
                            ));
                            assert(shown[k] == row_texts[k]@);
                        }
                        plain::lemma_as_long_concat(before, shown, len);
                    }
                }
                if i + 1 < blocks.len() {
                    assert(all[i + 1] == blocks@[i + 1]@);
                    with_border = match &blocks[i + 1] {
                        Block::TableRow(_) => true,
                        _ => false,
                    };
                }
            },
            Block::TableSeparator => {
                with_border = true;
            },
            _ => {},
        }
        if with_border {
            let ghost so_far = chars::views(lines@);
            let mid = mid_line(num_cols, col_width, sep_style);
            let ghost shown = mid@;
            lines.push(mid);
            assert(chars::views(lines@) == so_far.push(shown));
        }
        assert(chars::views(lines@) == before + part);
        i = i + 1;
    }
    let bottom = render_table_border(
        num_cols,
        col_width,
        sep_style,
        &['\u{2514}', '\u{2500}'],
        &['\u{2500}', '\u{2534}', '\u{2500}'],
        &['\u{2500}', '\u{2518}'],
    );
    proof {
        assert(['\u{2514}', '\u{2500}']@ == seq!['\u{2514}', '\u{2500}']);
        assert(['\u{2500}', '\u{2534}', '\u{2500}']@ == seq!['\u{2500}', '\u{2534}', '\u{2500}']);
        assert(['\u{2500}', '\u{2518}']@ == seq!['\u{2500}', '\u{2518}']);
    }
    let ghost before = chars::views(lines@);
    let ghost shown = bottom@;
    lines.push(bottom);
    assert(chars::views(lines@) == before.push(shown));
    lines
}

/// Draws the border between two rows.
fn mid_line(num_cols: usize, col_width: usize, sep_style: Style) -> (r: Line)
    ensures
        r@ == mid_border(num_cols as nat, col_width as nat, sep_style),
{
    proof {
        assert(['\u{251C}', '\u{2500}']@ == seq!['\u{251C}', '\u{2500}']);
        assert(['\u{2500}', '\u{253C}', '\u{2500}']@ == seq!['\u{2500}', '\u{253C}', '\u{2500}']);
        assert(['\u{2500}', '\u{2524}']@ == seq!['\u{2500}', '\u{2524}']);
    }
    render_table_border(
        num_cols,
        col_width,
        sep_style,
        &['\u{251C}', '\u{2500}'],
        &['\u{2500}', '\u{253C}', '\u{2500}'],
        &['\u{2500}', '\u{2524}'],
    )
}

} // verus!
