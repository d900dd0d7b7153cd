//! Laws of tables that say what is drawn where: how wide the columns are, which
//! character stands at which place of a border, and what a row is made of.
use vstd::prelude::*;

use crate::block;
use crate::chars;
use crate::layout;
use crate::markup;
use crate::style::{link_style, rule_style, Color, RenderOptions, Style};
use crate::table;
use crate::text;
use crate::width;
use crate::wrap;

verus! {

// ---------------------------------------------------------------------------
// Columns

/// The columns of a table share all that its borders leave of the terminal: the
/// table fits, and with each of its columns one wider it would not. In a terminal
/// without room for columns four wide, they are four wide all the same.
pub proof fn law_columns_share_the_terminal(num_cols: nat, width: nat)
    requires
        num_cols > 0,
    ensures
        ({
            let col_width = table::column_width(num_cols, width);
            &&& col_width >= 4
            &&& num_cols * (4 + 3) + 1 <= width ==> {
                &&& num_cols * (col_width + 3) + 1 <= width
                &&& num_cols * (col_width + 1 + 3) + 1 > width
            }
            &&& num_cols * (4 + 3) + 1 > width ==> col_width == 4
        }),
{
    let borders = 3 * num_cols + 1;
    let free = if width > borders {
        (width - borders) as nat
    } else {
        0
    };
    let share = free / num_cols;
    vstd::arithmetic::div_mod::lemma_fundamental_div_mod(free as int, num_cols as int);
    vstd::arithmetic::div_mod::lemma_mod_bound(free as int, num_cols as int);
    let col_width = table::column_width(num_cols, width);
    assert(num_cols * (4 + 3) == num_cols * 4 + 3 * num_cols) by (nonlinear_arith);
    assert(num_cols * (col_width + 3) == num_cols * col_width + 3 * num_cols) by (nonlinear_arith);
    assert(num_cols * (col_width + 1 + 3) == num_cols * col_width + num_cols + 3 * num_cols)
        by (nonlinear_arith);
    if num_cols * (4 + 3) + 1 <= width {
        assert(share >= 4) by {
            assert(num_cols * 4 <= free);
            assert(num_cols * share + num_cols > free);
            assert(share >= 4) by (nonlinear_arith)
                requires
                    num_cols * 4 < num_cols * share + num_cols,
                    num_cols > 0,
            ;
        }
        assert(col_width == share);
    } else {
        assert(free < num_cols * 4);
        assert(share <= 4) by (nonlinear_arith)
            requires
                num_cols * share <= free,
                free < num_cols * 4,
        ;
    }
}

/// A column more of the terminal never makes the columns of a table narrower, and
/// as many more as the table has columns make each of them one wider.
pub proof fn law_columns_grow_with_the_terminal(num_cols: nat, width: nat, more: nat)
    requires
        num_cols > 0,
    ensures
        table::column_width(num_cols, width) <= table::column_width(num_cols, width + more),
        num_cols * (4 + 3) + 1 <= width ==> table::column_width(num_cols, width + num_cols)
            == table::column_width(num_cols, width) + 1,
{
    law_columns_share_the_terminal(num_cols, width);
    law_columns_share_the_terminal(num_cols, width + more);
    law_columns_share_the_terminal(num_cols, width + num_cols);
    let a = table::column_width(num_cols, width);
    let b = table::column_width(num_cols, width + more);
    let c = table::column_width(num_cols, width + num_cols);
    if a > b {
        assert(num_cols * (b + 1 + 3) <= num_cols * (a + 3)) by (nonlinear_arith)
            requires
                b + 1 <= a,
        ;
    }
    if num_cols * (4 + 3) + 1 <= width {
        assert(num_cols * (a + 1 + 3) == num_cols * (a + 3) + num_cols) by (nonlinear_arith);
        if c < a + 1 {
            assert(num_cols * (c + 1 + 3) <= num_cols * (a + 1 + 3)) by (nonlinear_arith)
                requires
                    c + 1 <= a + 1,
            ;
        } else if c > a + 1 {
            assert(num_cols * (c + 3) >= num_cols * (a + 2 + 3)) by (nonlinear_arith)
                requires
                    c >= a + 2,
            ;
            assert(num_cols * (a + 2 + 3) == num_cols * (a + 1 + 3) + num_cols)
                by (nonlinear_arith);
        }
    }
}

// ---------------------------------------------------------------------------
// Borders

/// A border is one span in its style. Over no column it is its left end alone, over
/// one column it is its left end, as many strokes as the column is wide, and its
/// right end, and every column more adds a junction and as many strokes before the
/// right end.
pub proof fn law_border_grows(
    num_cols: nat,
    col_width: nat,
    style: Style,
    left: Seq<char>,
    mid: Seq<char>,
    right: Seq<char>,
)
    ensures
        ({
            let strokes = Seq::new(col_width, |i: int| '\u{2500}');
            let before = table::border(num_cols, col_width, style, left, mid, right);
            let after = table::border(num_cols + 1, col_width, style, left, mid, right);
            &&& before.len() == 1 && before[0].style == style
            &&& num_cols == 0 ==> before[0].content == left && after[0].content == left + strokes
                + right
            &&& num_cols > 0 ==> exists|head: Seq<char>|
                {
                    &&& before[0].content == #[trigger] (head + right)
                    &&& after[0].content == head + mid + strokes + right
                }
        }),
{
    let strokes = Seq::new(col_width, |i: int| '\u{2500}');
    assert(chars::repeated('\u{2500}', col_width) == strokes);
    let before = table::border(num_cols, col_width, style, left, mid, right);
    let after = table::border(num_cols + 1, col_width, style, left, mid, right);
    if num_cols == 0 {
        assert(left + Seq::<char>::empty() == left);
        assert(left + (strokes + right) == left + strokes + right);
    } else {
        let head = lemma_border_cells_grow(num_cols, col_width, mid, right);
        assert(before[0].content == left + head + right) by {
            assert(left + (head + right) == left + head + right);
        }
        assert(after[0].content == left + head + mid + strokes + right) by {
            assert(left + (head + mid + strokes + right) == left + head + mid + strokes + right);
        }
        assert(before[0].content == (left + head) + right);
    }
}

proof fn lemma_border_cells_grow(
    num_cols: nat,
    col_width: nat,
    mid: Seq<char>,
    right: Seq<char>,
) -> (head: Seq<char>)
    requires
        num_cols > 0,
    ensures
        table::border_cells(num_cols, col_width, mid, right) == head + right,
        table::border_cells(num_cols + 1, col_width, mid, right) == head + mid + chars::repeated(
            '\u{2500}',
            col_width,
        ) + right,
    decreases num_cols,
{
    let strokes = chars::repeated('\u{2500}', col_width);
    if num_cols == 1 {
        let one = table::border_cells(1, col_width, mid, right);
        let two = table::border_cells(2, col_width, mid, right);
        assert(one == strokes + right);
        assert(two == strokes + mid + one);
        assert(strokes + mid + (strokes + right) == strokes + mid + strokes + right);
        strokes
    } else {
        let head = lemma_border_cells_grow((num_cols - 1) as nat, col_width, mid, right);
        let whole = strokes + mid + head;
        assert(strokes + mid + (head + right) == whole + right);
        assert(strokes + mid + (head + mid + strokes + right) == whole + mid + strokes + right);
        whole
    }
}

/// The character at place `i` of a border, from those at its ends and its junctions.
pub open spec fn border_char(
    num_cols: nat,
    col_width: nat,
    i: int,
    left: char,
    mid: char,
    right: char,
) -> char {
    if i == 0 {
        left
    } else if i == num_cols * (col_width + 3) {
        right
    } else if i % (col_width + 3) as int == 0 {
        mid
    } else {
        '\u{2500}'
    }
}

proof fn lemma_border_cells_chars(
    num_cols: nat,
    col_width: nat,
    mid: char,
    right: char,
    j: int,
)
    requires
        num_cols > 0,
        0 <= j < num_cols * (col_width + 3) - 1,
    ensures
        ({
            let cells = table::border_cells(
                num_cols,
                col_width,
                seq!['\u{2500}', mid, '\u{2500}'],
                seq!['\u{2500}', right],
            );
            &&& cells.len() == num_cols * (col_width + 3) - 1
            &&& cells[j] == (if j + 2 == num_cols * (col_width + 3) {
                right
            } else if (j + 2) % (col_width + 3) as int == 0 {
                mid
            } else {
                '\u{2500}'
            })
        }),
    decreases num_cols,
{
    let step = col_width + 3;
    let strokes = chars::repeated('\u{2500}', col_width);
    let junction = seq!['\u{2500}', mid, '\u{2500}'];
    let end = seq!['\u{2500}', right];
    let cells = table::border_cells(num_cols, col_width, junction, end);
    if num_cols == 1 {
        assert(1 * step == step);
        assert(cells == strokes + end);
        if j + 2 < step {
            vstd::arithmetic::div_mod::lemma_small_mod((j + 2) as nat, step);
        }
    } else {
        let rest = table::border_cells((num_cols - 1) as nat, col_width, junction, end);
        assert(num_cols * step == (num_cols - 1) * step + step) by (nonlinear_arith);
        assert((num_cols - 1) * step >= step) by (nonlinear_arith)
            requires
                num_cols > 1,
        ;
        assert(cells == strokes + junction + rest);
        if j < step {
            lemma_border_cells_chars((num_cols - 1) as nat, col_width, mid, right, 0);
            if j + 2 < step {
                vstd::arithmetic::div_mod::lemma_small_mod((j + 2) as nat, step);
            } else if j + 2 == step {
                vstd::arithmetic::div_mod::lemma_mod_self_0(step as int);
            } else {
                vstd::arithmetic::div_mod::lemma_mod_add_multiples_vanish(
                    j + 2 - step,
                    step as int,
                );
                vstd::arithmetic::div_mod::lemma_small_mod((j + 2 - step) as nat, step);
            }
        } else {
            let k = j - step;
            lemma_border_cells_chars((num_cols - 1) as nat, col_width, mid, right, k);
            vstd::arithmetic::div_mod::lemma_mod_add_multiples_vanish(k + 2, step as int);
            assert(cells[j] == rest[k]);
        }
    }
}

proof fn lemma_border_chars(
    num_cols: nat,
    col_width: nat,
    style: Style,
    left: char,
    mid: char,
    right: char,
    i: int,
)
    requires
        num_cols > 0,
        0 <= i <= num_cols * (col_width + 3),
    ensures
        ({
            let border = table::border(
                num_cols,
                col_width,
                style,
                seq![left, '\u{2500}'],
                seq!['\u{2500}', mid, '\u{2500}'],
                seq!['\u{2500}', right],
            );
            &&& border.len() == 1
            &&& border[0].style == style
            &&& border[0].content.len() == num_cols * (col_width + 3) + 1
            &&& border[0].content[i] == border_char(num_cols, col_width, i, left, mid, right)
        }),
{
    let step = col_width + 3;
    assert(num_cols * step >= step) by (nonlinear_arith)
        requires
            num_cols >= 1,
    ;
    if i < 2 {
        lemma_border_cells_chars(num_cols, col_width, mid, right, 0);
        vstd::arithmetic::div_mod::lemma_small_mod(i as nat, step);
    } else {
        lemma_border_cells_chars(num_cols, col_width, mid, right, i - 2);
    }
}

/// The border above a table has a corner at each end, a junction over every bar of
/// the rows, and strokes between them.
pub proof fn law_top_border(num_cols: nat, col_width: nat, style: Style, i: int)
    requires
        num_cols > 0,
        0 <= i <= num_cols * (col_width + 3),
    ensures
        ({
            let border = table::top_border(num_cols, col_width, style);
            &&& border.len() == 1
            &&& border[0].style == style
            &&& border[0].content.len() == num_cols * (col_width + 3) + 1
            &&& border[0].content[i] == border_char(
                num_cols,
                col_width,
                i,
                '\u{250C}',
                '\u{252C}',
                '\u{2510}',
            )
        }),
{
    lemma_border_chars(num_cols, col_width, style, '\u{250C}', '\u{252C}', '\u{2510}', i);
}

/// The border between two rows has a junction at each end and at every bar of the
/// rows, and strokes between them.
pub proof fn law_mid_border(num_cols: nat, col_width: nat, style: Style, i: int)
    requires
        num_cols > 0,
        0 <= i <= num_cols * (col_width + 3),
    ensures
        ({
            let border = table::mid_border(num_cols, col_width, style);
            &&& border.len() == 1
            &&& border[0].style == style
            &&& border[0].content.len() == num_cols * (col_width + 3) + 1
            &&& border[0].content[i] == border_char(
                num_cols,
                col_width,
                i,
                '\u{251C}',
                '\u{253C}',
                '\u{2524}',
            )
        }),
{
    lemma_border_chars(num_cols, col_width, style, '\u{251C}', '\u{253C}', '\u{2524}', i);
}

/// The border below a table has a corner at each end, a junction under every bar of
/// the rows, and strokes between them.
pub proof fn law_bottom_border(num_cols: nat, col_width: nat, style: Style, i: int)
    requires
        num_cols > 0,
        0 <= i <= num_cols * (col_width + 3),
    ensures
        ({
            let border = table::bottom_border(num_cols, col_width, style);
            &&& border.len() == 1
            &&& border[0].style == style
            &&& border[0].content.len() == num_cols * (col_width + 3) + 1
            &&& border[0].content[i] == border_char(
                num_cols,
                col_width,
                i,
                '\u{2514}',
                '\u{2534}',
                '\u{2518}',
            )
        }),
{
    lemma_border_chars(num_cols, col_width, style, '\u{2514}', '\u{2534}', '\u{2518}', i);
}

// ---------------------------------------------------------------------------
// Cells

/// The columns of spans are those of each of them together.
pub proof fn law_total_width(spans: Seq<layout::MeasuredSpanView>, span: layout::MeasuredSpanView)
    ensures
        table::total_width(Seq::<layout::MeasuredSpanView>::empty()) == 0,
        table::total_width(spans.push(span)) == table::total_width(spans) + span.width,
{
    assert(spans.push(span).drop_last() == spans);
}

/// A cell is shown with all of its spans, in order, and one span of spaces more, in
/// no style: as many as are missing from the width of its column.
pub proof fn law_padding(spans: Seq<layout::MeasuredSpanView>, col_width: nat, i: int)
    ensures
        ({
            let shown = table::padded(spans, col_width);
            let space = shown.last();
            let used = table::total_width(spans);
            &&& shown.len() == spans.len() + 1
            &&& 0 <= i < spans.len() ==> shown[i] == spans[i].span
            &&& used <= col_width ==> used + space.content.len() == col_width
            &&& used > col_width ==> space.content.len() == 0
            &&& 0 <= i < space.content.len() ==> space.content[i] == ' '
            &&& space.style == (Style {
                fg: None::<Color>,
                bg: None::<Color>,
                underline_color: None::<Color>,
                add_modifier: 0,
                sub_modifier: 0,
            })
        }),
{
}

// ---------------------------------------------------------------------------
// Rows

/// The spans of a line of a cell, each with the columns that it takes.
pub open spec fn measured_line(
    cell: Seq<Seq<char>>,
    row: int,
    base_style: Style,
    options: RenderOptions,
) -> Seq<layout::MeasuredSpanView> {
    let line = if row < cell.len() {
        cell[row]
    } else {
        Seq::<char>::empty()
    };
    let spans = markup::inline_spans(line, base_style, link_style(options.palette), options);
    Seq::new(
        spans.len(),
        |i: int|
            layout::MeasuredSpanView {
                span: spans[i],
                width: width::str_width(spans[i].content),
            },
    )
}

/// A visual line of a row starts with a bar, and every cell adds its own line, or
/// nothing where it has fewer, filled up to its column, and a bar behind it; the
/// last bar has no space behind it.
pub proof fn law_row_is_drawn_cell_by_cell(
    wrapped: Seq<Seq<Seq<char>>>,
    row: int,
    k: nat,
    col_width: nat,
    base_style: Style,
    options: RenderOptions,
)
    requires
        row >= 0,
        k < wrapped.len(),
    ensures
        table::row_spans(wrapped, row, 0, col_width, base_style, options) == seq![
            text::SpanView { content: seq!['\u{2502}', ' '], style: rule_style(options.palette) },
        ],
        ({
            let bar = text::SpanView {
                content: if k + 1 == wrapped.len() {
                    seq![' ', '\u{2502}']
                } else {
                    seq![' ', '\u{2502}', ' ']
                },
                style: rule_style(options.palette),
            };
            let cell = measured_line(wrapped[k as int], row, base_style, options);
            table::row_spans(wrapped, row, k + 1, col_width, base_style, options)
                == table::row_spans(wrapped, row, k, col_width, base_style, options)
                + table::padded(cell, col_width) + seq![bar]
        }),
{
    let cell = measured_line(wrapped[k as int], row, base_style, options);
    let shown = markup::inline_spans(
        table::segment_at(wrapped[k as int], row),
        base_style,
        link_style(options.palette),
        options,
    );
    assert(layout::measured_spans(shown) == cell);
}

/// A row of wrapped cells has as many visual lines as the cell with the most of
/// them, and one at least, and each shows all the cells.
pub proof fn law_wrapped_row(
    wrapped: Seq<Seq<Seq<char>>>,
    col_width: nat,
    base_style: Style,
    options: RenderOptions,
)
    ensures
        ({
            let lines = table::wrapped_row_lines(wrapped, col_width, base_style, options);
            &&& lines.len() >= 1
            &&& forall|i: int|
                0 <= i < wrapped.len() ==> (#[trigger] wrapped[i]).len() <= lines.len()
            &&& lines.len() == 1 || exists|i: int|
                0 <= i < wrapped.len() && (#[trigger] wrapped[i]).len() == lines.len()
            &&& forall|row: int|
                0 <= row < lines.len() ==> #[trigger] lines[row] == table::row_spans(
                    wrapped,
                    row,
                    wrapped.len(),
                    col_width,
                    base_style,
                    options,
                )
        }),
{
    lemma_height(wrapped, wrapped.len());
}

proof fn lemma_height(wrapped: Seq<Seq<Seq<char>>>, k: nat)
    requires
        k <= wrapped.len(),
    ensures
        ({
            let height = table::row_height(wrapped, k);
            &&& height >= 1
            &&& forall|i: int| 0 <= i < k ==> (#[trigger] wrapped[i]).len() <= height
            &&& height == 1 || exists|i: int|
                0 <= i < k && (#[trigger] wrapped[i]).len() == height
        }),
    decreases k,
{
    if k > 0 {
        lemma_height(wrapped, (k - 1) as nat);
        let before = table::row_height(wrapped, (k - 1) as nat);
        if wrapped[k - 1].len() <= before && before > 1 {
            let i = choose|i: int| 0 <= i < k - 1 && (#[trigger] wrapped[i]).len() == before;
            assert(wrapped[i].len() == table::row_height(wrapped, k));
        }
    }
}

/// A row is drawn with every cell wrapped in its share of the terminal; a row
/// without cells is one empty line.
pub proof fn law_row(
    cells: Seq<Seq<char>>,
    width: nat,
    base_style: Style,
    options: RenderOptions,
)
    ensures
        ({
            let col_width = table::column_width(cells.len(), width);
            let wrapped = Seq::new(cells.len(), |i: int| wrap::cell_lines(cells[i], col_width));
            let lines = table::row_lines(cells, width, base_style, options);
            &&& cells.len() == 0 ==> lines == seq![Seq::<text::SpanView>::empty()]
            &&& cells.len() > 0 ==> lines == table::wrapped_row_lines(
                wrapped,
                col_width,
                base_style,
                options,
            )
        }),
{
    let col_width = table::column_width(cells.len(), width);
    let wrapped = Seq::new(cells.len(), |i: int| wrap::cell_lines(cells[i], col_width));
    assert(table::wrapped_cells(cells, col_width) == wrapped);
}

/// The visual lines of a row of one-line cells are one: every cell that fits in its
/// column is shown as it stands.
pub proof fn law_short_cells_make_one_line(
    cells: Seq<Seq<char>>,
    width: nat,
    base_style: Style,
    options: RenderOptions,
)
    requires
        cells.len() > 0,
        forall|i: int|
            0 <= i < cells.len() ==> width::str_width(#[trigger] cells[i]) <= table::column_width(
                cells.len(),
                width,
            ),
    ensures
        ({
            let whole = Seq::new(cells.len(), |i: int| seq![cells[i]]);
            table::row_lines(cells, width, base_style, options) == seq![
                table::row_spans(
                    whole,
                    0,
                    cells.len(),
                    table::column_width(cells.len(), width),
                    base_style,
                    options,
                ),
            ]
        }),
{
    let col_width = table::column_width(cells.len(), width);
    let whole = Seq::new(cells.len(), |i: int| seq![cells[i]]);
    let wrapped = table::wrapped_cells(cells, col_width);
    assert(wrapped == whole) by {
        assert forall|i: int| 0 <= i < cells.len() implies wrapped[i] == whole[i] by {
            assert(width::str_width(cells[i]) <= col_width);
        }
    }
    law_wrapped_row(whole, col_width, base_style, options);
    let lines = table::wrapped_row_lines(whole, col_width, base_style, options);
    assert(whole[0].len() == 1);
    assert(lines.len() == 1) by {
        if lines.len() > 1 {
            let i = choose|i: int| 0 <= i < whole.len() && (#[trigger] whole[i]).len()
                == lines.len();
            assert(whole[i] == seq![cells[i]]);
        }
    }
}

// ---------------------------------------------------------------------------
// Tables

/// The blocks of tables are the rows and the separators, and no others.
pub proof fn law_table_blocks(b: block::BlockView)
    ensures
        table::is_table_block(b) <==> match b {
            block::BlockView::TableRow(_) => true,
            block::BlockView::TableSeparator => true,
            _ => false,
        },
{
}

/// A table has as many columns as its longest row has cells, and one where it has
/// no row.
pub proof fn law_table_columns(blocks: Seq<block::BlockView>)
    ensures
        ({
            let num_cols = table::table_columns(blocks);
            &&& forall|i: int|
                0 <= i < blocks.len() && (#[trigger] blocks[i]) is TableRow
                    ==> blocks[i]->TableRow_0.len() <= num_cols
            &&& (exists|i: int|
                0 <= i < blocks.len() && (#[trigger] blocks[i]) is TableRow
                    && blocks[i]->TableRow_0.len() == num_cols) || (num_cols == 1 && forall|i: int|
                0 <= i < blocks.len() ==> !((#[trigger] blocks[i]) is TableRow))
        }),
{
    lemma_longest(blocks);
}

proof fn lemma_longest(blocks: Seq<block::BlockView>)
    ensures
        match table::longest_row(blocks) {
            Some(n) => {
                &&& forall|i: int|
                    0 <= i < blocks.len() && (#[trigger] blocks[i]) is TableRow
                        ==> blocks[i]->TableRow_0.len() <= n
                &&& exists|i: int|
                    0 <= i < blocks.len() && (#[trigger] blocks[i]) is TableRow
                        && blocks[i]->TableRow_0.len() == n
            },
            None => forall|i: int| 0 <= i < blocks.len() ==> !((#[trigger] blocks[i]) is TableRow),
        },
    decreases blocks.len(),
{
    if blocks.len() > 0 {
        let init = blocks.drop_last();
        let last = blocks.len() - 1;
        lemma_longest(init);
        assert forall|i: int| 0 <= i < last implies #[trigger] blocks[i] == init[i] by {}
        assert(blocks[last] == blocks.last());
        if let Some(n) = table::longest_row(init) {
            let i = choose|i: int|
                0 <= i < init.len() && (#[trigger] init[i]) is TableRow
                    && init[i]->TableRow_0.len() == n;
            assert(blocks[i] == init[i]);
            assert(blocks[i] is TableRow);
        }
    }
}

/// The lines that the block at place `i` adds to a table, `mid` being the border
/// between its rows.
pub open spec fn block_part(
    blocks: Seq<block::BlockView>,
    i: int,
    width: nat,
    base_style: Style,
    options: RenderOptions,
    mid: Seq<text::SpanView>,
) -> Seq<Seq<text::SpanView>> {
    let rows = match blocks[i] {
        block::BlockView::TableRow(cells) => table::row_lines(cells, width, base_style, options),
        _ => Seq::<Seq<text::SpanView>>::empty(),
    };
    let is_row_before_row = blocks[i] is TableRow && i + 1 < blocks.len() && blocks[i
        + 1] is TableRow;
    if is_row_before_row || blocks[i] is TableSeparator {
        rows + seq![mid]
    } else {
        rows
    }
}

/// Between its top border and its bottom border a table has the lines of all its
/// rows, in order, and a border wherever a separator stands and wherever a row
/// follows a row.
pub proof fn law_table(
    blocks: Seq<block::BlockView>,
    width: nat,
    base_style: Style,
    options: RenderOptions,
)
    ensures
        ({
            let num_cols = table::table_columns(blocks);
            let col_width = table::column_width(num_cols, width);
            let style = rule_style(options.palette);
            let mid = table::mid_border(num_cols, col_width, style);
            let parts = Seq::new(
                blocks.len(),
                |i: int| block_part(blocks, i, width, base_style, options, mid),
            );
            table::table_lines(blocks, width, base_style, options) == seq![
                table::top_border(num_cols, col_width, style),
            ] + parts.flatten() + seq![table::bottom_border(num_cols, col_width, style)]
        }),
{
    let num_cols = table::table_columns(blocks);
    let col_width = table::column_width(num_cols, width);
    let style = rule_style(options.palette);
    let mid = table::mid_border(num_cols, col_width, style);
    let parts = Seq::new(
        blocks.len(),
        |i: int| block_part(blocks, i, width, base_style, options, mid),
    );
    lemma_head_is_parts(blocks, parts, blocks.len(), width, base_style, options);
    assert(parts.take(parts.len() as int) == parts);
    let top = seq![table::top_border(num_cols, col_width, style)];
    let bottom = table::bottom_border(num_cols, col_width, style);
    assert((top + parts.flatten()).push(bottom) == top + parts.flatten() + seq![bottom]);
}

proof fn lemma_head_is_parts(
    blocks: Seq<block::BlockView>,
    parts: Seq<Seq<Seq<text::SpanView>>>,
    k: nat,
    width: nat,
    base_style: Style,
    options: RenderOptions,
)
    requires
        k <= blocks.len(),
        ({
            let num_cols = table::table_columns(blocks);
            let col_width = table::column_width(num_cols, width);
            let mid = table::mid_border(num_cols, col_width, rule_style(options.palette));
            parts == Seq::new(
                blocks.len(),
                |i: int| block_part(blocks, i, width, base_style, options, mid),
            )
        }),
    ensures
        ({
            let num_cols = table::table_columns(blocks);
            let col_width = table::column_width(num_cols, width);
            let top = table::top_border(num_cols, col_width, rule_style(options.palette));
            table::table_head(blocks, k, width, base_style, options) == seq![top] + parts.take(
                k as int,
            ).flatten()
        }),
    decreases k,
{
    let num_cols = table::table_columns(blocks);
    let col_width = table::column_width(num_cols, width);
    let style = rule_style(options.palette);
    let top = seq![table::top_border(num_cols, col_width, style)];
    let mid = table::mid_border(num_cols, col_width, style);
    if k == 0 {
        let none = parts.take(0);
        assert(none.flatten() == Seq::<Seq<text::SpanView>>::empty());
        assert(top + none.flatten() == top);
    } else {
        lemma_head_is_parts(blocks, parts, (k - 1) as nat, width, base_style, options);
        let before = parts.take(k - 1);
        let part = block_part(blocks, k - 1, width, base_style, options, mid);
        assert(parts.take(k as int) == before.push(part));
        before.lemma_flatten_push(part);
        let drawn = table::table_part(blocks, k - 1, width, base_style, options);
        assert(drawn == part) by {
            match blocks[k - 1] {
                block::BlockView::TableRow(cells) => {
                    let rows = table::row_lines(cells, width, base_style, options);
                    assert(rows.push(mid) == rows + seq![mid]);
                },
                block::BlockView::TableSeparator => {
                    assert(Seq::<Seq<text::SpanView>>::empty() + seq![mid] == seq![mid]);
                },
                _ => {},
            }
        }
        assert(top + before.flatten() + part == top + (before.flatten() + part));
    }
}

} // verus!
