//! Laws of tables.
use vstd::prelude::*;

use crate::block;
use crate::laws::reflow;
use crate::laws::wrapping;
use crate::layout;
use crate::markup;
use crate::style::{link_style, rule_style, RenderOptions, Style};
use crate::table;
use crate::text;

verus! {

/// How often `c` occurs in `s`.
pub open spec fn occurrences(s: Seq<char>, c: char) -> nat
    decreases s.len(),
{
    if s.len() == 0 {
        0
    } else if s.last() == c {
        occurrences(s.drop_last(), c) + 1
    } else {
        occurrences(s.drop_last(), c)
    }
}

/// Occurrences are counted part by part.
pub proof fn lemma_occurrences_concat(a: Seq<char>, b: Seq<char>, c: char)
    ensures
        occurrences(a + b, c) == occurrences(a, c) + occurrences(b, c),
    decreases b.len(),
{
    if b.len() == 0 {
        assert(a + b == a);
    } else {
        assert((a + b).drop_last() == a + b.drop_last());
        assert((a + b).last() == b.last());
        lemma_occurrences_concat(a, b.drop_last(), c);
    }
}

proof fn lemma_occurs(s: Seq<char>, c: char, i: int)
    requires
        0 <= i < s.len(),
        s[i] == c,
    ensures
        occurrences(s, c) >= 1,
    decreases s.len(),
{
    if s.last() != c {
        assert(s.drop_last()[i] == s[i]);
        lemma_occurs(s.drop_last(), c, i);
    }
}

/// Every visual line of a table row of N cells, wrapped or not, has the N+1 bars
/// of the row.
pub proof fn law_row_lines_have_all_bars(
    cells: Seq<Seq<char>>,
    width: nat,
    base_style: Style,
    options: RenderOptions,
    i: int,
)
    requires
        cells.len() > 0,
        0 <= i < table::row_lines(cells, width, base_style, options).len(),
    ensures
        occurrences(
            text::line_text(table::row_lines(cells, width, base_style, options)[i]),
            '\u{2502}',
        ) >= cells.len() + 1,
{
    let col_width = table::column_width(cells.len(), width);
    let wrapped = table::wrapped_cells(cells, col_width);
    lemma_row_bars(wrapped, i, wrapped.len(), col_width, base_style, options);
}

proof fn lemma_row_bars(
    wrapped: Seq<Seq<Seq<char>>>,
    row: int,
    k: nat,
    col_width: nat,
    base_style: Style,
    options: RenderOptions,
)
    ensures
        occurrences(
            text::line_text(
                table::row_spans(wrapped, row, k, col_width, base_style, options),
            ),
            '\u{2502}',
        ) >= k + 1,
    decreases k,
{
    let bar_char = '\u{2502}';
    let sep_style = rule_style(options.palette);
    if k == 0 {
        let first = text::SpanView { content: seq!['\u{2502}', ' '], style: sep_style };
        let none = Seq::<text::SpanView>::empty();
        assert(seq![first] == none.push(first));
        reflow::lemma_line_text_push(none, first);
        assert(Seq::<char>::empty() + first.content == first.content);
        lemma_occurs(first.content, bar_char, 0);
    } else {
        let before = table::row_spans(
            wrapped,
            row,
            (k - 1) as nat,
            col_width,
            base_style,
            options,
        );
        lemma_row_bars(wrapped, row, (k - 1) as nat, col_width, base_style, options);
        let cell = table::padded(
            layout::measured_spans(
                markup::inline_spans(
                    table::segment_at(wrapped[k - 1], row),
                    base_style,
                    link_style(options.palette),
                    options,
                ),
            ),
            col_width,
        );
        let bar = if k < wrapped.len() {
            seq![' ', '\u{2502}', ' ']
        } else {
            seq![' ', '\u{2502}']
        };
        reflow::lemma_line_text_push(before + cell, text::SpanView { content: bar, style: sep_style });
        reflow::lemma_line_text_concat(before, cell);
        lemma_occurrences_concat(
            text::line_text(before) + text::line_text(cell),
            bar,
            bar_char,
        );
        lemma_occurrences_concat(text::line_text(before), text::line_text(cell), bar_char);
        lemma_occurs(bar, bar_char, 1);
    }
}

/// A row has as many visual lines as the cell with the most lines, so that every
/// line of every cell stands on one of them.
pub proof fn law_row_shows_every_line(wrapped: Seq<Seq<Seq<char>>>, i: int)
    requires
        0 <= i < wrapped.len(),
    ensures
        wrapped[i].len() <= table::row_height(wrapped, wrapped.len()),
        1 <= table::row_height(wrapped, wrapped.len()),
{
    lemma_row_height(wrapped, wrapped.len(), i);
}

proof fn lemma_row_height(wrapped: Seq<Seq<Seq<char>>>, k: nat, i: int)
    requires
        0 <= i < k <= wrapped.len(),
    ensures
        wrapped[i].len() <= table::row_height(wrapped, k),
        1 <= table::row_height(wrapped, k),
    decreases k,
{
    if i < k - 1 {
        lemma_row_height(wrapped, (k - 1) as nat, i);
    } else if k > 1 {
        lemma_row_height(wrapped, (k - 1) as nat, 0);
    }
}

/// A row has exactly as many visual lines as the cell that wraps to the most.
pub proof fn law_row_is_as_high_as_its_highest_cell(
    cells: Seq<Seq<char>>,
    width: nat,
    base_style: Style,
    options: RenderOptions,
)
    requires
        cells.len() > 0,
    ensures
        ({
            let lines = table::row_lines(cells, width, base_style, options);
            let wrapped = table::wrapped_cells(cells, table::column_width(cells.len(), width));
            &&& forall|i: int| 0 <= i < cells.len() ==> (#[trigger] wrapped[i]).len() <= lines.len()
            &&& exists|i: int| 0 <= i < cells.len() && (#[trigger] wrapped[i]).len() == lines.len()
        }),
{
    let col_width = table::column_width(cells.len(), width);
    let wrapped = table::wrapped_cells(cells, col_width);
    assert forall|i: int| 0 <= i < wrapped.len() implies (#[trigger] wrapped[i]).len() >= 1
        && wrapped[i].len() <= table::row_height(wrapped, wrapped.len()) by {
        wrapping::law_cell_has_a_line(cells[i], col_width);
        law_row_shows_every_line(wrapped, i);
    }
    lemma_height_is_reached(wrapped, wrapped.len());
    let i = choose|i: int|
        0 <= i < wrapped.len() && (#[trigger] wrapped[i]).len() == table::row_height(
            wrapped,
            wrapped.len(),
        );
    assert(wrapped[i].len() == table::row_lines(cells, width, base_style, options).len());
}

proof fn lemma_height_is_reached(wrapped: Seq<Seq<Seq<char>>>, k: nat)
    requires
        0 < k <= wrapped.len(),
        forall|i: int| 0 <= i < wrapped.len() ==> (#[trigger] wrapped[i]).len() >= 1,
    ensures
        exists|i: int|
            0 <= i < k && (#[trigger] wrapped[i]).len() == table::row_height(wrapped, k),
    decreases k,
{
    if k == 1 {
        assert(table::row_height(wrapped, 0) == 1);
        assert(wrapped[0].len() == table::row_height(wrapped, 1));
    } else {
        lemma_height_is_reached(wrapped, (k - 1) as nat);
        let i = choose|i: int|
            0 <= i < k - 1 && (#[trigger] wrapped[i]).len() == table::row_height(
                wrapped,
                (k - 1) as nat,
            );
        assert(wrapped[k - 1].len() >= 1);
        if wrapped[k - 1].len() <= wrapped[i].len() {
            assert(wrapped[i].len() == table::row_height(wrapped, k));
        } else {
            assert(wrapped[k - 1].len() == table::row_height(wrapped, k));
        }
    }
}

/// A cell that fits in its column fills it: its text and the space behind it take
/// exactly the columns of the column.
pub proof fn law_cells_fill_their_columns(
    spans: Seq<layout::MeasuredSpanView>,
    col_width: nat,
)
    requires
        table::total_width(spans) <= col_width,
    ensures
        table::total_width(spans) + table::padded(spans, col_width).last().content.len()
            == col_width,
{
}

/// How a line of a cell is shown.
pub open spec fn shown_cell(
    segment: Seq<char>,
    base_style: Style,
    options: RenderOptions,
) -> Seq<text::SpanView> {
    markup::inline_spans(segment, base_style, link_style(options.palette), options)
}

/// Spans without the columns that are counted for them.
pub open spec fn spans_counted(counted: Seq<(text::SpanView, nat)>) -> Seq<text::SpanView> {
    Seq::new(counted.len(), |i: int| counted[i].0)
}

/// The columns that are counted for spans of a row.
pub open spec fn columns_counted(counted: Seq<(text::SpanView, nat)>) -> nat
    decreases counted.len(),
{
    if counted.len() == 0 {
        0
    } else {
        columns_counted(counted.drop_last()) + counted.last().1
    }
}

/// A span that the renderer draws, with one column for each of its bars and spaces.
pub open spec fn drawn(span: text::SpanView) -> (text::SpanView, nat) {
    (span, span.content.len())
}

/// A line of a cell as it is shown, with the columns that it was measured to take,
/// and the space behind it.
pub open spec fn counted_cell(
    segment: Seq<char>,
    col_width: nat,
    base_style: Style,
    options: RenderOptions,
) -> Seq<(text::SpanView, nat)> {
    let measured = layout::measured_spans(shown_cell(segment, base_style, options));
    Seq::new(measured.len(), |i: int| (measured[i].span, measured[i].width as nat)).push(
        drawn(table::padded(measured, col_width).last()),
    )
}

/// What stands on a visual line of a row before the bar behind its first `k`
/// cells, but for the space that the bar is drawn with: the cells as they were
/// measured, and the bars and spaces between them.
pub open spec fn counted_before_bar(
    wrapped: Seq<Seq<Seq<char>>>,
    row: int,
    k: nat,
    col_width: nat,
    base_style: Style,
    options: RenderOptions,
) -> Seq<(text::SpanView, nat)>
    decreases k,
{
    let style = rule_style(options.palette);
    if k == 0 {
        seq![]
    } else {
        let bar = if k == 1 {
            seq!['\u{2502}', ' ']
        } else {
            seq![' ', '\u{2502}', ' ']
        };
        counted_before_bar(wrapped, row, (k - 1) as nat, col_width, base_style, options).push(
            drawn(text::SpanView { content: bar, style }),
        ) + counted_cell(table::segment_at(wrapped[k - 1], row), col_width, base_style, options)
    }
}

/// Whether the first `k` cells of a visual line, as they are shown, were measured
/// to fit in their columns.
pub open spec fn cells_fit(
    wrapped: Seq<Seq<Seq<char>>>,
    row: int,
    k: nat,
    col_width: nat,
    base_style: Style,
    options: RenderOptions,
) -> bool {
    forall|j: int|
        0 <= j < k ==> table::total_width(
            layout::measured_spans(
                shown_cell(table::segment_at(#[trigger] wrapped[j], row), base_style, options),
            ),
        ) <= col_width
}

proof fn lemma_columns_concat(
    a: Seq<(text::SpanView, nat)>,
    b: Seq<(text::SpanView, nat)>,
)
    ensures
        columns_counted(a + b) == columns_counted(a) + columns_counted(b),
    decreases b.len(),
{
    if b.len() == 0 {
        assert(a + b == a);
    } else {
        assert((a + b).drop_last() == a + b.drop_last());
        lemma_columns_concat(a, b.drop_last());
    }
}

proof fn lemma_columns_measured(measured: Seq<layout::MeasuredSpanView>)
    ensures
        columns_counted(
            Seq::new(measured.len(), |i: int| (measured[i].span, measured[i].width as nat)),
        ) == table::total_width(measured),
    decreases measured.len(),
{
    let counted = Seq::new(measured.len(), |i: int| (measured[i].span, measured[i].width as nat));
    if measured.len() > 0 {
        let init = measured.drop_last();
        lemma_columns_measured(init);
        assert(counted.drop_last() == Seq::new(
            init.len(),
            |i: int| (init[i].span, init[i].width as nat),
        ));
    }
}

/// A cell that fits takes exactly the columns of its column.
proof fn lemma_counted_cell(
    segment: Seq<char>,
    col_width: nat,
    base_style: Style,
    options: RenderOptions,
)
    requires
        table::total_width(
            layout::measured_spans(shown_cell(segment, base_style, options)),
        ) <= col_width,
    ensures
        columns_counted(counted_cell(segment, col_width, base_style, options)) == col_width,
        spans_counted(counted_cell(segment, col_width, base_style, options)) == table::padded(
            layout::measured_spans(shown_cell(segment, base_style, options)),
            col_width,
        ),
{
    let measured = layout::measured_spans(shown_cell(segment, base_style, options));
    let counted = Seq::new(measured.len(), |i: int| (measured[i].span, measured[i].width as nat));
    let cell = counted_cell(segment, col_width, base_style, options);
    lemma_columns_measured(measured);
    law_cells_fill_their_columns(measured, col_width);
    assert(cell.drop_last() == counted);
    assert(spans_counted(cell) == table::padded(measured, col_width));
}

/// The bars of a row stand at the same columns on every visual line, whatever the
/// cells say, as long as the cells fit as they are shown: before the bar behind the
/// first `k` cells come the spans of the row up to there and the space that the bar
/// is drawn with, and these take `k * (col_width + 3)` columns.
pub proof fn law_bars_stay_in_place(
    wrapped: Seq<Seq<Seq<char>>>,
    row: int,
    k: nat,
    col_width: nat,
    base_style: Style,
    options: RenderOptions,
)
    requires
        0 < k <= wrapped.len(),
        cells_fit(wrapped, row, k, col_width, base_style, options),
    ensures
        ({
            let before = counted_before_bar(
                wrapped,
                row,
                k,
                col_width,
                base_style,
                options,
            );
            let bar = if k < wrapped.len() {
                seq![' ', '\u{2502}', ' ']
            } else {
                seq![' ', '\u{2502}']
            };
            &&& table::row_spans(wrapped, row, k, col_width, base_style, options)
                == spans_counted(before).push(
                text::SpanView { content: bar, style: rule_style(options.palette) },
            )
            &&& columns_counted(before) + 1 == k * (col_width + 3)
        }),
    decreases k,
{
    let style = rule_style(options.palette);
    let before = counted_before_bar(wrapped, row, k, col_width, base_style, options);
    let segment = table::segment_at(wrapped[k - 1], row);
    let cell = counted_cell(segment, col_width, base_style, options);
    assert(table::total_width(
        layout::measured_spans(
            shown_cell(table::segment_at(wrapped[k - 1], row), base_style, options),
        ),
    ) <= col_width);
    lemma_counted_cell(segment, col_width, base_style, options);
    let up_to = counted_before_bar(
        wrapped,
        row,
        (k - 1) as nat,
        col_width,
        base_style,
        options,
    );
    let bar = if k == 1 {
        seq!['\u{2502}', ' ']
    } else {
        seq![' ', '\u{2502}', ' ']
    };
    let with_bar = up_to.push(drawn(text::SpanView { content: bar, style }));
    assert(before == with_bar + cell);
    assert(with_bar.drop_last() == up_to);
    lemma_columns_concat(with_bar, cell);
    let drawn_so_far = table::row_spans(
        wrapped,
        row,
        (k - 1) as nat,
        col_width,
        base_style,
        options,
    );
    assert(spans_counted(with_bar) == spans_counted(up_to).push(
        text::SpanView { content: bar, style },
    ));
    assert(spans_counted(before) == spans_counted(with_bar) + spans_counted(cell));
    if k > 1 {
        law_bars_stay_in_place(wrapped, row, (k - 1) as nat, col_width, base_style, options);
        assert((k - 1) * (col_width + 3) + (col_width + 3) == k * (col_width + 3))
            by (nonlinear_arith);
    } else {
        assert(columns_counted(up_to) == 0);
        assert(1 * (col_width + 3) == col_width + 3);
    }
    assert(drawn_so_far == spans_counted(with_bar));
}

/// A table starts with its top border and ends with its bottom border.
pub proof fn law_table_is_framed(
    blocks: Seq<block::BlockView>,
    width: nat,
    base_style: Style,
    options: RenderOptions,
)
    ensures
        ({
            let lines = table::table_lines(blocks, width, base_style, options);
            let num_cols = table::table_columns(blocks);
            let col_width = table::column_width(num_cols, width);
            let style = rule_style(options.palette);
            &&& lines.len() >= 2
            &&& lines[0] == table::top_border(num_cols, col_width, style)
            &&& lines.last() == table::bottom_border(num_cols, col_width, style)
        }),
{
    lemma_table_head(blocks, blocks.len(), width, base_style, options);
}

proof fn lemma_table_head(
    blocks: Seq<block::BlockView>,
    k: nat,
    width: nat,
    base_style: Style,
    options: RenderOptions,
)
    ensures
        ({
            let head = table::table_head(blocks, k, width, base_style, options);
            let num_cols = table::table_columns(blocks);
            &&& head.len() >= 1
            &&& head[0] == table::top_border(
                num_cols,
                table::column_width(num_cols, width),
                rule_style(options.palette),
            )
        }),
    decreases k,
{
    if k > 0 {
        lemma_table_head(blocks, (k - 1) as nat, width, base_style, options);
    }
}

/// The length of what follows the left end of a border.
proof fn lemma_border_cells_len(num_cols: nat, col_width: nat, mid: Seq<char>, right: Seq<char>)
    requires
        num_cols > 0,
        mid.len() == 3,
        right.len() == 2,
    ensures
        table::border_cells(num_cols, col_width, mid, right).len() == num_cols * (col_width + 3)
            - 1,
    decreases num_cols,
{
    if num_cols > 1 {
        lemma_border_cells_len((num_cols - 1) as nat, col_width, mid, right);
        assert(num_cols * (col_width + 3) == (num_cols - 1) * (col_width + 3) + (col_width + 3))
            by (nonlinear_arith);
    } else {
        assert(1 * (col_width + 3) == col_width + 3);
    }
}

/// The three borders of a table of `num_cols` columns are equally long.
pub proof fn law_borders_align(num_cols: nat, col_width: nat, style: Style)
    requires
        num_cols > 0,
    ensures
        table::top_border(num_cols, col_width, style)[0].content.len() == num_cols * (col_width + 3)
            + 1,
        table::mid_border(num_cols, col_width, style)[0].content.len() == num_cols * (col_width + 3)
            + 1,
        table::bottom_border(num_cols, col_width, style)[0].content.len() == num_cols * (col_width
            + 3) + 1,
{
    lemma_border_cells_len(
        num_cols,
        col_width,
        seq!['\u{2500}', '\u{252C}', '\u{2500}'],
        seq!['\u{2500}', '\u{2510}'],
    );
    lemma_border_cells_len(
        num_cols,
        col_width,
        seq!['\u{2500}', '\u{253C}', '\u{2500}'],
        seq!['\u{2500}', '\u{2524}'],
    );
    lemma_border_cells_len(
        num_cols,
        col_width,
        seq!['\u{2500}', '\u{2534}', '\u{2500}'],
        seq!['\u{2500}', '\u{2518}'],
    );
}

/// A column has at least four columns of the terminal.
pub proof fn law_columns_are_wide_enough(num_cols: nat, width: nat)
    requires
        num_cols > 0,
    ensures
        table::column_width(num_cols, width) >= table::MIN_COL_WIDTH,
{
}

/// A table fits in the terminal as soon as the terminal has room for the
/// narrowest columns.
pub proof fn law_table_fits(num_cols: nat, width: nat)
    requires
        num_cols > 0,
        num_cols * (table::MIN_COL_WIDTH + 3) + 1 <= width,
    ensures
        num_cols * (table::column_width(num_cols, width) + 3) + 1 <= width,
{
    let free = (width - (3 * num_cols + 1)) as nat;
    assert(num_cols * (table::MIN_COL_WIDTH + 3) == num_cols * table::MIN_COL_WIDTH + 3 * num_cols)
        by (nonlinear_arith);
    vstd::arithmetic::div_mod::lemma_fundamental_div_mod(free as int, num_cols as int);
    vstd::arithmetic::div_mod::lemma_mod_bound(free as int, num_cols as int);
    let col = table::column_width(num_cols, width);
    assert(num_cols * (col + 3) == num_cols * col + 3 * num_cols) by (nonlinear_arith);
    if free / num_cols > table::MIN_COL_WIDTH {
        assert(col == free / num_cols);
        assert(num_cols * col <= free);
    } else {
        assert(col == table::MIN_COL_WIDTH);
    }
}

/// Every separator row is drawn as a border, and two rows that follow one another
/// have one between them.
pub proof fn law_borders_between_rows(
    blocks: Seq<block::BlockView>,
    i: int,
    width: nat,
    base_style: Style,
    options: RenderOptions,
)
    requires
        0 <= i < blocks.len(),
        blocks[i] is TableSeparator || (i + 1 < blocks.len() && blocks[i] is TableRow && blocks[i
            + 1] is TableRow),
    ensures
        ({
            let part = table::table_part(blocks, i, width, base_style, options);
            let num_cols = table::table_columns(blocks);
            part.len() > 0 && part.last() == table::mid_border(
                num_cols,
                table::column_width(num_cols, width),
                rule_style(options.palette),
            )
        }),
{
}

} // verus!
