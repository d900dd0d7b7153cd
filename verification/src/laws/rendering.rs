//! Laws of rendering.
use vstd::prelude::*;

use crate::block;
use crate::chars;
use crate::laws::wrapping;
use crate::layout;
use crate::render;
use crate::style::{RenderOptions, Style};
use crate::table;
use crate::text;
use crate::wrap;

verus! {

/// Whatever is rendered, there is at least one line.
pub proof fn law_rendering_has_a_line(
    blocks: Seq<block::BlockView>,
    width: u16,
    base_style: Style,
    options: RenderOptions,
)
    ensures
        render::rendered(blocks, width, base_style, options).len() >= 1,
{
}

/// A terminal without columns is rendered for as if it had one.
pub proof fn law_no_columns_is_one_column(
    blocks: Seq<block::BlockView>,
    base_style: Style,
    options: RenderOptions,
)
    ensures
        render::rendered(blocks, 0, base_style, options) == render::rendered(
            blocks,
            1,
            base_style,
            options,
        ),
{
}

// ---------------------------------------------------------------------------
// Parts

proof fn lemma_table_len_append(a: Seq<block::BlockView>, b: Seq<block::BlockView>)
    requires
        a.len() > 0,
        b.len() > 0 ==> !table::is_table_block(b[0]) || !table::is_table_block(a.last()),
    ensures
        render::table_len(a + b) == render::table_len(a),
    decreases a.len(),
{
    assert((a + b)[0] == a[0]);
    if table::is_table_block(a[0]) {
        assert((a + b).skip(1) == a.skip(1) + b);
        if a.len() > 1 {
            assert(a.skip(1).last() == a.last());
            lemma_table_len_append(a.skip(1), b);
        } else {
            assert(a.skip(1) + b == b);
            assert(a.last() == a[0]);
            assert(render::table_len(b) == 0);
            assert(render::table_len(a.skip(1)) == 0);
        }
    }
}

/// Blocks can be rendered in parts, as long as no table is cut in two.
pub proof fn law_render_in_parts(
    a: Seq<block::BlockView>,
    b: Seq<block::BlockView>,
    width: nat,
    base_style: Style,
    options: RenderOptions,
)
    requires
        a.len() > 0 && b.len() > 0 ==> !table::is_table_block(b[0]) || !table::is_table_block(
            a.last(),
        ),
    ensures
        render::blocks_lines(a + b, width, base_style, options) == render::blocks_lines(
            a,
            width,
            base_style,
            options,
        ) + render::blocks_lines(b, width, base_style, options),
    decreases a.len(),
{
    let tail = render::blocks_lines(b, width, base_style, options);
    if a.len() == 0 {
        assert(a + b == b);
        assert(Seq::<text::RenderedView>::empty() + tail == tail);
    } else {
        lemma_table_len_append(a, b);
        render::lemma_table_len(a);
        let n = render::table_len(a) as int;
        if n > 0 {
            let rest = a.skip(n);
            assert((a + b).take(n) == a.take(n));
            assert((a + b).skip(n) == rest + b);
            if rest.len() > 0 {
                assert(rest.last() == a.last());
            }
            law_render_in_parts(rest, b, width, base_style, options);
            let head = text::tagged(
                table::table_lines(a.take(n), width, base_style, options),
                false,
            );
            let mid = render::blocks_lines(rest, width, base_style, options);
            assert(head + (mid + tail) == head + mid + tail);
        } else {
            let rest = a.skip(1);
            assert((a + b)[0] == a[0]);
            assert((a + b).skip(1) == rest + b);
            if rest.len() > 0 {
                assert(rest.last() == a.last());
            }
            law_render_in_parts(rest, b, width, base_style, options);
            let head = render::block_lines(a[0], width, base_style, options);
            let mid = render::blocks_lines(rest, width, base_style, options);
            assert(head + (mid + tail) == head + mid + tail);
        }
    }
}

// ---------------------------------------------------------------------------
// Code

/// The lines that are tagged as coming from a code block.
pub open spec fn code_tagged(lines: Seq<text::RenderedView>) -> Seq<text::RenderedView>
    decreases lines.len(),
{
    if lines.len() == 0 {
        lines
    } else if lines.last().is_code {
        code_tagged(lines.drop_last()).push(lines.last())
    } else {
        code_tagged(lines.drop_last())
    }
}

/// The lines of the code blocks among `blocks`.
pub open spec fn lines_of_code(
    blocks: Seq<block::BlockView>,
    width: nat,
    base_style: Style,
    options: RenderOptions,
) -> Seq<text::RenderedView>
    decreases blocks.len(),
{
    if blocks.len() == 0 {
        seq![]
    } else if blocks[0] is Code {
        render::block_lines(blocks[0], width, base_style, options) + lines_of_code(
            blocks.skip(1),
            width,
            base_style,
            options,
        )
    } else {
        lines_of_code(blocks.skip(1), width, base_style, options)
    }
}

proof fn lemma_code_tagged_concat(a: Seq<text::RenderedView>, b: Seq<text::RenderedView>)
    ensures
        code_tagged(a + b) == code_tagged(a) + code_tagged(b),
    decreases b.len(),
{
    if b.len() == 0 {
        assert(a + b == a);
        assert(code_tagged(a) + b == code_tagged(a));
    } else {
        lemma_code_tagged_concat(a, b.drop_last());
        assert((a + b).drop_last() == a + b.drop_last());
        assert((a + b).last() == b.last());
        let rest = code_tagged(b.drop_last());
        assert((code_tagged(a) + rest).push(b.last()) == code_tagged(a) + rest.push(b.last()));
    }
}

proof fn lemma_all_tagged(lines: Seq<text::RenderedView>, is_code: bool)
    requires
        forall|i: int| 0 <= i < lines.len() ==> (#[trigger] lines[i]).is_code == is_code,
    ensures
        is_code ==> code_tagged(lines) == lines,
        !is_code ==> code_tagged(lines) == Seq::<text::RenderedView>::empty(),
    decreases lines.len(),
{
    if lines.len() > 0 {
        let init = lines.drop_last();
        assert forall|i: int| 0 <= i < init.len() implies (#[trigger] init[i]).is_code
            == is_code by {
            assert(init[i] == lines[i]);
        }
        lemma_all_tagged(init, is_code);
        assert(lines[lines.len() - 1].is_code == is_code);
        assert(init.push(lines.last()) == lines);
    }
}

proof fn lemma_no_code_in_tables(
    blocks: Seq<block::BlockView>,
    n: int,
    width: nat,
    base_style: Style,
    options: RenderOptions,
)
    requires
        0 <= n <= blocks.len(),
        forall|j: int| 0 <= j < n ==> table::is_table_block(#[trigger] blocks[j]),
    ensures
        lines_of_code(blocks, width, base_style, options) == lines_of_code(
            blocks.skip(n),
            width,
            base_style,
            options,
        ),
    decreases n,
{
    if n == 0 {
        assert(blocks.skip(0) == blocks);
    } else {
        assert(table::is_table_block(blocks[0]));
        let rest = blocks.skip(1);
        assert forall|j: int| 0 <= j < n - 1 implies table::is_table_block(#[trigger] rest[j]) by {
            assert(rest[j] == blocks[j + 1]);
        }
        lemma_no_code_in_tables(rest, n - 1, width, base_style, options);
        assert(rest.skip(n - 1) == blocks.skip(n));
    }
}

/// The lines that are tagged as code are those of the code blocks, and no others.
pub proof fn law_code_tags(
    blocks: Seq<block::BlockView>,
    width: nat,
    base_style: Style,
    options: RenderOptions,
)
    ensures
        code_tagged(render::blocks_lines(blocks, width, base_style, options)) == lines_of_code(
            blocks,
            width,
            base_style,
            options,
        ),
    decreases blocks.len(),
{
    if blocks.len() > 0 {
        let none = Seq::<text::RenderedView>::empty();
        let n = render::table_len(blocks) as int;
        render::lemma_table_len(blocks);
        if n > 0 {
            let head = text::tagged(
                table::table_lines(blocks.take(n), width, base_style, options),
                false,
            );
            let tail = render::blocks_lines(blocks.skip(n), width, base_style, options);
            law_code_tags(blocks.skip(n), width, base_style, options);
            lemma_no_code_in_tables(blocks, n, width, base_style, options);
            lemma_all_tagged(head, false);
            lemma_code_tagged_concat(head, tail);
            assert(none + code_tagged(tail) == code_tagged(tail));
        } else {
            let head = render::block_lines(blocks[0], width, base_style, options);
            let tail = render::blocks_lines(blocks.skip(1), width, base_style, options);
            law_code_tags(blocks.skip(1), width, base_style, options);
            lemma_all_tagged(head, blocks[0] is Code);
            lemma_code_tagged_concat(head, tail);
            assert(none + code_tagged(tail) == code_tagged(tail));
        }
    }
}

/// The texts in the second spans of rendered lines, which follow the indentation.
pub open spec fn contents(lines: Seq<text::RenderedView>) -> Seq<Seq<char>> {
    Seq::new(lines.len(), |i: int| lines[i].line[1].content)
}

/// A line of code is rendered behind two spaces, and none of it is lost: its own
/// indentation and every other character of it is shown, in order.
pub proof fn law_code_is_shown_as_it_stands(
    line: Seq<char>,
    width: nat,
    base_style: Style,
    options: RenderOptions,
)
    ensures
        ({
            let lines = render::block_lines(
                block::BlockView::Code { line },
                width,
                base_style,
                options,
            );
            &&& contents(lines).flatten() == line
            &&& forall|i: int|
                0 <= i < lines.len() ==> (#[trigger] lines[i]).line[0].content == seq![' ', ' ']
        }),
{
    let lines = render::block_lines(block::BlockView::Code { line }, width, base_style, options);
    let left = layout::columns_left(width, layout::CODE_INDENT as nat);
    let wrapped = wrap::code_lines(wrap::measured_chars(line), left);
    wrapping::law_wrap_code_line_keeps_text(line, left);
    assert(contents(lines) == wrapped);
    assert(chars::repeated(' ', layout::CODE_INDENT as nat) == seq![' ', ' ']);
}

/// The words of a heading are all shown, in order.
pub proof fn law_heading_words_are_shown(
    level: usize,
    heading: Seq<char>,
    width: nat,
    base_style: Style,
    options: RenderOptions,
)
    ensures
        wrapping::words_of_lines(
            contents(
                render::block_lines(
                    block::BlockView::Heading { level, text: heading },
                    width,
                    base_style,
                    options,
                ),
            ),
        ) == chars::words_of(heading),
{
    let lines = render::block_lines(
        block::BlockView::Heading { level, text: heading },
        width,
        base_style,
        options,
    );
    let left = layout::columns_left(width, 0);
    wrapping::law_wrap_text_keeps_words(heading, left);
    assert(contents(lines) == wrap::text_lines(heading, left));
}

} // verus!
