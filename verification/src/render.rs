//! Rendering: parsed blocks and a width to styled lines.
use vstd::prelude::*;

use crate::block;
use crate::block::{parse, Block, ParsedMarkdown};
use crate::chars;
use crate::chars::repeat_char;
use crate::layout;
use crate::layout::{render_line_with_links, render_list_line, render_wrapped_line_tagged};
use crate::style::{
    bullet_style, code_block_style, heading_style, link_style, rule_style, RenderOptions, Style,
};
use crate::table;
use crate::table::{belongs_to_table, render_table_group};
use crate::text;
use crate::text::{Line, RenderedMarkdownLine, Span};

verus! {

/// The longest rule under a heading.
pub const HEADING_RULE_WIDTH: usize = 40;

/// The longest standalone rule.
pub const RULE_WIDTH: usize = 60;

/// A rule as wide as the terminal, but no wider than `longest`.
pub open spec fn rule_line(width: nat, longest: nat, options: RenderOptions) -> Seq<
    text::SpanView,
> {
    let n = if width < longest {
        width
    } else {
        longest
    };
    seq![
        text::SpanView {
            content: chars::repeated('\u{2500}', n),
            style: rule_style(options.palette),
        },
    ]
}

/// Draws a rule as wide as the terminal, but no wider than `longest`.
fn render_rule(width: usize, longest: usize, options: RenderOptions) -> (r: Line)
    ensures
        r@ == rule_line(width as nat, longest as nat, options),
{
    let n = if width < longest {
        width
    } else {
        longest
    };
    Line::of_span(Span::styled(repeat_char('\u{2500}', n), rule_style(options.palette)))
}

/// The lines of one block that does not belong to a table.
pub open spec fn block_lines(
    b: block::BlockView,
    width: nat,
    base_style: Style,
    options: RenderOptions,
) -> Seq<text::RenderedView> {
    match b {
        block::BlockView::Heading { level, text } => layout::wrapped_lines(
            text,
            width,
            heading_style(options.palette),
            false,
            false,
        ),
        block::BlockView::HeadingRule => text::tagged(
            seq![rule_line(width, HEADING_RULE_WIDTH as nat, options)],
            false,
        ),
        block::BlockView::HorizontalRule => text::tagged(
            seq![rule_line(width, RULE_WIDTH as nat, options)],
            false,
        ),
        block::BlockView::ListItem { bullet, text } => text::tagged(
            layout::list_lines(
                bullet,
                text,
                width,
                bullet_style(options.palette),
                base_style,
                options,
            ),
            false,
        ),
        block::BlockView::Code { line } => layout::wrapped_lines(
            line,
            width,
            code_block_style(options.palette),
            true,
            true,
        ),
        block::BlockView::Paragraph { text } => text::tagged(
            layout::link_lines(text, width, base_style, link_style(options.palette), options),
            false,
        ),
        block::BlockView::Blank => text::tagged(seq![seq![]], false),
        _ => seq![],
    }
}

/// The number of blocks of the table that `blocks` starts with.
pub open spec fn table_len(blocks: Seq<block::BlockView>) -> nat
    decreases blocks.len(),
{
    if blocks.len() > 0 && table::is_table_block(blocks[0]) {
        1 + table_len(blocks.skip(1))
    } else {
        0
    }
}

/// What `table_len` is.
pub proof fn lemma_table_len(blocks: Seq<block::BlockView>)
    ensures
        table_len(blocks) <= blocks.len(),
        forall|j: int| 0 <= j < table_len(blocks) ==> table::is_table_block(#[trigger] blocks[j]),
        table_len(blocks) < blocks.len() ==> !table::is_table_block(
            blocks[table_len(blocks) as int],
        ),
    decreases blocks.len(),
{
    if blocks.len() > 0 && table::is_table_block(blocks[0]) {
        let rest = blocks.skip(1);
        lemma_table_len(rest);
        assert forall|j: int| 0 <= j < table_len(blocks) implies table::is_table_block(
            #[trigger] blocks[j],
        ) by {
            if j > 0 {
                assert(rest[j - 1] == blocks[j]);
            }
        }
    }
}

/// The lines of blocks, in order. Consecutive table blocks are one table.
pub open spec fn blocks_lines(
    blocks: Seq<block::BlockView>,
    width: nat,
    base_style: Style,
    options: RenderOptions,
) -> Seq<text::RenderedView>
    decreases blocks.len(),
{
    let n = table_len(blocks) as int;
    proof {
        lemma_table_len(blocks);
    }
    if blocks.len() == 0 {
        seq![]
    } else if n > 0 {
        text::tagged(table::table_lines(blocks.take(n), width, base_style, options), false)
            + blocks_lines(blocks.skip(n), width, base_style, options)
    } else {
        block_lines(blocks[0], width, base_style, options) + blocks_lines(
            blocks.skip(1),
            width,
            base_style,
            options,
        )
    }
}

/// The rendering of parsed markdown: the lines of its blocks, or one empty line
/// if there are none. A terminal has at least one column.
pub open spec fn rendered(
    blocks: Seq<block::BlockView>,
    width: u16,
    base_style: Style,
    options: RenderOptions,
) -> Seq<text::RenderedView> {
    let columns = if width == 0 {
        1
    } else {
        width as nat
    };
    let lines = blocks_lines(blocks, columns, base_style, options);
    if lines.len() == 0 {
        text::tagged(seq![seq![]], false)
    } else {
        lines
    }
}

/// Appends lines to `out`, tagged as not coming from a code block.
fn push_plain(out: &mut Vec<RenderedMarkdownLine>, lines: Vec<Line>)
    ensures
        chars::views(final(out)@) == chars::views(old(out)@) + text::tagged(
            chars::views(lines@),
            false,
        ),
{
    let ghost all = text::tagged(chars::views(lines@), false);
    let ghost before = chars::views(out@);
    for line in it: lines
        invariant
            all == text::tagged(chars::views(it.seq()), false),
            chars::views(out@) == before + all.take(it.index() as int),
    {
        let ghost so_far = chars::views(out@);
        let ghost shown = line@;
        out.push(RenderedMarkdownLine { line, is_code: false });
        proof {
            let i = it.index() as int;
            assert(all[i] == (text::RenderedView { line: shown, is_code: false }));
            assert(chars::views(out@) == so_far.push(all[i]));
        }
    }
    assert(all.take(all.len() as int) == all);
}

/// Appends one line to `out`, tagged as not coming from a code block.
fn push_plain_line(out: &mut Vec<RenderedMarkdownLine>, line: Line)
    ensures
        chars::views(final(out)@) == chars::views(old(out)@) + text::tagged(seq![line@], false),
{
    let ghost before = chars::views(out@);
    let ghost shown = line@;
    out.push(RenderedMarkdownLine { line, is_code: false });
    assert(chars::views(out@) == before + text::tagged(seq![shown], false));
}

/// Appends the lines of a block that does not belong to a table to `out`.
fn render_block(
    out: &mut Vec<RenderedMarkdownLine>,
    b: &Block,
    width: usize,
    base_style: Style,
    options: RenderOptions,
)
    ensures
        chars::views(final(out)@) == chars::views(old(out)@) + block_lines(
            b@,
            width as nat,
            base_style,
            options,
        ),
{
    let ghost before = chars::views(out@);
    match b {
        Block::Heading { level: _, text } => {
            let mut lines = render_wrapped_line_tagged(
                text.as_str(),
                width,
                heading_style(options.palette),
                false,
                false,
            );
            let ghost shown = chars::views(lines@);
            out.append(&mut lines);
            assert(chars::views(out@) == before + shown);
        },
        Block::HeadingRule => {
            push_plain_line(out, render_rule(width, HEADING_RULE_WIDTH, options));
        },
        Block::HorizontalRule => {
            push_plain_line(out, render_rule(width, RULE_WIDTH, options));
        },
        Block::ListItem { bullet, text } => {
            let lines = render_list_line(
                bullet.as_str(),
                text.as_str(),
                width,
                bullet_style(options.palette),
                base_style,
                options,
            );
            push_plain(out, lines);
        },
        Block::Code { line } => {
            let mut lines = render_wrapped_line_tagged(
                line.as_str(),
                width,
                code_block_style(options.palette),
                true,
                true,
            );
            let ghost shown = chars::views(lines@);
            out.append(&mut lines);
            assert(chars::views(out@) == before + shown);
        },
        Block::Paragraph { text } => {
            let lines = render_line_with_links(
                text.as_str(),
                width,
                base_style,
                link_style(options.palette),
                options,
            );
            push_plain(out, lines);
        },
        Block::Blank => {
            push_plain_line(out, Line::empty());
        },
        Block::TableRow(_) => {
            assert(before + Seq::<text::RenderedView>::empty() == before);
        },
        Block::TableSeparator => {
            assert(before + Seq::<text::RenderedView>::empty() == before);
        },
    }
}

/// A table of parsed blocks has at least one column.
proof fn lemma_parsed_table_columns(blocks: Seq<block::BlockView>)
    requires
        forall|i: int| 0 <= i < blocks.len() ==> block::is_parsed_block(#[trigger] blocks[i]),
    ensures
        table::table_columns(blocks) > 0,
        table::longest_row(blocks) matches Some(n) ==> n > 0,
    decreases blocks.len(),
{
    if blocks.len() > 0 {
        let rest = blocks.drop_last();
        assert forall|i: int| 0 <= i < rest.len() implies block::is_parsed_block(
            #[trigger] rest[i],
        ) by {
            assert(rest[i] == blocks[i]);
        }
        lemma_parsed_table_columns(rest);
        assert(block::is_parsed_block(blocks[blocks.len() - 1]));
    }
}

/// Renders parsed markdown and keeps, for every line, whether a code block
/// produced it.
#[must_use]
pub fn render_parsed_tagged(
    parsed: &ParsedMarkdown,
    width: u16,
    base_style: Style,
    options: RenderOptions,
) -> (r: Vec<RenderedMarkdownLine>)
    ensures
        chars::views(r@) == rendered(parsed@, width, base_style, options),
{
    let columns: usize = if width == 0 {
        1
    } else {
        width as usize
    };
    let blocks = parsed.blocks();
    let ghost all = parsed@;
    let ghost whole = blocks_lines(all, columns as nat, base_style, options);
    let mut out: Vec<RenderedMarkdownLine> = Vec::new();
    let mut i: usize = 0;
    proof {
        assert(all.skip(0) == all);
        assert(chars::views(out@) + whole == whole);
    }
    while i < blocks.len()
        invariant
            i <= blocks@.len(),
            all == chars::views(blocks@),
            forall|k: int| 0 <= k < all.len() ==> block::is_parsed_block(#[trigger] all[k]),
            whole == blocks_lines(all, columns as nat, base_style, options),
            chars::views(out@) + blocks_lines(
                all.skip(i as int),
                columns as nat,
                base_style,
                options,
            ) == whole,
        decreases blocks@.len() - i,
    {
        let ghost rest = all.skip(i as int);
        let ghost before = chars::views(out@);
        let start = i;
        assert(rest.skip(0) == rest);
        while i < blocks.len() && belongs_to_table(&blocks[i])
            invariant
                start <= i <= blocks@.len(),
                all == chars::views(blocks@),
                rest == all.skip(start as int),
                table_len(rest) == (i - start) + table_len(all.skip(i as int)),
            decreases blocks@.len() - i,
        {
            assert(all.skip(i as int).skip(1) == all.skip(i + 1));
            i = i + 1;
        }
        if i > start {
            let group = vstd::slice::slice_subrange(blocks.as_slice(), start, i);
            let ghost n = i - start;
            proof {
                assert(table_len(rest) == n);
                assert(chars::views(group@) == rest.take(n));
                assert forall|k: int| 0 <= k < n implies block::is_parsed_block(
                    #[trigger] rest.take(n)[k],
                ) by {
                    assert(rest.take(n)[k] == all[start + k]);
                }
                lemma_parsed_table_columns(rest.take(n));
            }
            let lines = render_table_group(group, columns, base_style, options);
            let ghost shown = text::tagged(chars::views(lines@), false);
            push_plain(&mut out, lines);
            proof {
                let tail = blocks_lines(all.skip(i as int), columns as nat, base_style, options);
                assert(rest.skip(n) == all.skip(i as int));
                assert(before + (shown + tail) == before + shown + tail);
            }
        } else {
            render_block(&mut out, &blocks[i], columns, base_style, options);
            proof {
                let shown = block_lines(rest[0], columns as nat, base_style, options);
                let tail = blocks_lines(rest.skip(1), columns as nat, base_style, options);
                assert(rest[0] == blocks@[i as int]@);
                assert(rest.skip(1) == all.skip(i + 1));
                assert(before + (shown + tail) == before + shown + tail);
            }
            i = i + 1;
        }
    }
    assert(chars::views(out@) + Seq::<text::RenderedView>::empty() == chars::views(out@));
    if out.len() == 0 {
        push_plain_line(&mut out, Line::empty());
        assert(chars::views(out@) == text::tagged(seq![seq![]], false));
    }
    out
}

/// Renders parsed markdown at the given terminal width.
///
/// This is the width-dependent half. A width-only change can call it again with
/// the same parsed markdown and skip the parse step entirely.
#[must_use]
pub fn render_parsed(
    parsed: &ParsedMarkdown,
    width: u16,
    base_style: Style,
    options: RenderOptions,
) -> (r: Vec<Line>)
    ensures
        chars::views(r@) == text::untagged(rendered(parsed@, width, base_style, options)),
{
    let tagged_lines = render_parsed_tagged(parsed, width, base_style, options);
    let ghost all = rendered(parsed@, width, base_style, options);
    let mut out: Vec<Line> = Vec::new();
    for tagged_line in it: tagged_lines
        invariant
            all == chars::views(it.seq()),
            chars::views(out@) == text::untagged(all).take(it.index() as int),
    {
        let ghost before = chars::views(out@);
        let ghost shown = tagged_line.line@;
        out.push(tagged_line.line);
        proof {
            let i = it.index() as int;
            assert(all[i] == tagged_line@);
            assert(chars::views(out@) == before.push(text::untagged(all)[i]));
        }
    }
    assert(chars::views(out@) == text::untagged(all));
    out
}

/// Parses and renders in one call.
#[must_use]
pub fn render_markdown(
    content: &str,
    width: u16,
    base_style: Style,
    options: RenderOptions,
) -> (r: Vec<Line>)
    ensures
        chars::views(r@) == text::untagged(
            rendered(block::parsed(content@), width, base_style, options),
        ),
{
    let parsed = parse(content);
    render_parsed(&parsed, width, base_style, options)
}

/// Parses and renders in one call, and keeps, for every line, whether a code
/// block produced it.
#[must_use]
pub fn render_markdown_tagged(
    content: &str,
    width: u16,
    base_style: Style,
    options: RenderOptions,
) -> (r: Vec<RenderedMarkdownLine>)
    ensures
        chars::views(r@) == rendered(block::parsed(content@), width, base_style, options),
{
    let parsed = parse(content);
    render_parsed_tagged(&parsed, width, base_style, options)
}

} // verus!
