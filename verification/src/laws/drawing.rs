//! Laws of the lines of a rendering: what stands on those of each kind of block, in
//! which style, and what a document is made of.
use vstd::prelude::*;

use crate::block;
use crate::block::Block;
use crate::chars;
use crate::laws::filling;
use crate::layout;
use crate::render;
use crate::style::{
    bullet_style, code_block_style, heading_style, link_style, rule_style, Color, Palette,
    RenderOptions, Style, BOLD, CROSSED_OUT, ITALIC, UNDERLINED,
};
use crate::table;
use crate::text;
use crate::text::{Line, RenderedMarkdownLine, Span};
use crate::width;
use crate::wrap;

verus! {

// ---------------------------------------------------------------------------
// Styles

/// A style of one foreground colour and a set of modifiers, which leaves everything
/// else as it was.
pub open spec fn coloured(color: Color, modifiers: u16) -> Style {
    Style {
        fg: Some(color),
        bg: None,
        underline_color: None,
        add_modifier: modifiers,
        sub_modifier: 0,
    }
}

/// The styles that the renderer draws with: links are blue and underlined, headings
/// sky blue and bold, code sky blue and italic, bullets sky blue, and rules dim.
pub proof fn law_styles(palette: Palette)
    ensures
        link_style(palette) == coloured(palette.blue, 8),
        heading_style(palette) == coloured(palette.sky, 1),
        code_block_style(palette) == coloured(palette.sky, 4),
        bullet_style(palette) == coloured(palette.sky, 0),
        rule_style(palette) == coloured(palette.text_dim, 0),
{
    assert(0u16 | 8u16 == 8u16) by (bit_vector);
    assert(0u16 | 1u16 == 1u16) by (bit_vector);
    assert(0u16 | 4u16 == 4u16) by (bit_vector);
    assert(0u16 & !8u16 == 0u16) by (bit_vector);
    assert(0u16 & !1u16 == 0u16) by (bit_vector);
    assert(0u16 & !4u16 == 0u16) by (bit_vector);
}

/// The modifiers of text are single bits of a set.
pub proof fn law_modifiers()
    ensures
        BOLD == 1,
        ITALIC == 4,
        UNDERLINED == 8,
        CROSSED_OUT == 256,
{
}

/// A modifier that is added is switched on and no longer switched off; the other
/// modifiers and the colours stay as they were.
pub proof fn law_modifiers_are_added(style: Style, modifier: u16, bit: u16)
    ensures
        ({
            let after = style.add_modifier(modifier);
            &&& after.fg == style.fg
            &&& after.bg == style.bg
            &&& after.underline_color == style.underline_color
            &&& after.add_modifier & modifier == modifier
            &&& after.sub_modifier & modifier == 0
            &&& bit & modifier == 0 ==> after.add_modifier & bit == style.add_modifier & bit
                && after.sub_modifier & bit == style.sub_modifier & bit
        }),
{
    let a = style.add_modifier;
    let s = style.sub_modifier;
    assert((a | modifier) & modifier == modifier) by (bit_vector);
    assert((s & !modifier) & modifier == 0) by (bit_vector);
    assert(bit & modifier == 0 ==> (a | modifier) & bit == a & bit) by (bit_vector);
    assert(bit & modifier == 0 ==> (s & !modifier) & bit == s & bit) by (bit_vector);
}

/// A colour that is set replaces the one before it, and nothing else changes.
pub proof fn law_colours_are_set(style: Style, color: Color)
    ensures
        style.fg(color) == (Style {
            fg: Some(color),
            bg: style.bg,
            underline_color: style.underline_color,
            add_modifier: style.add_modifier,
            sub_modifier: style.sub_modifier,
        }),
        style.bg(color) == (Style {
            fg: style.fg,
            bg: Some(color),
            underline_color: style.underline_color,
            add_modifier: style.add_modifier,
            sub_modifier: style.sub_modifier,
        }),
{
}

/// Text without a style leaves everything as it was.
pub proof fn law_raw_text(s: Seq<char>)
    ensures
        text::raw_span(s).content == s,
        text::raw_span(s).style == (Style {
            fg: None::<Color>,
            bg: None::<Color>,
            underline_color: None::<Color>,
            add_modifier: 0,
            sub_modifier: 0,
        }),
{
}

// ---------------------------------------------------------------------------
// What values stand for

/// A vector stands for the sequence of what its values stand for.
pub proof fn law_views<T: View>(v: Seq<T>, i: int)
    ensures
        chars::views(v).len() == v.len(),
        0 <= i < v.len() ==> chars::views(v)[i] == v[i]@,
{
}

/// A span stands for its text and its style, a line for its spans, and a rendered
/// line for the line and its tag.
pub proof fn law_lines_stand_for_their_spans(
    span: Span,
    line: Line,
    rendered: RenderedMarkdownLine,
    i: int,
)
    ensures
        span@.content == span.content@,
        span@.style == span.style,
        line@.len() == line.spans@.len(),
        0 <= i < line.spans@.len() ==> line@[i] == line.spans@[i]@,
        rendered@.line == rendered.line@,
        rendered@.is_code == rendered.is_code,
{
}

/// A block stands for its kind and its texts.
pub proof fn law_blocks_stand_for_their_texts(b: Block)
    ensures
        match b {
            Block::Heading { level, text } => b@ == (block::BlockView::Heading {
                level,
                text: text@,
            }),
            Block::HeadingRule => b@ is HeadingRule,
            Block::HorizontalRule => b@ is HorizontalRule,
            Block::ListItem { bullet, text } => b@ == (block::BlockView::ListItem {
                bullet: bullet@,
                text: text@,
            }),
            Block::Code { line } => b@ == (block::BlockView::Code { line: line@ }),
            Block::TableRow(cells) => b@ is TableRow && b@->TableRow_0.len() == cells@.len()
                && forall|i: int|
                0 <= i < cells@.len() ==> #[trigger] b@->TableRow_0[i] == cells@[i]@,
            Block::TableSeparator => b@ is TableSeparator,
            Block::Paragraph { text } => b@ == (block::BlockView::Paragraph { text: text@ }),
            Block::Blank => b@ is Blank,
        },
{
}

/// The text of a line is that of its spans, one behind the other.
pub proof fn law_line_text(line: Seq<text::SpanView>, span: text::SpanView)
    ensures
        text::line_text(Seq::<text::SpanView>::empty()) == Seq::<char>::empty(),
        text::line_text(line.push(span)) == text::line_text(line) + span.content,
{
    assert(line.push(span).drop_last() == line);
}

/// Lines are tagged, and lose their tags, one by one.
pub proof fn law_tags(
    lines: Seq<Seq<text::SpanView>>,
    is_code: bool,
    rendered: Seq<text::RenderedView>,
    i: int,
)
    ensures
        text::tagged(lines, is_code).len() == lines.len(),
        0 <= i < lines.len() ==> text::tagged(lines, is_code)[i].line == lines[i]
            && text::tagged(lines, is_code)[i].is_code == is_code,
        text::untagged(rendered).len() == rendered.len(),
        0 <= i < rendered.len() ==> text::untagged(rendered)[i] == rendered[i].line,
{
}

// ---------------------------------------------------------------------------
// Rules

/// Whether a rendered line is a rule of `n` strokes, in the dim colour.
pub open spec fn is_stroke_line(line: text::RenderedView, n: nat, palette: Palette) -> bool {
    &&& !line.is_code
    &&& line.line.len() == 1
    &&& line.line[0].style == coloured(palette.text_dim, 0)
    &&& line.line[0].content.len() == n
    &&& forall|i: int| 0 <= i < n ==> #[trigger] line.line[0].content[i] == '\u{2500}'
}

/// The rule under a heading and the standalone rule are one line each, as wide as
/// the terminal but no wider than forty and sixty columns.
pub proof fn law_rules_are_drawn(width: nat, base_style: Style, options: RenderOptions)
    ensures
        ({
            let under = render::block_lines(
                block::BlockView::HeadingRule,
                width,
                base_style,
                options,
            );
            let alone = render::block_lines(
                block::BlockView::HorizontalRule,
                width,
                base_style,
                options,
            );
            &&& under.len() == 1 && alone.len() == 1
            &&& width <= 40 ==> is_stroke_line(under[0], width, options.palette)
            &&& width > 40 ==> is_stroke_line(under[0], 40, options.palette)
            &&& width <= 60 ==> is_stroke_line(alone[0], width, options.palette)
            &&& width > 60 ==> is_stroke_line(alone[0], 60, options.palette)
        }),
{
    law_styles(options.palette);
}

// ---------------------------------------------------------------------------
// List items

/// What is left beside something of the terminal is the rest of its columns, and
/// one column where nothing is left.
pub proof fn law_columns_left(width: nat, used: nat)
    ensures
        used < width ==> layout::columns_left(width, used) + used == width,
        used >= width ==> layout::columns_left(width, used) == 1,
{
}

/// Lines hang behind a bullet: the bullet stands before the first of them, as many
/// spaces as the bullet is wide before the others, and the lines themselves stay as
/// they were.
pub proof fn law_hanging(
    lines: Seq<Seq<text::SpanView>>,
    bullet: Seq<char>,
    bullet_width: nat,
    bullet_style: Style,
    i: int,
)
    requires
        0 <= i < lines.len(),
    ensures
        ({
            let hung = layout::hanging(lines, bullet, bullet_width, bullet_style);
            &&& hung.len() == lines.len()
            &&& hung[i].len() == lines[i].len() + 1
            &&& hung[i].skip(1) == lines[i]
            &&& i == 0 ==> hung[i][0] == (text::SpanView { content: bullet, style: bullet_style })
            &&& i > 0 ==> hung[i][0] == text::raw_span(Seq::new(bullet_width, |k: int| ' '))
        }),
{
    let hung = layout::hanging(lines, bullet, bullet_width, bullet_style);
    assert(hung[i].skip(1) == lines[i]);
    assert(chars::repeated(' ', bullet_width) == Seq::new(bullet_width, |k: int| ' '));
}

/// A list item is its bullet and a space, and beside them its text, wrapped at what
/// they leave of the terminal; the lines under the first are indented as far.
pub proof fn law_list_items_are_drawn(
    bullet: Seq<char>,
    item: Seq<char>,
    width: nat,
    base_style: Style,
    options: RenderOptions,
    i: int,
)
    ensures
        ({
            let prefix = bullet + seq![' '];
            let used = width::str_width(prefix) as nat;
            let left = if used < width {
                (width - used) as nat
            } else {
                1
            };
            let beside = layout::link_lines(
                item,
                left,
                base_style,
                link_style(options.palette),
                options,
            );
            let lines = render::block_lines(
                block::BlockView::ListItem { bullet, text: item },
                width,
                base_style,
                options,
            );
            &&& lines.len() == beside.len()
            &&& 0 <= i < lines.len() ==> {
                &&& !lines[i].is_code
                &&& lines[i].line == seq![
                    if i == 0 {
                        text::SpanView {
                            content: prefix,
                            style: coloured(options.palette.sky, 0),
                        }
                    } else {
                        text::raw_span(Seq::new(used, |k: int| ' '))
                    },
                ] + beside[i]
            }
        }),
{
    law_styles(options.palette);
    let prefix = bullet + seq![' '];
    assert(bullet.push(' ') == prefix);
    let used = width::str_width(prefix) as nat;
    assert(chars::repeated(' ', used) == Seq::new(used, |k: int| ' '));
}

// ---------------------------------------------------------------------------
// Headings, code and the rest

/// A heading is filled word by word at the width of the terminal, behind a span of
/// nothing, in the style of headings whatever its level.
pub proof fn law_headings_are_drawn(
    level: usize,
    heading: Seq<char>,
    width: nat,
    base_style: Style,
    options: RenderOptions,
    i: int,
)
    requires
        width > 0,
    ensures
        ({
            let filled = wrap::text_lines(heading, width);
            let lines = render::block_lines(
                block::BlockView::Heading { level, text: heading },
                width,
                base_style,
                options,
            );
            &&& lines.len() == filled.len()
            &&& 0 <= i < lines.len() ==> {
                &&& !lines[i].is_code
                &&& lines[i].line == seq![
                    text::raw_span(Seq::<char>::empty()),
                    text::SpanView {
                        content: filled[i],
                        style: coloured(options.palette.sky, 1),
                    },
                ]
            }
        }),
{
    law_styles(options.palette);
    assert(chars::repeated(' ', 0) == Seq::<char>::empty());
}

/// A line of code is cut at the width that two spaces leave of the terminal, and
/// every part stands behind two spaces, in the style of code, tagged as code.
pub proof fn law_code_is_drawn(
    line: Seq<char>,
    width: nat,
    base_style: Style,
    options: RenderOptions,
    i: int,
)
    ensures
        ({
            let left = if width > 2 {
                (width - 2) as nat
            } else {
                1
            };
            let cut = wrap::code_lines(wrap::measured_chars(line), left);
            let lines = render::block_lines(
                block::BlockView::Code { line },
                width,
                base_style,
                options,
            );
            &&& lines.len() == cut.len()
            &&& 0 <= i < lines.len() ==> {
                &&& lines[i].is_code
                &&& lines[i].line == seq![
                    text::raw_span(seq![' ', ' ']),
                    text::SpanView { content: cut[i], style: coloured(options.palette.sky, 4) },
                ]
            }
        }),
{
    law_styles(options.palette);
    assert(chars::repeated(' ', 2) == seq![' ', ' ']);
}

/// A plain text is cut as code behind two spaces if it is indented, else filled word
/// by word, and every line of it has the style and the tag that were asked for.
pub proof fn law_plain_text_is_drawn(
    line: Seq<char>,
    width: nat,
    style: Style,
    indent_code: bool,
    is_code: bool,
    i: int,
)
    ensures
        ({
            let indent = if indent_code {
                seq![' ', ' ']
            } else {
                Seq::<char>::empty()
            };
            let left = if indent.len() < width {
                (width - indent.len()) as nat
            } else {
                1
            };
            let cut = if indent_code {
                wrap::code_lines(wrap::measured_chars(line), left)
            } else {
                wrap::text_lines(line, left)
            };
            let lines = layout::wrapped_lines(line, width, style, indent_code, is_code);
            &&& lines.len() == cut.len()
            &&& 0 <= i < lines.len() ==> {
                &&& lines[i].is_code == is_code
                &&& lines[i].line == seq![
                    text::raw_span(indent),
                    text::SpanView { content: cut[i], style },
                ]
            }
        }),
{
    assert(chars::repeated(' ', 2) == seq![' ', ' ']);
    assert(chars::repeated(' ', 0) == Seq::<char>::empty());
}

/// Lines are indented one by one.
pub proof fn law_indented(
    lines: Seq<Seq<char>>,
    indent: nat,
    style: Style,
    is_code: bool,
    i: int,
)
    requires
        0 <= i < lines.len(),
    ensures
        ({
            let shown = layout::indented(lines, indent, style, is_code);
            &&& shown.len() == lines.len()
            &&& shown[i].is_code == is_code
            &&& shown[i].line == seq![
                text::raw_span(Seq::new(indent, |k: int| ' ')),
                text::SpanView { content: lines[i], style },
            ]
        }),
{
    assert(chars::repeated(' ', indent) == Seq::new(indent, |k: int| ' '));
}

/// A paragraph is laid out at the width of the terminal, in the base style and with
/// the style of links; an empty source line is an empty line. None of it is tagged
/// as code.
pub proof fn law_paragraphs_are_drawn(
    paragraph: Seq<char>,
    width: nat,
    base_style: Style,
    options: RenderOptions,
    i: int,
)
    ensures
        ({
            let laid_out = layout::link_lines(
                paragraph,
                width,
                base_style,
                coloured(options.palette.blue, 8),
                options,
            );
            let lines = render::block_lines(
                block::BlockView::Paragraph { text: paragraph },
                width,
                base_style,
                options,
            );
            &&& lines.len() == laid_out.len()
            &&& 0 <= i < lines.len() ==> lines[i].line == laid_out[i] && !lines[i].is_code
        }),
        ({
            let lines = render::block_lines(block::BlockView::Blank, width, base_style, options);
            &&& lines.len() == 1
            &&& lines[0].line == Seq::<text::SpanView>::empty()
            &&& !lines[0].is_code
        }),
{
    law_styles(options.palette);
}

// ---------------------------------------------------------------------------
// Documents

/// Whether all the blocks belong to tables.
pub open spec fn are_table_blocks(blocks: Seq<block::BlockView>) -> bool {
    forall|i: int|
        0 <= i < blocks.len() ==> (#[trigger] blocks[i]) is TableRow
            || blocks[i] is TableSeparator
}

/// No blocks have no lines, and a block that belongs to no table has its own.
pub proof fn law_one_block(
    b: block::BlockView,
    width: nat,
    base_style: Style,
    options: RenderOptions,
)
    requires
        !(b is TableRow || b is TableSeparator),
    ensures
        render::blocks_lines(Seq::<block::BlockView>::empty(), width, base_style, options)
            == Seq::<text::RenderedView>::empty(),
        render::blocks_lines(seq![b], width, base_style, options) == render::block_lines(
            b,
            width,
            base_style,
            options,
        ),
{
    let one = seq![b];
    assert(!table::is_table_block(one[0]));
    assert(render::table_len(one) == 0);
    let none = Seq::<block::BlockView>::empty();
    assert(one.skip(1) == none);
    let tail = render::blocks_lines(none, width, base_style, options);
    assert(tail == Seq::<text::RenderedView>::empty());
    let head = render::block_lines(b, width, base_style, options);
    assert(head + tail == head);
}

/// Rows and separators that follow one another are one table, and none of its lines
/// is tagged as code.
pub proof fn law_one_table(
    blocks: Seq<block::BlockView>,
    width: nat,
    base_style: Style,
    options: RenderOptions,
    i: int,
)
    requires
        blocks.len() > 0,
        are_table_blocks(blocks),
    ensures
        ({
            let drawn = table::table_lines(blocks, width, base_style, options);
            let lines = render::blocks_lines(blocks, width, base_style, options);
            &&& lines.len() == drawn.len()
            &&& 0 <= i < lines.len() ==> lines[i].line == drawn[i] && !lines[i].is_code
        }),
{
    render::lemma_table_len(blocks);
    let n = render::table_len(blocks) as int;
    assert(n == blocks.len()) by {
        if n < blocks.len() {
            assert(blocks[n] is TableRow || blocks[n] is TableSeparator);
        }
    }
    assert(blocks.take(n) == blocks);
    let none = Seq::<block::BlockView>::empty();
    assert(blocks.skip(n) == none);
    let tail = render::blocks_lines(none, width, base_style, options);
    assert(tail == Seq::<text::RenderedView>::empty());
}

/// A rendering is the lines of the blocks at the width of the terminal, which counts
/// as one column where it has none; where there is no line, it is an empty one.
pub proof fn law_rendering(
    blocks: Seq<block::BlockView>,
    width: u16,
    base_style: Style,
    options: RenderOptions,
)
    ensures
        ({
            let lines = render::rendered(blocks, width, base_style, options);
            &&& width > 0 && blocks.len() > 0 ==> lines == render::blocks_lines(
                blocks,
                width as nat,
                base_style,
                options,
            )
            &&& width == 0 && blocks.len() > 0 ==> lines == render::blocks_lines(
                blocks,
                1,
                base_style,
                options,
            )
            &&& blocks.len() == 0 ==> {
                &&& lines.len() == 1
                &&& lines[0].line == Seq::<text::SpanView>::empty()
                &&& !lines[0].is_code
            }
        }),
{
    let columns = if width == 0 {
        1
    } else {
        width as nat
    };
    if blocks.len() > 0 {
        lemma_blocks_have_lines(blocks, columns, base_style, options);
    }
}

proof fn lemma_blocks_have_lines(
    blocks: Seq<block::BlockView>,
    width: nat,
    base_style: Style,
    options: RenderOptions,
)
    requires
        blocks.len() > 0,
        width > 0,
    ensures
        render::blocks_lines(blocks, width, base_style, options).len() > 0,
{
    let n = render::table_len(blocks) as int;
    if n == 0 {
        let b = blocks[0];
        assert(!table::is_table_block(b));
        match b {
            block::BlockView::Heading { level, text } => {
                lemma_prose_has_lines(text, width);
            },
            block::BlockView::Code { line } => {
                let left = layout::columns_left(width, layout::CODE_INDENT as nat);
                filling::law_first_code_line(wrap::measured_chars(line), left);
            },
            _ => {},
        }
    }
}

proof fn lemma_prose_has_lines(s: Seq<char>, width: nat)
    requires
        width > 0,
    ensures
        wrap::text_lines(s, width).len() > 0,
{
    let words = wrap::measured_words(chars::words_of(s));
    filling::law_first_prose_line(words, width);
}

} // verus!
