//! Laws of what a rendering says: the same text at every width.
//!
//! Outside tables, and in table rows that take one line, it is the same text in
//! the same order. A row that wraps says the same of every cell in the same order,
//! but the lines of its cells stand side by side. The markup of a cell is read line
//! by line once the cell is wrapped, so what is said of tables is said of cells
//! without markup.
use vstd::prelude::*;

use crate::block;
use crate::chars;
use crate::laws::alphabet;
use crate::laws::inline_text;
use crate::laws::reflow;
use crate::laws::tables;
use crate::laws::wrapping;
use crate::layout;
use crate::markup;
use crate::render;
use crate::style::{code_block_style, heading_style, link_style, RenderOptions, Style};
use crate::table;
use crate::text;
use crate::wrap;

verus! {

/// `s` without the characters that rules are drawn with.
pub open spec fn unboxed(s: Seq<char>) -> Seq<char>
    decreases s.len(),
{
    if s.len() == 0 {
        s
    } else if alphabet::is_box_drawing(s.last()) {
        unboxed(s.drop_last())
    } else {
        unboxed(s.drop_last()).push(s.last())
    }
}

/// What is written in `s`: all but white space and rules.
pub open spec fn written(s: Seq<char>) -> Seq<char> {
    unboxed(chars::visible(s))
}

/// What is written on lines, in order.
pub open spec fn written_on(lines: Seq<Seq<text::SpanView>>) -> Seq<char>
    decreases lines.len(),
{
    if lines.len() == 0 {
        seq![]
    } else {
        written_on(lines.drop_last()) + written(text::line_text(lines.last()))
    }
}

/// What a block says, whatever the width.
pub open spec fn says(
    b: block::BlockView,
    base_style: Style,
    options: RenderOptions,
) -> Seq<char> {
    match b {
        block::BlockView::Heading { level, text } => written(text),
        block::BlockView::ListItem { bullet, text } => written(bullet) + written(
            inline_text_of(text, base_style, options),
        ),
        block::BlockView::Code { line } => written(line),
        block::BlockView::Paragraph { text } => written(inline_text_of(text, base_style, options)),
        block::BlockView::TableRow(cells) => said_by_cells(cells),
        _ => seq![],
    }
}

/// What the cells of a table row say, in order.
pub open spec fn said_by_cells(cells: Seq<Seq<char>>) -> Seq<char>
    decreases cells.len(),
{
    if cells.len() == 0 {
        seq![]
    } else {
        said_by_cells(cells.drop_last()) + written(cells.last())
    }
}

/// Whether a text holds none of the characters that markup is written with, nor,
/// where links are written as escape sequences, the colon that a URL has.
pub open spec fn is_unmarked(s: Seq<char>, options: RenderOptions) -> bool {
    &&& alphabet::lacks(s, '*')
    &&& alphabet::lacks(s, '_')
    &&& alphabet::lacks(s, '`')
    &&& alphabet::lacks(s, '[')
    &&& alphabet::lacks(s, '~')
    &&& options.osc8 ==> alphabet::lacks(s, ':')
}

/// Whether no table cell holds any markup.
pub open spec fn tables_are_unmarked(
    blocks: Seq<block::BlockView>,
    options: RenderOptions,
) -> bool {
    forall|i: int|
        0 <= i < blocks.len() ==> (#[trigger] blocks[i] matches block::BlockView::TableRow(cells)
            ==> cells_are_unmarked(cells, options))
}

/// Whether no cell of a row holds any markup.
pub open spec fn cells_are_unmarked(cells: Seq<Seq<char>>, options: RenderOptions) -> bool {
    forall|j: int| 0 <= j < cells.len() ==> is_unmarked(#[trigger] cells[j], options)
}

/// Whether every table row takes one line at the given width.
pub open spec fn rows_are_single(blocks: Seq<block::BlockView>, width: nat) -> bool {
    forall|i: int|
        0 <= i < blocks.len() ==> (#[trigger] blocks[i] matches block::BlockView::TableRow(cells)
            ==> is_single_row(cells, width))
}

/// Whether every cell of a row takes one line at the given width.
pub open spec fn is_single_row(cells: Seq<Seq<char>>, width: nat) -> bool {
    forall|j: int|
        0 <= j < cells.len() ==> wrap::cell_lines(
            #[trigger] cells[j],
            table::column_width(cells.len(), width),
        ).len() == 1
}

/// Whether two texts have the same characters, and, if `in_order`, in the same
/// order.
pub open spec fn say_the_same(a: Seq<char>, b: Seq<char>, in_order: bool) -> bool {
    if in_order {
        a == b
    } else {
        a.to_multiset() == b.to_multiset()
    }
}

/// A text with its inline markup taken out.
pub open spec fn inline_text_of(
    s: Seq<char>,
    base_style: Style,
    options: RenderOptions,
) -> Seq<char> {
    text::line_text(markup::inline_spans(s, base_style, link_style(options.palette), options))
}

/// What blocks say, in order.
pub open spec fn said(
    blocks: Seq<block::BlockView>,
    base_style: Style,
    options: RenderOptions,
) -> Seq<char>
    decreases blocks.len(),
{
    if blocks.len() == 0 {
        seq![]
    } else {
        says(blocks[0], base_style, options) + said(blocks.skip(1), base_style, options)
    }
}

proof fn lemma_unboxed_concat(a: Seq<char>, b: Seq<char>)
    ensures
        unboxed(a + b) == unboxed(a) + unboxed(b),
    decreases b.len(),
{
    if b.len() == 0 {
        assert(a + b == a);
        assert(unboxed(a) + b == unboxed(a));
    } else {
        lemma_unboxed_concat(a, b.drop_last());
        assert((a + b).drop_last() == a + b.drop_last());
        let rest = unboxed(b.drop_last());
        assert((unboxed(a) + rest).push(b.last()) == unboxed(a) + rest.push(b.last()));
    }
}

proof fn lemma_written_concat(a: Seq<char>, b: Seq<char>)
    ensures
        written(a + b) == written(a) + written(b),
{
    wrapping::law_visible_concat(a, b);
    lemma_unboxed_concat(chars::visible(a), chars::visible(b));
}

/// White space and box-drawing characters say nothing.
proof fn lemma_says_nothing(s: Seq<char>)
    requires
        forall|j: int|
            0 <= j < s.len() ==> chars::is_white_space(#[trigger] s[j]) || alphabet::is_box_drawing(
                s[j],
            ),
    ensures
        written(s) == Seq::<char>::empty(),
    decreases s.len(),
{
    if s.len() > 0 {
        let init = s.drop_last();
        assert forall|j: int| 0 <= j < init.len() implies chars::is_white_space(#[trigger] init[j])
            || alphabet::is_box_drawing(init[j]) by {
            assert(init[j] == s[j]);
        }
        lemma_says_nothing(init);
        assert(chars::is_white_space(s[s.len() - 1]) || alphabet::is_box_drawing(s.last()));
        let seen = chars::visible(init);
        assert(seen.push(s.last()).drop_last() == seen);
    }
}

proof fn lemma_space_says_nothing(n: nat)
    ensures
        written(chars::repeated(' ', n)) == Seq::<char>::empty(),
{
    lemma_says_nothing(chars::repeated(' ', n));
}

proof fn lemma_rule_says_nothing(n: nat)
    ensures
        written(chars::repeated('\u{2500}', n)) == Seq::<char>::empty(),
{
    lemma_says_nothing(chars::repeated('\u{2500}', n));
}

/// What is written on lines does not depend on where they are cut.
proof fn lemma_written_on_concat(a: Seq<Seq<text::SpanView>>, b: Seq<Seq<text::SpanView>>)
    ensures
        written_on(a + b) == written_on(a) + written_on(b),
    decreases b.len(),
{
    if b.len() == 0 {
        assert(a + b == a);
        assert(written_on(a) + Seq::<char>::empty() == written_on(a));
    } else {
        lemma_written_on_concat(a, b.drop_last());
        assert((a + b).drop_last() == a + b.drop_last());
        let last = written(text::line_text(b.last()));
        assert(written_on(a) + written_on(b.drop_last()) + last == written_on(a) + (written_on(
            b.drop_last(),
        ) + last));
    }
}

proof fn lemma_written_on_one(line: Seq<text::SpanView>)
    ensures
        written_on(seq![line]) == written(text::line_text(line)),
{
    let one = seq![line];
    assert(one.drop_last() == Seq::<Seq<text::SpanView>>::empty());
    assert(written_on(one.drop_last()) == Seq::<char>::empty());
    let w = written(text::line_text(line));
    assert(Seq::<char>::empty() + w == w);
}

/// Lines say what their spans say, put together.
proof fn lemma_written_on_flat(lines: Seq<Seq<text::SpanView>>)
    ensures
        written_on(lines) == written(text::line_text(lines.flatten())),
    decreases lines.len(),
{
    if lines.len() == 0 {
        assert(lines.flatten() == Seq::<text::SpanView>::empty());
    } else {
        let init = lines.drop_last();
        lemma_written_on_flat(init);
        assert(init.push(lines.last()) == lines);
        init.lemma_flatten_push(lines.last());
        reflow::lemma_line_text_concat(init.flatten(), lines.last());
        lemma_written_concat(text::line_text(init.flatten()), text::line_text(lines.last()));
    }
}

/// Spaces between words say nothing.
proof fn lemma_inked_says_the_same(spans: Seq<text::SpanView>)
    ensures
        written(text::line_text(reflow::inked(spans))) == written(text::line_text(spans)),
    decreases spans.len(),
{
    if spans.len() > 0 {
        let init = spans.drop_last();
        let last = spans.last();
        lemma_inked_says_the_same(init);
        lemma_written_concat(text::line_text(init), last.content);
        if reflow::is_space(last) {
            lemma_space_says_nothing(1);
            assert(chars::repeated(' ', 1) == seq![' ']);
            let w = written(text::line_text(init));
            assert(w + Seq::<char>::empty() == w);
        } else {
            let ink = reflow::inked(init);
            assert(ink.push(last).drop_last() == ink);
            lemma_written_concat(text::line_text(ink), last.content);
        }
    }
}

/// Blank text has no markers, and says nothing.
proof fn lemma_blank_says_nothing(s: Seq<char>, base_style: Style, options: RenderOptions)
    requires
        chars::trimmed(s).len() == 0,
    ensures
        written(inline_text_of(s, base_style, options)) == Seq::<char>::empty(),
{
    let t = chars::trimmed_start(s);
    chars::lemma_trimmed_start(s);
    chars::lemma_trimmed_end(t);
    assert(t.len() == 0) by {
        if t.len() > 0 {
            assert(chars::is_white_space(t[0]));
        }
    }
    assert forall|j: int| 0 <= j < s.len() implies chars::is_white_space(#[trigger] s[j]) by {}
    let link = link_style(options.palette);
    if s.len() > 0 {
        markup::lemma_next_marker(s);
        let n = markup::next_marker(s) as int;
        if n < s.len() {
            let rest = s.skip(n);
            assert(rest[0] == s[n]);
            assert(chars::is_white_space(s[n]));
            assert(!markup::is_marker(rest));
        }
        inline_text::law_plain_text(s, base_style, link, options);
        let span = text::SpanView { content: s, style: base_style };
        let one = seq![span];
        assert(one.drop_last() == Seq::<text::SpanView>::empty());
        assert(text::line_text(one.drop_last()) == Seq::<char>::empty());
        assert(text::line_text(one) == s) by {
            assert(Seq::<char>::empty() + s == s);
        }
    } else {
        assert(inline_text_of(s, base_style, options) == s);
    }
    wrapping::lemma_visible_space(inline_text_of(s, base_style, options));
}

/// A line of text with inline markup says the same at every width.
pub proof fn law_paragraphs_say_the_same(
    s: Seq<char>,
    width: nat,
    base_style: Style,
    options: RenderOptions,
)
    ensures
        written_on(
            layout::link_lines(s, width, base_style, link_style(options.palette), options),
        ) == written(inline_text_of(s, base_style, options)),
{
    let link = link_style(options.palette);
    let lines = layout::link_lines(s, width, base_style, link, options);
    if chars::trimmed(s).len() == 0 {
        lemma_blank_says_nothing(s, base_style, options);
        lemma_written_on_one(seq![]);
    } else {
        let spans = markup::inline_spans(s, base_style, link, options);
        let words = layout::all_words(spans);
        reflow::law_link_lines_keep_words(s, width, base_style, link, options);
        lemma_written_on_flat(lines);
        lemma_inked_says_the_same(lines.flatten());
        lemma_inked_says_the_same(words);
        reflow::law_all_words_keep_text(spans);
    }
}

/// A list item says its bullet and its text at every width.
pub proof fn law_list_items_say_the_same(
    bullet: Seq<char>,
    item: Seq<char>,
    width: nat,
    bullet_style: Style,
    base_style: Style,
    options: RenderOptions,
)
    ensures
        written_on(
            layout::list_lines(bullet, item, width, bullet_style, base_style, options),
        ) == written(bullet) + written(inline_text_of(item, base_style, options)),
{
    let prefix = bullet.push(' ');
    let prefix_width = crate::width::str_width(prefix) as nat;
    let left = layout::columns_left(width, prefix_width);
    let link = link_style(options.palette);
    let lines = layout::link_lines(item, left, base_style, link, options);
    law_paragraphs_say_the_same(item, left, base_style, options);
    reflow::law_link_lines_have_a_line(item, left, base_style, link, options);
    lemma_hanging_says(lines, prefix, prefix_width, bullet_style);
    lemma_written_concat(bullet, seq![' ']);
    lemma_space_says_nothing(1);
    assert(chars::repeated(' ', 1) == seq![' ']);
    assert(prefix == bullet + seq![' ']);
    assert(written(bullet) + Seq::<char>::empty() == written(bullet));
}

proof fn lemma_hanging_says(
    lines: Seq<Seq<text::SpanView>>,
    bullet: Seq<char>,
    bullet_width: nat,
    bullet_style: Style,
)
    requires
        lines.len() > 0,
    ensures
        written_on(layout::hanging(lines, bullet, bullet_width, bullet_style)) == written(bullet)
            + written_on(lines),
    decreases lines.len(),
{
    let hung = layout::hanging(lines, bullet, bullet_width, bullet_style);
    let init = lines.drop_last();
    let first = if lines.len() == 1 {
        text::SpanView { content: bullet, style: bullet_style }
    } else {
        text::raw_span(chars::repeated(' ', bullet_width))
    };
    let one = seq![first];
    assert(hung.last() == one + lines.last());
    reflow::lemma_line_text_concat(one, lines.last());
    assert(text::line_text(one) == first.content) by {
        assert(one.drop_last() == Seq::<text::SpanView>::empty());
        assert(text::line_text(one.drop_last()) == Seq::<char>::empty());
        assert(Seq::<char>::empty() + first.content == first.content);
    }
    lemma_written_concat(first.content, text::line_text(lines.last()));
    let last = written(text::line_text(lines.last()));
    if lines.len() == 1 {
        assert(written_on(hung.drop_last()) == Seq::<char>::empty());
        assert(written_on(init) == Seq::<char>::empty());
        assert(Seq::<char>::empty() + (written(bullet) + last) == written(bullet) + (Seq::<
            char,
        >::empty() + last));
    } else {
        lemma_hanging_says(init, bullet, bullet_width, bullet_style);
        assert(hung.drop_last() == layout::hanging(init, bullet, bullet_width, bullet_style));
        lemma_space_says_nothing(bullet_width);
        assert(Seq::<char>::empty() + last == last);
        assert(written(bullet) + written_on(init) + last == written(bullet) + (written_on(init)
            + last));
    }
}

proof fn lemma_indented_says(lines: Seq<Seq<char>>, indent: nat, style: Style, is_code: bool)
    ensures
        written_on(text::untagged(layout::indented(lines, indent, style, is_code))) == written(
            lines.flatten(),
        ),
    decreases lines.len(),
{
    let out = text::untagged(layout::indented(lines, indent, style, is_code));
    if lines.len() == 0 {
        assert(lines.flatten() == Seq::<char>::empty());
        assert(out == Seq::<Seq<text::SpanView>>::empty());
    } else {
        let init = lines.drop_last();
        lemma_indented_says(init, indent, style, is_code);
        assert(out.drop_last() == text::untagged(
            layout::indented(init, indent, style, is_code),
        ));
        assert(init.push(lines.last()) == lines);
        init.lemma_flatten_push(lines.last());
        lemma_written_concat(init.flatten(), lines.last());
        let space = text::raw_span(chars::repeated(' ', indent));
        let body = text::SpanView { content: lines.last(), style };
        let line = seq![space, body];
        assert(out.last() == line);
        let none = Seq::<text::SpanView>::empty();
        assert(line.drop_last() == none.push(space));
        assert(none.push(space).drop_last() == none);
        assert(text::line_text(none) == Seq::<char>::empty());
        assert(Seq::<char>::empty() + space.content == space.content);
        lemma_written_concat(space.content, body.content);
        lemma_space_says_nothing(indent);
        assert(text::line_text(line.drop_last()) == space.content);
        assert(text::line_text(line) == space.content + body.content);
        assert(Seq::<char>::empty() + written(body.content) == written(body.content));
        assert(written(text::line_text(out.last())) == written(lines.last()));
    }
}

/// Wrapped prose says what the text says.
proof fn lemma_text_lines_say(s: Seq<char>, width: nat)
    ensures
        written(wrap::text_lines(s, width).flatten()) == written(s),
{
    let lines = wrap::text_lines(s, width);
    lemma_visible_lines(lines);
    wrapping::law_wrap_text_keeps_words(s, width);
    wrapping::law_words_are_what_is_visible(s);
}

proof fn lemma_visible_lines(lines: Seq<Seq<char>>)
    ensures
        chars::visible(lines.flatten()) == wrapping::words_of_lines(lines).flatten(),
    decreases lines.len(),
{
    let each = Seq::new(lines.len(), |i: int| chars::words_of(lines[i]));
    if lines.len() == 0 {
        assert(lines.flatten() == Seq::<char>::empty());
        assert(each == Seq::<Seq<Seq<char>>>::empty());
        assert(each.flatten() == Seq::<Seq<char>>::empty());
    } else {
        let init = lines.drop_last();
        let each_init = Seq::new(init.len(), |i: int| chars::words_of(init[i]));
        lemma_visible_lines(init);
        assert(init.push(lines.last()) == lines);
        init.lemma_flatten_push(lines.last());
        wrapping::law_visible_concat(init.flatten(), lines.last());
        wrapping::law_words_are_what_is_visible(lines.last());
        assert(each == each_init.push(chars::words_of(lines.last())));
        each_init.lemma_flatten_push(chars::words_of(lines.last()));
        lemma_flatten_words(each_init.flatten(), chars::words_of(lines.last()));
    }
}

proof fn lemma_flatten_words(a: Seq<Seq<char>>, b: Seq<Seq<char>>)
    ensures
        (a + b).flatten() == a.flatten() + b.flatten(),
    decreases b.len(),
{
    if b.len() == 0 {
        assert(a + b == a);
        assert(b.flatten() == Seq::<char>::empty());
        assert(a.flatten() + Seq::<char>::empty() == a.flatten());
    } else {
        let init = b.drop_last();
        lemma_flatten_words(a, init);
        assert((a + init).push(b.last()) == a + b);
        (a + init).lemma_flatten_push(b.last());
        assert(init.push(b.last()) == b);
        init.lemma_flatten_push(b.last());
        assert(a.flatten() + init.flatten() + b.last() == a.flatten() + (init.flatten()
            + b.last()));
    }
}

/// A block that does not belong to a table says the same at every width.
pub proof fn law_blocks_say_the_same(
    b: block::BlockView,
    width: nat,
    base_style: Style,
    options: RenderOptions,
)
    requires
        !table::is_table_block(b),
    ensures
        written_on(text::untagged(render::block_lines(b, width, base_style, options))) == says(
            b,
            base_style,
            options,
        ),
{
    match b {
        block::BlockView::Heading { level, text } => {
            let lines = wrap::text_lines(text, layout::columns_left(width, 0));
            lemma_indented_says(lines, 0, heading_style(options.palette), false);
            lemma_text_lines_say(text, layout::columns_left(width, 0));
        },
        block::BlockView::ListItem { bullet, text } => {
            let style = crate::style::bullet_style(options.palette);
            law_list_items_say_the_same(bullet, text, width, style, base_style, options);
            lemma_untagged(
                layout::list_lines(bullet, text, width, style, base_style, options),
            );
        },
        block::BlockView::Code { line } => {
            let left = layout::columns_left(width, layout::CODE_INDENT as nat);
            let lines = wrap::code_lines(wrap::measured_chars(line), left);
            lemma_indented_says(
                lines,
                layout::CODE_INDENT as nat,
                code_block_style(options.palette),
                true,
            );
            wrapping::law_wrap_code_line_keeps_text(line, left);
        },
        block::BlockView::Paragraph { text } => {
            law_paragraphs_say_the_same(text, width, base_style, options);
            lemma_untagged(
                layout::link_lines(text, width, base_style, link_style(options.palette), options),
            );
        },
        block::BlockView::Blank => {
            lemma_untagged(seq![seq![]]);
            lemma_written_on_one(seq![]);
        },
        block::BlockView::HeadingRule => {
            lemma_rule_line_says_nothing(width, render::HEADING_RULE_WIDTH as nat, options);
        },
        block::BlockView::HorizontalRule => {
            lemma_rule_line_says_nothing(width, render::RULE_WIDTH as nat, options);
        },
        _ => {},
    }
}

proof fn lemma_untagged(lines: Seq<Seq<text::SpanView>>)
    ensures
        text::untagged(text::tagged(lines, false)) == lines,
{
}

proof fn lemma_rule_line_says_nothing(width: nat, longest: nat, options: RenderOptions)
    ensures
        written_on(
            text::untagged(
                text::tagged(seq![render::rule_line(width, longest, options)], false),
            ),
        ) == Seq::<char>::empty(),
{
    let line = render::rule_line(width, longest, options);
    lemma_untagged(seq![line]);
    lemma_written_on_one(line);
    let n = if width < longest {
        width
    } else {
        longest
    };
    lemma_rule_says_nothing(n);
    assert(line.drop_last() == Seq::<text::SpanView>::empty());
    assert(text::line_text(line.drop_last()) == Seq::<char>::empty());
    let content = chars::repeated('\u{2500}', n);
    assert(Seq::<char>::empty() + content == content);
}

// ---------------------------------------------------------------------------
// Tables

proof fn lemma_same_concat(
    a: Seq<char>,
    b: Seq<char>,
    c: Seq<char>,
    d: Seq<char>,
    in_order: bool,
)
    requires
        say_the_same(a, b, in_order),
        say_the_same(c, d, in_order),
    ensures
        say_the_same(a + c, b + d, in_order),
{
    vstd::seq_lib::lemma_multiset_commutative(a, c);
    vstd::seq_lib::lemma_multiset_commutative(b, d);
}

proof fn lemma_no_prefix(prefix: Seq<char>, s: Seq<char>)
    requires
        prefix.len() > 0,
        s.len() > 0,
        prefix[0] != s[0],
    ensures
        !prefix.is_prefix_of(s),
{
    if prefix.is_prefix_of(s) {
        assert(s.subrange(0, prefix.len() as int)[0] == s[0]);
    }
}

/// Text without markup is shown as it stands.
pub proof fn law_unmarked_text_is_shown(
    s: Seq<char>,
    base_style: Style,
    link_style: Style,
    options: RenderOptions,
)
    requires
        is_unmarked(s, options),
    ensures
        text::line_text(markup::inline_spans(s, base_style, link_style, options)) == s,
    decreases s.len(),
{
    if s.len() > 0 {
        let token = markup::first_token(s, base_style, link_style, options);
        markup::lemma_first_token_used(s, base_style, link_style, options);
        let n = token.used as int;
        assert(s[0] != '*' && s[0] != '_' && s[0] != '`' && s[0] != '[' && s[0] != '~');
        lemma_no_prefix(seq!['*', '*'], s);
        lemma_no_prefix(seq!['_', '_'], s);
        lemma_no_prefix(seq!['*'], s);
        lemma_no_prefix(seq!['_'], s);
        lemma_no_prefix(seq!['`'], s);
        lemma_no_prefix(seq!['~', '~'], s);
        assert(markup::link_of(s) is None);
        if markup::is_url_start(s) && options.osc8 {
            let plain = seq!['h', 't', 't', 'p', ':', '/', '/'];
            if plain.is_prefix_of(s) {
                assert(s.subrange(0, 7)[4] == ':');
            } else {
                assert(s.subrange(0, 8)[5] == ':');
            }
            assert(s[4] == ':' || s[5] == ':');
        }
        assert(token.text == s.take(n));
        let rest = s.skip(n);
        assert forall|c: char| #[trigger] alphabet::lacks(s, c) implies alphabet::lacks(
            rest,
            c,
        ) by {
            assert forall|j: int| 0 <= j < rest.len() implies #[trigger] rest[j] != c by {
                assert(rest[j] == s[j + n]);
            }
        }
        law_unmarked_text_is_shown(rest, base_style, link_style, options);
        let head = seq![text::SpanView { content: token.text, style: token.style }];
        let tail = markup::inline_spans(rest, base_style, link_style, options);
        reflow::lemma_line_text_concat(head, tail);
        let none = Seq::<text::SpanView>::empty();
        assert(head.drop_last() == none);
        assert(text::line_text(none) == Seq::<char>::empty());
        assert(Seq::<char>::empty() + token.text == token.text);
        assert(s.take(n) + s.skip(n) == s);
    } else {
        assert(text::line_text(markup::inline_spans(s, base_style, link_style, options)) == s);
    }
}

/// The lines of a cell without markup have none.
proof fn lemma_lines_are_unmarked(cell: Seq<char>, col_width: nat, options: RenderOptions, i: int)
    requires
        is_unmarked(cell, options),
        0 <= i < wrap::cell_lines(cell, col_width).len(),
    ensures
        is_unmarked(wrap::cell_lines(cell, col_width)[i], options),
{
    alphabet::lemma_cell_lines_lack(cell, col_width, '*');
    alphabet::lemma_cell_lines_lack(cell, col_width, '_');
    alphabet::lemma_cell_lines_lack(cell, col_width, '`');
    alphabet::lemma_cell_lines_lack(cell, col_width, '[');
    alphabet::lemma_cell_lines_lack(cell, col_width, '~');
    if options.osc8 {
        alphabet::lemma_cell_lines_lack(cell, col_width, ':');
    }
}

/// What the first `k` cells say on one visual line of their row.
spec fn said_on_row(wrapped: Seq<Seq<Seq<char>>>, row: int, k: nat) -> Seq<char>
    decreases k,
{
    if k == 0 {
        seq![]
    } else {
        said_on_row(wrapped, row, (k - 1) as nat) + written(
            table::segment_at(wrapped[k - 1], row),
        )
    }
}

/// What the first `k` cells say on the first `h` visual lines of their row.
spec fn said_on_rows(wrapped: Seq<Seq<Seq<char>>>, h: nat, k: nat) -> Seq<char>
    decreases h,
{
    if h == 0 {
        seq![]
    } else {
        said_on_rows(wrapped, (h - 1) as nat, k) + said_on_row(wrapped, h - 1, k)
    }
}

/// What a cell says on the first `h` visual lines of its row.
pub open spec fn said_in_column(segments: Seq<Seq<char>>, h: nat) -> Seq<char>
    decreases h,
{
    if h == 0 {
        seq![]
    } else {
        said_in_column(segments, (h - 1) as nat) + written(table::segment_at(segments, h - 1))
    }
}

/// Whether no line of any cell holds any markup.
spec fn lines_are_unmarked(wrapped: Seq<Seq<Seq<char>>>, options: RenderOptions) -> bool {
    forall|j: int, i: int|
        0 <= j < wrapped.len() && 0 <= i < wrapped[j].len() ==> is_unmarked(
            #[trigger] wrapped[j][i],
            options,
        )
}

/// One visual line of a row says what the cells say there.
proof fn lemma_row_line_says(
    wrapped: Seq<Seq<Seq<char>>>,
    row: int,
    k: nat,
    col_width: nat,
    base_style: Style,
    options: RenderOptions,
)
    requires
        k <= wrapped.len(),
        lines_are_unmarked(wrapped, options),
    ensures
        written(
            text::line_text(table::row_spans(wrapped, row, k, col_width, base_style, options)),
        ) == said_on_row(wrapped, row, k),
    decreases k,
{
    let all = table::row_spans(wrapped, row, k, col_width, base_style, options);
    if k == 0 {
        let none = Seq::<text::SpanView>::empty();
        let bar = seq!['\u{2502}', ' '];
        assert(all.drop_last() == none);
        assert(text::line_text(none) == Seq::<char>::empty());
        assert(Seq::<char>::empty() + bar == bar);
        lemma_says_nothing(bar);
    } else {
        lemma_row_line_says(wrapped, row, (k - 1) as nat, col_width, base_style, options);
        let before = table::row_spans(
            wrapped,
            row,
            (k - 1) as nat,
            col_width,
            base_style,
            options,
        );
        let link = link_style(options.palette);
        let segment = table::segment_at(wrapped[k - 1], row);
        assert(is_unmarked(segment, options)) by {
            if 0 <= row < wrapped[k - 1].len() {
                assert(is_unmarked(wrapped[k - 1][row], options));
            }
        }
        let spans = markup::inline_spans(segment, base_style, link, options);
        law_unmarked_text_is_shown(segment, base_style, link, options);
        let padded = table::padded(layout::measured_spans(spans), col_width);
        let pad = padded.last().content;
        assert(padded.drop_last() == spans);
        lemma_written_concat(segment, pad);
        lemma_says_nothing(pad);
        assert(written(segment) + Seq::<char>::empty() == written(segment));
        reflow::lemma_line_text_concat(before, padded);
        lemma_written_concat(text::line_text(before), text::line_text(padded));
        let bar = all.last().content;
        assert(all.drop_last() == before + padded);
        lemma_written_concat(text::line_text(before + padded), bar);
        lemma_says_nothing(bar);
        let said = said_on_row(wrapped, row, k);
        assert(said + Seq::<char>::empty() == said);
    }
}

/// The visual lines of a row say what the cells say on them.
proof fn lemma_row_lines_say(
    wrapped: Seq<Seq<Seq<char>>>,
    h: nat,
    col_width: nat,
    base_style: Style,
    options: RenderOptions,
)
    requires
        h <= table::row_height(wrapped, wrapped.len()),
        lines_are_unmarked(wrapped, options),
    ensures
        written_on(
            table::wrapped_row_lines(wrapped, col_width, base_style, options).take(h as int),
        ) == said_on_rows(wrapped, h, wrapped.len()),
    decreases h,
{
    let lines = table::wrapped_row_lines(wrapped, col_width, base_style, options);
    let part = lines.take(h as int);
    if h > 0 {
        lemma_row_lines_say(wrapped, (h - 1) as nat, col_width, base_style, options);
        assert(part.drop_last() == lines.take(h - 1));
        assert(part.last() == lines[h - 1]);
        lemma_row_line_says(
            wrapped,
            h - 1,
            wrapped.len(),
            col_width,
            base_style,
            options,
        );
    }
}

/// On `h` visual lines, one cell more adds what it says there.
proof fn lemma_one_column_more(wrapped: Seq<Seq<Seq<char>>>, h: nat, k: nat)
    requires
        0 < k <= wrapped.len(),
    ensures
        say_the_same(
            said_on_rows(wrapped, h, k),
            said_on_rows(wrapped, h, (k - 1) as nat) + said_in_column(wrapped[k - 1], h),
            false,
        ),
    decreases h,
{
    if h == 0 {
        assert(Seq::<char>::empty() + Seq::<char>::empty() == Seq::<char>::empty());
    } else {
        lemma_one_column_more(wrapped, (h - 1) as nat, k);
        let a = said_on_rows(wrapped, (h - 1) as nat, k);
        let b = said_on_rows(wrapped, (h - 1) as nat, (k - 1) as nat);
        let c = said_in_column(wrapped[k - 1], (h - 1) as nat);
        let d = said_on_row(wrapped, h - 1, (k - 1) as nat);
        let e = written(table::segment_at(wrapped[k - 1], h - 1));
        vstd::seq_lib::lemma_multiset_commutative(a, d + e);
        vstd::seq_lib::lemma_multiset_commutative(d, e);
        vstd::seq_lib::lemma_multiset_commutative(b, c);
        vstd::seq_lib::lemma_multiset_commutative(b + d, c + e);
        vstd::seq_lib::lemma_multiset_commutative(b, d);
        vstd::seq_lib::lemma_multiset_commutative(c, e);
        assert((a + (d + e)).to_multiset() =~= ((b + d) + (c + e)).to_multiset());
    }
}

/// A cell says on its visual lines what its lines say.
proof fn lemma_column_says(segments: Seq<Seq<char>>, h: nat)
    ensures
        h <= segments.len() ==> said_in_column(segments, h) == written(
            segments.take(h as int).flatten(),
        ),
        h >= segments.len() ==> said_in_column(segments, h) == written(segments.flatten()),
    decreases h,
{
    assert(segments.take(segments.len() as int) == segments);
    if h == 0 {
        assert(segments.take(0).flatten() == Seq::<char>::empty());
        lemma_says_nothing(Seq::<char>::empty());
    } else {
        lemma_column_says(segments, (h - 1) as nat);
        if h <= segments.len() {
            let init = segments.take(h - 1);
            let last = segments[h - 1];
            assert(segments.take(h as int) == init.push(last));
            init.lemma_flatten_push(last);
            lemma_written_concat(init.flatten(), last);
        } else {
            lemma_says_nothing(Seq::<char>::empty());
            let said = said_in_column(segments, (h - 1) as nat);
            assert(said + Seq::<char>::empty() == said);
        }
    }
}

/// A cell says all of its text on the visual lines of its row, in order, however
/// it is wrapped.
pub proof fn law_cells_are_said_in_full(
    cells: Seq<Seq<char>>,
    width: nat,
    j: int,
)
    requires
        0 <= j < cells.len(),
    ensures
        ({
            let wrapped = table::wrapped_cells(cells, table::column_width(cells.len(), width));
            said_in_column(wrapped[j], table::row_height(wrapped, wrapped.len())) == written(
                cells[j],
            )
        }),
{
    let col_width = table::column_width(cells.len(), width);
    let wrapped = table::wrapped_cells(cells, col_width);
    let h = table::row_height(wrapped, wrapped.len());
    tables::law_row_shows_every_line(wrapped, j);
    lemma_column_says(wrapped[j], h);
    wrapping::law_cell_text_is_kept(cells[j], col_width);
}

/// The first `k` cells of a row say on its visual lines what they say, though not
/// in the same order.
proof fn lemma_cells_say(cells: Seq<Seq<char>>, width: nat, k: nat)
    requires
        k <= cells.len(),
    ensures
        ({
            let wrapped = table::wrapped_cells(cells, table::column_width(cells.len(), width));
            say_the_same(
                said_on_rows(wrapped, table::row_height(wrapped, wrapped.len()), k),
                said_by_cells(cells.take(k as int)),
                false,
            )
        }),
    decreases k,
{
    let wrapped = table::wrapped_cells(cells, table::column_width(cells.len(), width));
    let h = table::row_height(wrapped, wrapped.len());
    if k == 0 {
        lemma_no_cells_say_nothing(wrapped, h);
    } else {
        lemma_cells_say(cells, width, (k - 1) as nat);
        lemma_one_column_more(wrapped, h, k);
        law_cells_are_said_in_full(cells, width, k - 1);
        let part = cells.take(k as int);
        assert(part.drop_last() == cells.take(k - 1));
        lemma_same_concat(
            said_on_rows(wrapped, h, (k - 1) as nat),
            said_by_cells(cells.take(k - 1)),
            said_in_column(wrapped[k - 1], h),
            written(cells[k - 1]),
            false,
        );
    }
}

proof fn lemma_no_cells_say_nothing(wrapped: Seq<Seq<Seq<char>>>, h: nat)
    ensures
        said_on_rows(wrapped, h, 0) == Seq::<char>::empty(),
    decreases h,
{
    if h > 0 {
        lemma_no_cells_say_nothing(wrapped, (h - 1) as nat);
        assert(Seq::<char>::empty() + Seq::<char>::empty() == Seq::<char>::empty());
    }
}

/// The first `k` cells of a row that takes one line say there what they say.
proof fn lemma_single_row_says(cells: Seq<Seq<char>>, width: nat, k: nat)
    requires
        k <= cells.len(),
        is_single_row(cells, width),
    ensures
        ({
            let wrapped = table::wrapped_cells(cells, table::column_width(cells.len(), width));
            said_on_row(wrapped, 0, k) == said_by_cells(cells.take(k as int))
        }),
    decreases k,
{
    if k > 0 {
        lemma_single_row_says(cells, width, (k - 1) as nat);
        let col_width = table::column_width(cells.len(), width);
        let wrapped = table::wrapped_cells(cells, col_width);
        let part = cells.take(k as int);
        assert(part.drop_last() == cells.take(k - 1));
        let cell = cells[k - 1];
        assert(wrap::cell_lines(cell, col_width).len() == 1);
        let one = wrapped[k - 1];
        assert(one == seq![one[0]]);
        seq![one[0]].lemma_flatten_one_element();
        wrapping::law_cell_text_is_kept(cell, col_width);
    }
}

proof fn lemma_single_height(wrapped: Seq<Seq<Seq<char>>>, k: nat)
    requires
        k <= wrapped.len(),
        forall|j: int| 0 <= j < wrapped.len() ==> (#[trigger] wrapped[j]).len() == 1,
    ensures
        table::row_height(wrapped, k) == 1,
    decreases k,
{
    if k > 0 {
        lemma_single_height(wrapped, (k - 1) as nat);
        assert(wrapped[k - 1].len() == 1);
    }
}

/// A table row without markup says what its cells say, and in the same order if it
/// takes one line.
pub proof fn law_rows_say_what_their_cells_say(
    cells: Seq<Seq<char>>,
    width: nat,
    base_style: Style,
    options: RenderOptions,
    in_order: bool,
)
    requires
        cells_are_unmarked(cells, options),
        in_order ==> is_single_row(cells, width),
    ensures
        say_the_same(
            written_on(table::row_lines(cells, width, base_style, options)),
            said_by_cells(cells),
            in_order,
        ),
{
    let lines = table::row_lines(cells, width, base_style, options);
    if cells.len() == 0 {
        lemma_written_on_one(seq![]);
        lemma_says_nothing(Seq::<char>::empty());
    } else {
        let col_width = table::column_width(cells.len(), width);
        let wrapped = table::wrapped_cells(cells, col_width);
        let h = table::row_height(wrapped, wrapped.len());
        assert forall|j: int, i: int|
            0 <= j < wrapped.len() && 0 <= i < wrapped[j].len() implies is_unmarked(
            #[trigger] wrapped[j][i],
            options,
        ) by {
            assert(is_unmarked(cells[j], options));
            lemma_lines_are_unmarked(cells[j], col_width, options, i);
        }
        lemma_row_lines_say(wrapped, h, col_width, base_style, options);
        assert(lines.take(h as int) == lines);
        assert(cells.take(cells.len() as int) == cells);
        if in_order {
            assert forall|j: int| 0 <= j < wrapped.len() implies (#[trigger] wrapped[j]).len()
                == 1 by {
                assert(wrap::cell_lines(cells[j], col_width).len() == 1);
            }
            lemma_single_height(wrapped, wrapped.len());
            lemma_single_row_says(cells, width, cells.len());
            let said = said_on_row(wrapped, 0, wrapped.len());
            assert(said_on_rows(wrapped, 0, wrapped.len()) == Seq::<char>::empty());
            assert(said_on_rows(wrapped, 1, wrapped.len()) == said) by {
                assert(Seq::<char>::empty() + said == said);
            }
        } else {
            lemma_cells_say(cells, width, cells.len());
        }
    }
}

proof fn lemma_borders_say_nothing(num_cols: nat, col_width: nat, style: Style)
    ensures
        written(text::line_text(table::top_border(num_cols, col_width, style))) == Seq::<
            char,
        >::empty(),
        written(text::line_text(table::mid_border(num_cols, col_width, style))) == Seq::<
            char,
        >::empty(),
        written(text::line_text(table::bottom_border(num_cols, col_width, style))) == Seq::<
            char,
        >::empty(),
{
    let top = table::top_border(num_cols, col_width, style);
    let mid = table::mid_border(num_cols, col_width, style);
    let bottom = table::bottom_border(num_cols, col_width, style);
    assert forall|c: char| !#[trigger] alphabet::is_box_drawing(c) implies alphabet::spans_lack(
        top,
        c,
    ) && alphabet::spans_lack(mid, c) && alphabet::spans_lack(bottom, c) by {
        alphabet::lemma_borders_lack(num_cols, col_width, style, c);
    }
    lemma_border_says_nothing(top);
    lemma_border_says_nothing(mid);
    lemma_border_says_nothing(bottom);
}

proof fn lemma_border_says_nothing(border: Seq<text::SpanView>)
    requires
        border.len() == 1,
        forall|c: char|
            !#[trigger] alphabet::is_box_drawing(c) ==> alphabet::spans_lack(border, c),
    ensures
        written(text::line_text(border)) == Seq::<char>::empty(),
{
    let content = border[0].content;
    assert(border.drop_last() == Seq::<text::SpanView>::empty());
    assert(text::line_text(border.drop_last()) == Seq::<char>::empty());
    assert(Seq::<char>::empty() + content == content);
    assert forall|j: int| 0 <= j < content.len() implies chars::is_white_space(
        #[trigger] content[j],
    ) || alphabet::is_box_drawing(content[j]) by {
        if !alphabet::is_box_drawing(content[j]) {
            assert(alphabet::lacks(border[0].content, content[j]));
        }
    }
    lemma_says_nothing(content);
}

/// What blocks say does not depend on where they are cut.
proof fn lemma_said_concat(
    a: Seq<block::BlockView>,
    b: Seq<block::BlockView>,
    base_style: Style,
    options: RenderOptions,
)
    ensures
        said(a + b, base_style, options) == said(a, base_style, options) + said(
            b,
            base_style,
            options,
        ),
    decreases a.len(),
{
    let tail = said(b, base_style, options);
    if a.len() == 0 {
        assert(a + b == b);
        assert(Seq::<char>::empty() + tail == tail);
    } else {
        assert((a + b)[0] == a[0]);
        assert((a + b).skip(1) == a.skip(1) + b);
        lemma_said_concat(a.skip(1), b, base_style, options);
        let head = says(a[0], base_style, options);
        let mid = said(a.skip(1), base_style, options);
        assert(head + (mid + tail) == head + mid + tail);
    }
}

proof fn lemma_table_head_says(
    blocks: Seq<block::BlockView>,
    k: nat,
    width: nat,
    base_style: Style,
    options: RenderOptions,
    in_order: bool,
)
    requires
        k <= blocks.len(),
        forall|i: int| 0 <= i < blocks.len() ==> table::is_table_block(#[trigger] blocks[i]),
        tables_are_unmarked(blocks, options),
        in_order ==> rows_are_single(blocks, width),
    ensures
        say_the_same(
            written_on(table::table_head(blocks, k, width, base_style, options)),
            said(blocks.take(k as int), base_style, options),
            in_order,
        ),
    decreases k,
{
    let num_cols = table::table_columns(blocks);
    let col_width = table::column_width(num_cols, width);
    let style = crate::style::rule_style(options.palette);
    lemma_borders_say_nothing(num_cols, col_width, style);
    if k == 0 {
        lemma_written_on_one(table::top_border(num_cols, col_width, style));
    } else {
        lemma_table_head_says(blocks, (k - 1) as nat, width, base_style, options, in_order);
        let before = table::table_head(blocks, (k - 1) as nat, width, base_style, options);
        let part = table::table_part(blocks, k - 1, width, base_style, options);
        let b = blocks[k - 1];
        let mid = table::mid_border(num_cols, col_width, style);
        lemma_written_on_concat(before, part);
        lemma_written_on_one(mid);
        assert(table::is_table_block(b));
        let one = seq![b];
        assert(blocks.take(k as int) == blocks.take(k - 1) + one);
        lemma_said_concat(blocks.take(k - 1), one, base_style, options);
        let says_b = says(b, base_style, options);
        assert(one.skip(1) == Seq::<block::BlockView>::empty());
        assert(said(one.skip(1), base_style, options) == Seq::<char>::empty());
        assert(said(one, base_style, options) == says_b) by {
            assert(says_b + Seq::<char>::empty() == says_b);
        }
        if let block::BlockView::TableRow(cells) = b {
            let rows = table::row_lines(cells, width, base_style, options);
            law_rows_say_what_their_cells_say(cells, width, base_style, options, in_order);
            lemma_written_on_concat(rows, seq![mid]);
            assert(rows + seq![mid] == rows.push(mid));
            assert(written_on(rows) + Seq::<char>::empty() == written_on(rows));
        }
        lemma_same_concat(
            written_on(before),
            said(blocks.take(k - 1), base_style, options),
            written_on(part),
            says_b,
            in_order,
        );
    }
}

proof fn lemma_table_says(
    blocks: Seq<block::BlockView>,
    width: nat,
    base_style: Style,
    options: RenderOptions,
    in_order: bool,
)
    requires
        forall|i: int| 0 <= i < blocks.len() ==> table::is_table_block(#[trigger] blocks[i]),
        tables_are_unmarked(blocks, options),
        in_order ==> rows_are_single(blocks, width),
    ensures
        say_the_same(
            written_on(table::table_lines(blocks, width, base_style, options)),
            said(blocks, base_style, options),
            in_order,
        ),
{
    let num_cols = table::table_columns(blocks);
    let col_width = table::column_width(num_cols, width);
    let style = crate::style::rule_style(options.palette);
    lemma_borders_say_nothing(num_cols, col_width, style);
    lemma_table_head_says(blocks, blocks.len(), width, base_style, options, in_order);
    assert(blocks.take(blocks.len() as int) == blocks);
    let head = table::table_head(blocks, blocks.len(), width, base_style, options);
    let bottom = table::bottom_border(num_cols, col_width, style);
    lemma_written_on_one(bottom);
    lemma_written_on_concat(head, seq![bottom]);
    assert(head + seq![bottom] == head.push(bottom));
    assert(written_on(head) + Seq::<char>::empty() == written_on(head));
}

// ---------------------------------------------------------------------------
// Documents

proof fn lemma_blocks_lines_say(
    blocks: Seq<block::BlockView>,
    width: nat,
    base_style: Style,
    options: RenderOptions,
    in_order: bool,
)
    requires
        tables_are_unmarked(blocks, options),
        in_order ==> rows_are_single(blocks, width),
    ensures
        say_the_same(
            written_on(text::untagged(render::blocks_lines(blocks, width, base_style, options))),
            said(blocks, base_style, options),
            in_order,
        ),
    decreases blocks.len(),
{
    let all = render::blocks_lines(blocks, width, base_style, options);
    if blocks.len() == 0 {
        assert(text::untagged(all) == Seq::<Seq<text::SpanView>>::empty());
    } else {
        render::lemma_table_len(blocks);
        let n = render::table_len(blocks) as int;
        let k = if n > 0 {
            n
        } else {
            1
        };
        let group = blocks.take(k);
        let rest = blocks.skip(k);
        assert(group + rest == blocks);
        assert forall|i: int| 0 <= i < group.len() implies #[trigger] group[i] == blocks[i] by {}
        assert forall|i: int| 0 <= i < rest.len() implies #[trigger] rest[i] == blocks[i + k] by {}
        assert(tables_are_unmarked(rest, options));
        assert(in_order ==> rows_are_single(rest, width));
        lemma_blocks_lines_say(rest, width, base_style, options, in_order);
        let tail = render::blocks_lines(rest, width, base_style, options);
        let head = if n > 0 {
            text::tagged(table::table_lines(group, width, base_style, options), false)
        } else {
            render::block_lines(blocks[0], width, base_style, options)
        };
        if n > 0 {
            lemma_table_says(group, width, base_style, options, in_order);
            lemma_untagged(table::table_lines(group, width, base_style, options));
        } else {
            law_blocks_say_the_same(blocks[0], width, base_style, options);
            assert(group.skip(1) == Seq::<block::BlockView>::empty());
            assert(said(group.skip(1), base_style, options) == Seq::<char>::empty());
            let says_it = says(blocks[0], base_style, options);
            assert(says_it + Seq::<char>::empty() == says_it);
        }
        assert(all == head + tail);
        assert(text::untagged(all) == text::untagged(head) + text::untagged(tail));
        lemma_written_on_concat(text::untagged(head), text::untagged(tail));
        lemma_said_concat(group, rest, base_style, options);
        lemma_same_concat(
            written_on(text::untagged(head)),
            said(group, base_style, options),
            written_on(text::untagged(tail)),
            said(rest, base_style, options),
            in_order,
        );
    }
}

/// The columns that a document is rendered for.
pub open spec fn columns_of(width: u16) -> nat {
    if width == 0 {
        1
    } else {
        width as nat
    }
}

/// A document whose tables hold no markup says what its blocks say: no text is
/// lost and none is added, whatever the width. It says it in the same order if
/// every table row takes one line, and so if there is no table.
pub proof fn law_rendering_says_what_the_blocks_say(
    blocks: Seq<block::BlockView>,
    width: u16,
    base_style: Style,
    options: RenderOptions,
)
    requires
        tables_are_unmarked(blocks, options),
    ensures
        ({
            let shown = written_on(
                text::untagged(render::rendered(blocks, width, base_style, options)),
            );
            &&& say_the_same(shown, said(blocks, base_style, options), false)
            &&& rows_are_single(blocks, columns_of(width)) ==> shown == said(
                blocks,
                base_style,
                options,
            )
        }),
{
    let columns = columns_of(width);
    lemma_blocks_lines_say(blocks, columns, base_style, options, false);
    if rows_are_single(blocks, columns) {
        lemma_blocks_lines_say(blocks, columns, base_style, options, true);
    }
    if render::blocks_lines(blocks, columns, base_style, options).len() == 0 {
        assert(text::untagged(render::blocks_lines(blocks, columns, base_style, options))
            == Seq::<Seq<text::SpanView>>::empty());
        lemma_untagged(seq![seq![]]);
        lemma_written_on_one(seq![]);
        lemma_says_nothing(Seq::<char>::empty());
    }
}

/// A change of width is a re-flow: a document whose tables hold no markup says the
/// same at any two widths, and in the same order if every table row takes one line
/// at both, and so if there is no table.
pub proof fn law_width_changes_the_layout_alone(
    blocks: Seq<block::BlockView>,
    width1: u16,
    width2: u16,
    base_style: Style,
    options: RenderOptions,
)
    requires
        tables_are_unmarked(blocks, options),
    ensures
        ({
            let shown1 = written_on(
                text::untagged(render::rendered(blocks, width1, base_style, options)),
            );
            let shown2 = written_on(
                text::untagged(render::rendered(blocks, width2, base_style, options)),
            );
            &&& say_the_same(shown1, shown2, false)
            &&& rows_are_single(blocks, columns_of(width1)) && rows_are_single(
                blocks,
                columns_of(width2),
            ) ==> shown1 == shown2
        }),
{
    law_rendering_says_what_the_blocks_say(blocks, width1, base_style, options);
    law_rendering_says_what_the_blocks_say(blocks, width2, base_style, options);
}

} // verus!
