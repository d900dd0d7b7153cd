//! Lines of styled text: paragraphs with inline markup, list items, and headings
//! and code with their indentation.
use vstd::prelude::*;

use crate::chars;
use crate::chars::{find_char, repeat_char, slice_from, slice_to, to_chars, to_text, trim};
use crate::laws::flow;
use crate::laws::plain;
use crate::laws::wrapping;
use crate::markup;
use crate::markup::parse_inline_spans;
use crate::style::{link_style, RenderOptions, Style};
use crate::text;
use crate::text::{Line, RenderedMarkdownLine, Span};
use crate::width;
use crate::width::measure_str;
use crate::wrap;
use crate::wrap::{wrap_code_line, wrap_text};

verus! {

// ---------------------------------------------------------------------------
// Words

/// The words of a span: every space is a word, and so is every run of other
/// characters.
pub open spec fn span_words(s: Seq<char>, style: Style) -> Seq<text::SpanView>
    decreases s.len(),
{
    let n = chars::first_index(s, ' ') as int;
    proof {
        chars::lemma_first_index(s, ' ');
    }
    if s.len() == 0 {
        seq![]
    } else if s[0] == ' ' {
        seq![text::SpanView { content: seq![' '], style }] + span_words(s.skip(1), style)
    } else {
        seq![text::SpanView { content: s.take(n), style }] + span_words(s.skip(n), style)
    }
}

/// The words of spans, in order.
pub open spec fn all_words(spans: Seq<text::SpanView>) -> Seq<text::SpanView>
    decreases spans.len(),
{
    if spans.len() == 0 {
        seq![]
    } else {
        all_words(spans.drop_last()) + span_words(spans.last().content, spans.last().style)
    }
}

/// Appends the words of a span to `words`.
fn push_span_words(words: &mut Vec<Span>, span: &Span)
    ensures
        chars::views(final(words)@) == chars::views(old(words)@) + span_words(
            span.content@,
            span.style,
        ),
{
    let ghost first = chars::views(words@);
    let content = to_chars(span.content.as_str());
    let mut rest: &[char] = content.as_slice();
    let ghost whole = span_words(span.content@, span.style);
    while rest.len() > 0
        invariant
            whole == span_words(span.content@, span.style),
            chars::views(words@) + span_words(rest@, span.style) == first + whole,
        decreases rest@.len(),
    {
        let mut n: usize = 1;
        if rest[0] != ' ' {
            n = find_char(rest, ' ');
            assert(n > 0);
        }
        let word = slice_to(rest, n);
        let ghost before = chars::views(words@);
        let ghost tail = span_words(rest@.skip(n as int), span.style);
        let ghost head = text::SpanView { content: word@, style: span.style };
        assert(rest@[0] == ' ' ==> word@ == seq![' ']);
        words.push(Span::styled(to_text(word), span.style));
        assert(chars::views(words@) == before + seq![head]);
        assert(before + (seq![head] + tail) == before + seq![head] + tail);
        rest = slice_from(rest, n);
    }
    assert(chars::views(words@) + Seq::<text::SpanView>::empty() == chars::views(words@));
}

/// The words of spans, in order.
pub fn split_spans(spans: &[Span]) -> (r: Vec<Span>)
    ensures
        chars::views(r@) == all_words(chars::views(spans@)),
{
    let ghost all = chars::views(spans@);
    let mut words: Vec<Span> = Vec::new();
    let mut i: usize = 0;
    assert(chars::views(words@) == Seq::<text::SpanView>::empty());
    while i < spans.len()
        invariant
            all == chars::views(spans@),
            i <= spans@.len(),
            chars::views(words@) == all_words(all.take(i as int)),
        decreases spans@.len() - i,
    {
        assert(all.take(i + 1).drop_last() == all.take(i as int));
        push_span_words(&mut words, &spans[i]);
        i = i + 1;
    }
    assert(all.take(i as int) == all);
    words
}

/// A span together with the columns that it takes.
#[derive(Debug)]
pub struct MeasuredSpan {
    pub span: Span,
    pub width: usize,
}

/// What a `MeasuredSpan` stands for.
pub struct MeasuredSpanView {
    pub span: text::SpanView,
    pub width: usize,
}

impl View for MeasuredSpan {
    type V = MeasuredSpanView;

    open spec fn view(&self) -> MeasuredSpanView {
        MeasuredSpanView { span: self.span@, width: self.width }
    }
}

/// Spans, each with its width.
pub open spec fn measured_spans(spans: Seq<text::SpanView>) -> Seq<MeasuredSpanView> {
    Seq::new(
        spans.len(),
        |i: int| MeasuredSpanView { span: spans[i], width: width::str_width(spans[i].content) },
    )
}

/// Spans, each with its width.
pub fn measure_spans(spans: &[Span]) -> (r: Vec<MeasuredSpan>)
    ensures
        chars::views(r@) == measured_spans(chars::views(spans@)),
        forall|i: int|
            0 <= i < spans@.len() && width::is_plain(spans@[i].content@) ==> width::str_width(
                (#[trigger] spans@[i]).content@,
            ) == spans@[i].content@.len(),
{
    let ghost all = measured_spans(chars::views(spans@));
    let mut out: Vec<MeasuredSpan> = Vec::new();
    let mut i: usize = 0;
    while i < spans.len()
        invariant
            all == measured_spans(chars::views(spans@)),
            i <= spans@.len(),
            chars::views(out@) == all.take(i as int),
            forall|k: int|
                0 <= k < i && width::is_plain(spans@[k].content@) ==> width::str_width(
                    (#[trigger] spans@[k]).content@,
                ) == spans@[k].content@.len(),
        decreases spans@.len() - i,
    {
        let span_width = measure_str(spans[i].content.as_str());
        let ghost before = chars::views(out@);
        out.push(MeasuredSpan { span: spans[i].clone(), width: span_width });
        assert(chars::views(out@) == before.push(all[i as int]));
        i = i + 1;
    }
    assert(chars::views(out@) == all);
    out
}

// ---------------------------------------------------------------------------
// Filling lines with words

/// A text while it is being laid out: the lines that are complete, the spans of
/// the line that is being written, and the columns counted for it.
#[verifier::ext_equal]
pub struct LayoutState {
    pub lines: Seq<Seq<text::SpanView>>,
    pub spans: Seq<text::SpanView>,
    pub width: nat,
}

/// A layout before anything is put into it.
pub open spec fn empty_layout() -> LayoutState {
    LayoutState { lines: seq![], spans: seq![], width: 0 }
}

/// A line without the space that it may end with.
pub open spec fn without_last_space(spans: Seq<text::SpanView>) -> Seq<text::SpanView> {
    if spans.len() > 0 && spans.last().content == seq![' '] {
        spans.drop_last()
    } else {
        spans
    }
}

/// A word is put into the layout. A space is a possible break: it is kept only
/// within a line, in the default style, and where it fits. Any other word goes
/// on a new line if it does not fit on a line that has something on it.
pub open spec fn with_word(st: LayoutState, word: MeasuredSpanView, width: nat) -> LayoutState {
    if word.span.content == seq![' '] {
        if st.spans.len() > 0 && st.width < width {
            LayoutState {
                lines: st.lines,
                spans: st.spans.push(text::raw_span(seq![' '])),
                width: st.width + 1,
            }
        } else {
            st
        }
    } else if st.width > 0 && st.width + word.width > width {
        LayoutState {
            lines: st.lines.push(without_last_space(st.spans)),
            spans: seq![word.span],
            width: word.width as nat,
        }
    } else {
        LayoutState {
            lines: st.lines,
            spans: st.spans.push(word.span),
            width: st.width + word.width as nat,
        }
    }
}

/// The layout after all the words are put into it, in order.
pub open spec fn with_words(words: Seq<MeasuredSpanView>, width: nat) -> LayoutState
    decreases words.len(),
{
    if words.len() == 0 {
        empty_layout()
    } else {
        with_word(with_words(words.drop_last(), width), words.last(), width)
    }
}

/// The lines of measured words. There is at least one.
pub open spec fn laid_out(words: Seq<MeasuredSpanView>, width: nat) -> Seq<Seq<text::SpanView>> {
    let st = with_words(words, width);
    if st.spans.len() > 0 {
        st.lines.push(st.spans)
    } else if st.lines.len() == 0 {
        seq![seq![]]
    } else {
        st.lines
    }
}

/// A text while it is being laid out.
struct Layout {
    lines: Vec<Line>,
    spans: Vec<Span>,
    width: usize,
}

impl View for Layout {
    type V = LayoutState;

    closed spec fn view(&self) -> LayoutState {
        LayoutState {
            lines: chars::views(self.lines@),
            spans: chars::views(self.spans@),
            width: self.width as nat,
        }
    }
}

/// Whether a string is a single space.
fn is_space(s: &str) -> (r: bool)
    ensures
        r == (s@ == seq![' ']),
{
    let content = to_chars(s);
    if content.len() == 1 && content[0] == ' ' {
        assert(s@ == seq![' ']);
        true
    } else {
        assert(s@ != seq![' ']) by {
            if s@ == seq![' '] {
                assert(s@.len() == 1 && s@[0] == ' ');
            }
        }
        false
    }
}

impl Layout {
    fn push_space(&mut self, width: usize)
        requires
            old(self)@.width < width,
        ensures
            final(self)@ == (LayoutState {
                lines: old(self)@.lines,
                spans: old(self)@.spans.push(text::raw_span(seq![' '])),
                width: old(self)@.width + 1,
            }),
    {
        let ghost before = self@;
        let space = Span::raw(to_text(&[' ']));
        assert([' ']@ == seq![' ']);
        self.spans.push(space);
        self.width = self.width + 1;
        assert(self@.lines == before.lines);
        assert(self@.spans == before.spans.push(text::raw_span(seq![' '])));
    }

    /// Completes the line that is being written.
    fn break_line(&mut self)
        ensures
            final(self)@ == (LayoutState {
                lines: old(self)@.lines.push(without_last_space(old(self)@.spans)),
                spans: seq![],
                width: 0,
            }),
    {
        let ghost before = self@;
        let mut full: Vec<Span> = Vec::new();
        core::mem::swap(&mut full, &mut self.spans);
        assert(chars::views(full@) == before.spans);
        let n = full.len();
        if n > 0 && is_space(full[n - 1].content.as_str()) {
            full.pop();
            assert(chars::views(full@) == before.spans.drop_last());
        }
        self.lines.push(Line { spans: full });
        self.width = 0;
        assert(self@.lines == before.lines.push(without_last_space(before.spans)));
        assert(self@.spans == Seq::<text::SpanView>::empty());
    }

    fn push_word(&mut self, word: MeasuredSpan, width: usize)
        ensures
            final(self)@ == with_word(old(self)@, word@, width as nat),
    {
        if is_space(word.span.content.as_str()) {
            if self.spans.len() > 0 && self.width < width {
                self.push_space(width);
            }
            return ;
        }
        let ghost before = self@;
        if self.width > 0 && !(self.width <= width && word.width <= width - self.width) {
            self.break_line();
        }
        let ghost at = self@;
        let ghost head = word.span@;
        let MeasuredSpan { span, width: word_width } = word;
        self.spans.push(span);
        self.width = self.width + word_width;
        assert(self@.lines == at.lines);
        assert(self@.spans == at.spans.push(head));
        assert(Seq::<text::SpanView>::empty().push(head) == seq![head]);
    }
}

/// Fills measured words into lines of `width` columns.
pub fn lay_out_words(words: Vec<MeasuredSpan>, width: usize) -> (r: Vec<Line>)
    ensures
        chars::views(r@) == laid_out(chars::views(words@), width as nat),
{
    let ghost all = chars::views(words@);
    let mut layout = Layout { lines: Vec::new(), spans: Vec::new(), width: 0 };
    assert(layout@ == empty_layout());
    for word in it: words
        invariant
            all == chars::views(it.seq()),
            layout@ == with_words(all.take(it.index() as int), width as nat),
    {
        proof {
            let i = it.index() as int;
            assert(all.take(i + 1).drop_last() == all.take(i));
            assert(all.take(i + 1).last() == word@);
        }
        layout.push_word(word, width);
    }
    assert(all.take(all.len() as int) == all);
    let Layout { lines: mut lines, spans, width: _ } = layout;
    let ghost before = chars::views(lines@);
    if spans.len() > 0 {
        lines.push(Line { spans });
        assert(chars::views(lines@) == before.push(chars::views(spans@)));
    } else if lines.len() == 0 {
        lines.push(Line::empty());
        assert(chars::views(lines@) == seq![Seq::<text::SpanView>::empty()]);
    }
    lines
}

// ---------------------------------------------------------------------------
// Paragraphs

/// The lines of a line of text with inline markup. A blank one is one empty
/// line.
pub open spec fn link_lines(
    line: Seq<char>,
    width: nat,
    base_style: Style,
    link_style: Style,
    options: RenderOptions,
) -> Seq<Seq<text::SpanView>> {
    if chars::trimmed(line).len() == 0 {
        seq![seq![]]
    } else {
        laid_out(
            measured_spans(all_words(markup::inline_spans(line, base_style, link_style, options))),
            width,
        )
    }
}

/// Renders a line of text with inline markup, word-wrapped at `width` columns.
pub fn render_line_with_links(
    line: &str,
    width: usize,
    base_style: Style,
    link_style: Style,
    options: RenderOptions,
) -> (r: Vec<Line>)
    ensures
        chars::views(r@) == link_lines(line@, width as nat, base_style, link_style, options),
        width > 0 && width::is_plain(line@) && plain::is_single_spaced(line@)
            && markup::next_marker(line@) == line@.len() ==> text::line_texts(chars::views(r@))
            == wrap::text_lines(line@, width as nat),
        ({
            let words = measured_spans(
                all_words(markup::inline_spans(line@, base_style, link_style, options)),
            );
            !options.osc8 && width::is_plain(line@) && chars::trimmed(line@).len() > 0
                && !flow::all_gaps(words, 0, words.len() as int) ==> exists|cuts: Seq<(int, int)>|
                flow::flows(words, chars::views(r@), cuts, width as nat)
        }),
{
    let line_chars = to_chars(line);
    if trim(line_chars.as_slice()).len() == 0 {
        proof {
            plain::lemma_blank_has_no_words(line@);
            if width > 0 && plain::is_single_spaced(line@) && markup::next_marker(line@)
                == line@.len() {
                plain::law_paragraphs_wrap_as_prose(
                    line@,
                    width as nat,
                    base_style,
                    link_style,
                    options,
                );
            }
        }
        let mut out: Vec<Line> = Vec::new();
        out.push(Line::empty());
        assert(chars::views(out@) == seq![Seq::<text::SpanView>::empty()]);
        return out;
    }
    let spans = parse_inline_spans(line, base_style, link_style, options);
    let words = split_spans(spans.as_slice());
    let measured = measure_spans(words.as_slice());
    proof {
        if width > 0 && width::is_plain(line@) && plain::is_single_spaced(line@)
            && markup::next_marker(line@) == line@.len() {
            let found = chars::words_of(line@);
            wrapping::law_words_of_plain(line@);
            assert forall|k: int| 0 <= k < found.len() implies width::str_width(
                #[trigger] found[k],
            ) > 0 by {
                wrapping::law_words_are_words(line@, k);
                plain::lemma_words_are_laid_out(line@, base_style, link_style, options, k);
                assert(chars::views(words@)[2 * k] == words@[2 * k]@);
                assert(width::is_plain(words@[2 * k].content@));
            }
            plain::law_paragraphs_wrap_as_prose(
                line@,
                width as nat,
                base_style,
                link_style,
                options,
            );
        }
        if !options.osc8 && width::is_plain(line@) {
            let all = chars::views(measured@);
            assert forall|k: int| 0 <= k < all.len() implies flow::is_gap(#[trigger] all[k])
                || all[k].width > 0 by {
                flow::law_plain_words_take_room(line@, base_style, link_style, options, k);
                assert(chars::views(words@)[k] == words@[k]@);
                assert(width::is_plain(words@[k].content@));
            }
            flow::law_lines_are_runs_of_words(all, width as nat);
        }
    }
    lay_out_words(measured, width)
}

// ---------------------------------------------------------------------------
// List items

/// The columns that are left beside something `used` columns wide; there is
/// always one.
pub open spec fn columns_left(width: nat, used: nat) -> nat {
    if width > used {
        (width - used) as nat
    } else {
        1
    }
}

/// The columns that are left beside something `used` columns wide.
pub fn available_columns(width: usize, used: usize) -> (r: usize)
    ensures
        r == columns_left(width as nat, used as nat),
{
    if width > used {
        width - used
    } else {
        1
    }
}

/// Lines behind a bullet: the bullet before the first, and as much space before
/// the others as the bullet takes.
pub open spec fn hanging(
    lines: Seq<Seq<text::SpanView>>,
    bullet: Seq<char>,
    bullet_width: nat,
    bullet_style: Style,
) -> Seq<Seq<text::SpanView>> {
    Seq::new(
        lines.len(),
        |i: int|
            if i == 0 {
                seq![text::SpanView { content: bullet, style: bullet_style }] + lines[i]
            } else {
                seq![text::raw_span(chars::repeated(' ', bullet_width))] + lines[i]
            },
    )
}

/// Puts lines behind a bullet that takes `bullet_width` columns.
pub fn hang_lines(
    lines: Vec<Line>,
    bullet: &str,
    bullet_width: usize,
    bullet_style: Style,
) -> (r: Vec<Line>)
    ensures
        chars::views(r@) == hanging(
            chars::views(lines@),
            bullet@,
            bullet_width as nat,
            bullet_style,
        ),
{
    let ghost all = chars::views(lines@);
    let ghost hung = hanging(all, bullet@, bullet_width as nat, bullet_style);
    let mut out: Vec<Line> = Vec::new();
    for line in it: lines
        invariant
            all == chars::views(it.seq()),
            hung == hanging(all, bullet@, bullet_width as nat, bullet_style),
            out@.len() == it.index(),
            chars::views(out@) == hung.take(it.index() as int),
    {
        let first = out.len() == 0;
        let mut spans: Vec<Span> = Vec::new();
        if first {
            spans.push(Span::styled(bullet.to_owned(), bullet_style));
        } else {
            spans.push(Span::raw(repeat_char(' ', bullet_width)));
        }
        let ghost head = spans@[0]@;
        let ghost body = line@;
        let Line { spans: mut body_spans } = line;
        spans.append(&mut body_spans);
        let ghost before = chars::views(out@);
        assert(chars::views(spans@) == seq![head] + body);
        out.push(Line { spans });
        proof {
            let i = it.index() as int;
            assert(body == all[i]);
            assert(hung[i] == seq![head] + body);
            assert(chars::views(out@) == before.push(hung[i]));
        }
    }
    assert(chars::views(out@) == hung);
    out
}

/// The lines of a list item: the bullet and a space, then the text beside it.
pub open spec fn list_lines(
    bullet: Seq<char>,
    item: Seq<char>,
    width: nat,
    bullet_style: Style,
    text_style: Style,
    options: RenderOptions,
) -> Seq<Seq<text::SpanView>> {
    let prefix = bullet.push(' ');
    let prefix_width = width::str_width(prefix) as nat;
    hanging(
        link_lines(
            item,
            columns_left(width, prefix_width),
            text_style,
            link_style(options.palette),
            options,
        ),
        prefix,
        prefix_width,
        bullet_style,
    )
}

/// Renders a list item: its text is wrapped beside the bullet.
pub fn render_list_line(
    bullet: &str,
    item: &str,
    width: usize,
    bullet_style: Style,
    text_style: Style,
    options: RenderOptions,
) -> (r: Vec<Line>)
    ensures
        chars::views(r@) == list_lines(
            bullet@,
            item@,
            width as nat,
            bullet_style,
            text_style,
            options,
        ),
{
    let mut prefix = bullet.to_owned();
    prefix.push(' ');
    let prefix_width = measure_str(prefix.as_str());
    let available = available_columns(width, prefix_width);
    let lines = render_line_with_links(
        item,
        available,
        text_style,
        link_style(options.palette),
        options,
    );
    hang_lines(lines, prefix.as_str(), prefix_width, bullet_style)
}

// ---------------------------------------------------------------------------
// Headings and code

/// How far the lines of a code block are indented.
pub const CODE_INDENT: usize = 2;

/// Lines behind an indentation of `indent` columns.
pub open spec fn indented(
    lines: Seq<Seq<char>>,
    indent: nat,
    style: Style,
    is_code: bool,
) -> Seq<text::RenderedView> {
    Seq::new(
        lines.len(),
        |i: int|
            text::RenderedView {
                line: seq![
                    text::raw_span(chars::repeated(' ', indent)),
                    text::SpanView { content: lines[i], style },
                ],
                is_code,
            },
    )
}

/// Puts lines behind an indentation of `indent` columns.
pub fn indent_lines(lines: Vec<String>, indent: usize, style: Style, is_code: bool) -> (r: Vec<
    RenderedMarkdownLine,
>)
    ensures
        chars::views(r@) == indented(chars::views(lines@), indent as nat, style, is_code),
{
    let ghost all = chars::views(lines@);
    let ghost done = indented(all, indent as nat, style, is_code);
    let mut out: Vec<RenderedMarkdownLine> = Vec::new();
    for chunk in it: lines
        invariant
            all == chars::views(it.seq()),
            done == indented(all, indent as nat, style, is_code),
            chars::views(out@) == done.take(it.index() as int),
    {
        let mut spans: Vec<Span> = Vec::new();
        let ghost content = chunk@;
        spans.push(Span::raw(repeat_char(' ', indent)));
        spans.push(Span::styled(chunk, style));
        assert(chars::views(spans@) == seq![
            text::raw_span(chars::repeated(' ', indent as nat)),
            text::SpanView { content, style },
        ]);
        let ghost before = chars::views(out@);
        out.push(RenderedMarkdownLine { line: Line { spans }, is_code });
        proof {
            let i = it.index() as int;
            assert(content == all[i]);
            assert(chars::views(out@) == before.push(done[i]));
        }
    }
    assert(chars::views(out@) == done);
    out
}

/// The rendered lines of a plain text: code is indented and cut at any
/// character, other text is filled word by word.
pub open spec fn wrapped_lines(
    line: Seq<char>,
    width: nat,
    style: Style,
    indent_code: bool,
    is_code: bool,
) -> Seq<text::RenderedView> {
    if indent_code {
        indented(
            wrap::code_lines(
                wrap::measured_chars(line),
                columns_left(width, CODE_INDENT as nat),
            ),
            CODE_INDENT as nat,
            style,
            is_code,
        )
    } else {
        indented(wrap::text_lines(line, columns_left(width, 0)), 0, style, is_code)
    }
}

/// Renders a plain text, wrapped at `width` columns. White space at the start of
/// a line of code is kept.
pub fn render_wrapped_line_tagged(
    line: &str,
    width: usize,
    style: Style,
    indent_code: bool,
    is_code: bool,
) -> (r: Vec<RenderedMarkdownLine>)
    ensures
        chars::views(r@) == wrapped_lines(line@, width as nat, style, indent_code, is_code),
{
    let prefix = repeat_char(
        ' ',
        if indent_code {
            CODE_INDENT
        } else {
            0
        },
    );
    let prefix_width = measure_str(prefix.as_str());
    let available = available_columns(width, prefix_width);
    let wrapped = if indent_code {
        wrap_code_line(line, available)
    } else {
        wrap_text(line, available)
    };
    indent_lines(wrapped, prefix_width, style, is_code)
}

} // verus!
