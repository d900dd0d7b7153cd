//! Rendered text: spans, lines, and lines with the kind of block they come from.
use vstd::prelude::*;

use crate::chars;
use crate::style::Style;

verus! {

/// A piece of text in one style.
#[derive(Debug, PartialEq, Eq)]
pub struct Span {
    pub content: String,
    pub style: Style,
}

/// What a `Span` stands for.
pub struct SpanView {
    pub content: Seq<char>,
    pub style: Style,
}

impl View for Span {
    type V = SpanView;

    open spec fn view(&self) -> SpanView {
        SpanView { content: self.content@, style: self.style }
    }
}

impl Span {
    /// Text in the given style.
    pub fn styled(content: String, style: Style) -> (r: Span)
        ensures
            r@ == (SpanView { content: content@, style }),
    {
        Span { content, style }
    }

    /// Text in the default style.
    pub fn raw(content: String) -> (r: Span)
        ensures
            r@ == raw_span(content@),
    {
        Span { content, style: Style::new() }
    }
}

/// Text in the default style.
pub open spec fn raw_span(content: Seq<char>) -> SpanView {
    SpanView { content, style: Style::new() }
}

impl Clone for Span {
    fn clone(&self) -> (r: Self)
        ensures
            r@ == self@,
    {
        Span { content: self.content.clone(), style: self.style }
    }
}

/// One line on the terminal.
#[derive(Debug, PartialEq, Eq)]
pub struct Line {
    pub spans: Vec<Span>,
}

impl View for Line {
    type V = Seq<SpanView>;

    open spec fn view(&self) -> Seq<SpanView> {
        chars::views(self.spans@)
    }
}

impl Line {
    /// A line without any spans.
    pub fn empty() -> (r: Line)
        ensures
            r@ == Seq::<SpanView>::empty(),
    {
        Line { spans: Vec::new() }
    }

    /// A line of one span.
    pub fn of_span(span: Span) -> (r: Line)
        ensures
            r@ == seq![span@],
    {
        let mut spans: Vec<Span> = Vec::new();
        spans.push(span);
        assert(chars::views(spans@) == seq![span@]);
        Line { spans }
    }
}

impl Clone for Line {
    fn clone(&self) -> (r: Self)
        ensures
            r@ == self@,
    {
        let mut spans: Vec<Span> = Vec::new();
        let mut i: usize = 0;
        while i < self.spans.len()
            invariant
                i <= self.spans@.len(),
                chars::views(spans@) == self@.take(i as int),
            decreases self.spans@.len() - i,
        {
            let ghost before = chars::views(spans@);
            spans.push(self.spans[i].clone());
            assert(chars::views(spans@) == before.push(self.spans@[i as int]@));
            i = i + 1;
        }
        assert(chars::views(spans@) == self@);
        Line { spans }
    }
}

/// The text of a line, without its styles.
pub open spec fn line_text(line: Seq<SpanView>) -> Seq<char>
    decreases line.len(),
{
    if line.len() == 0 {
        seq![]
    } else {
        line_text(line.drop_last()) + line.last().content
    }
}

/// The texts of lines, without their styles.
pub open spec fn line_texts(lines: Seq<Seq<SpanView>>) -> Seq<Seq<char>> {
    Seq::new(lines.len(), |i: int| line_text(lines[i]))
}

/// A rendered line, and whether a code block produced it.
///
/// Most callers only need the line, but transcript rendering also needs to avoid
/// adding its continuation rail in front of code blocks.
#[derive(Debug)]
pub struct RenderedMarkdownLine {
    pub line: Line,
    pub is_code: bool,
}

impl Clone for RenderedMarkdownLine {
    fn clone(&self) -> (r: Self)
        ensures
            r@ == self@,
    {
        RenderedMarkdownLine { line: self.line.clone(), is_code: self.is_code }
    }
}

/// What a `RenderedMarkdownLine` stands for.
pub struct RenderedView {
    pub line: Seq<SpanView>,
    pub is_code: bool,
}

impl View for RenderedMarkdownLine {
    type V = RenderedView;

    open spec fn view(&self) -> RenderedView {
        RenderedView { line: self.line@, is_code: self.is_code }
    }
}

/// Lines, all with the same tag.
pub open spec fn tagged(lines: Seq<Seq<SpanView>>, is_code: bool) -> Seq<RenderedView> {
    Seq::new(lines.len(), |i: int| RenderedView { line: lines[i], is_code })
}

/// Lines without their tags.
pub open spec fn untagged(lines: Seq<RenderedView>) -> Seq<Seq<SpanView>> {
    Seq::new(lines.len(), |i: int| lines[i].line)
}

} // verus!
