//! Laws of laying out styled text: only spaces depend on the width.
use vstd::prelude::*;

use crate::chars;
use crate::layout;
use crate::markup;
use crate::style::{RenderOptions, Style};
use crate::text;

verus! {

/// Whether a span is a single space.
pub open spec fn is_space(span: text::SpanView) -> bool {
    span.content == seq![' ']
}

/// Spans without those that are a single space.
pub open spec fn inked(spans: Seq<text::SpanView>) -> Seq<text::SpanView>
    decreases spans.len(),
{
    if spans.len() == 0 {
        spans
    } else if is_space(spans.last()) {
        inked(spans.drop_last())
    } else {
        inked(spans.drop_last()).push(spans.last())
    }
}

proof fn lemma_inked_concat(a: Seq<text::SpanView>, b: Seq<text::SpanView>)
    ensures
        inked(a + b) == inked(a) + inked(b),
    decreases b.len(),
{
    if b.len() == 0 {
        assert(a + b == a);
        assert(inked(a) + b == inked(a));
    } else {
        lemma_inked_concat(a, b.drop_last());
        assert((a + b).drop_last() == a + b.drop_last());
        assert((a + b).last() == b.last());
        let rest = inked(b.drop_last());
        assert((inked(a) + rest).push(b.last()) == inked(a) + rest.push(b.last()));
    }
}

/// The spans of measured spans.
pub open spec fn spans_of(words: Seq<layout::MeasuredSpanView>) -> Seq<text::SpanView> {
    Seq::new(words.len(), |i: int| words[i].span)
}

/// All the spans of a layout, in order.
spec fn all_spans(st: layout::LayoutState) -> Seq<text::SpanView> {
    st.lines.flatten() + st.spans
}

proof fn lemma_without_last_space(spans: Seq<text::SpanView>)
    ensures
        inked(layout::without_last_space(spans)) == inked(spans),
{
}

proof fn lemma_with_word_keeps(
    st: layout::LayoutState,
    word: layout::MeasuredSpanView,
    width: nat,
)
    ensures
        inked(all_spans(layout::with_word(st, word, width))) == inked(all_spans(st)) + inked(
            seq![word.span],
        ),
{
    let flat = st.lines.flatten();
    let next = layout::with_word(st, word, width);
    let one = seq![word.span];
    assert(inked(one.drop_last()) == Seq::<text::SpanView>::empty());
    if word.span.content == seq![' '] {
        assert(inked(one) == Seq::<text::SpanView>::empty());
        assert(inked(all_spans(st)) + inked(one) == inked(all_spans(st)));
        if st.spans.len() > 0 && st.width < width {
            let space = seq![text::raw_span(seq![' '])];
            assert(inked(space.drop_last()) == Seq::<text::SpanView>::empty());
            assert(inked(space) == Seq::<text::SpanView>::empty());
            assert(all_spans(next) == all_spans(st) + space);
            lemma_inked_concat(all_spans(st), space);
            assert(inked(all_spans(st)) + Seq::<text::SpanView>::empty() == inked(all_spans(st)));
        }
    } else if st.width > 0 && st.width + word.width > width {
        let trimmed = layout::without_last_space(st.spans);
        st.lines.lemma_flatten_push(trimmed);
        assert(all_spans(next) == flat + trimmed + one);
        lemma_inked_concat(flat + trimmed, one);
        lemma_inked_concat(flat, trimmed);
        lemma_inked_concat(flat, st.spans);
        lemma_without_last_space(st.spans);
    } else {
        assert(all_spans(next) == all_spans(st) + one);
        lemma_inked_concat(all_spans(st), one);
    }
}

proof fn lemma_with_words_keeps(words: Seq<layout::MeasuredSpanView>, width: nat)
    ensures
        inked(all_spans(layout::with_words(words, width))) == inked(spans_of(words)),
    decreases words.len(),
{
    if words.len() == 0 {
        assert(all_spans(layout::empty_layout()) == Seq::<text::SpanView>::empty());
        assert(spans_of(words) == Seq::<text::SpanView>::empty());
    } else {
        let init = words.drop_last();
        lemma_with_words_keeps(init, width);
        lemma_with_word_keeps(layout::with_words(init, width), words.last(), width);
        assert(spans_of(words) == spans_of(init) + seq![words.last().span]);
        lemma_inked_concat(spans_of(init), seq![words.last().span]);
    }
}

/// Laying out words loses none of them and changes neither their order nor their
/// styles: only spaces come and go.
pub proof fn law_layout_keeps_words(words: Seq<layout::MeasuredSpanView>, width: nat)
    ensures
        inked(layout::laid_out(words, width).flatten()) == inked(spans_of(words)),
{
    let st = layout::with_words(words, width);
    lemma_with_words_keeps(words, width);
    st.lines.lemma_flatten_push(st.spans);
    let empty = Seq::<text::SpanView>::empty();
    if st.spans.len() == 0 {
        assert(st.lines.flatten() + st.spans == st.lines.flatten());
        if st.lines.len() == 0 {
            seq![empty].lemma_flatten_one_element();
            assert(st.lines.flatten() == empty);
        }
    }
}

/// A line of text that is rendered again at another width shows the same words in
/// the same styles: a change of width is a re-flow.
pub proof fn law_reflow(
    line: Seq<char>,
    width1: nat,
    width2: nat,
    base_style: Style,
    link_style: Style,
    options: RenderOptions,
)
    ensures
        inked(layout::link_lines(line, width1, base_style, link_style, options).flatten()) == inked(
            layout::link_lines(line, width2, base_style, link_style, options).flatten(),
        ),
{
    let words = layout::measured_spans(
        layout::all_words(markup::inline_spans(line, base_style, link_style, options)),
    );
    law_layout_keeps_words(words, width1);
    law_layout_keeps_words(words, width2);
}

/// Every word of a rendered line of text is a word of its inline markup.
pub proof fn law_link_lines_keep_words(
    line: Seq<char>,
    width: nat,
    base_style: Style,
    link_style: Style,
    options: RenderOptions,
)
    requires
        chars::trimmed(line).len() > 0,
    ensures
        inked(layout::link_lines(line, width, base_style, link_style, options).flatten()) == inked(
            layout::all_words(markup::inline_spans(line, base_style, link_style, options)),
        ),
{
    let spans = layout::all_words(markup::inline_spans(line, base_style, link_style, options));
    let words = layout::measured_spans(spans);
    law_layout_keeps_words(words, width);
    assert(spans_of(words) == spans);
}

/// The text of spans does not depend on where they are cut.
pub proof fn lemma_line_text_concat(a: Seq<text::SpanView>, b: Seq<text::SpanView>)
    ensures
        text::line_text(a + b) == text::line_text(a) + text::line_text(b),
    decreases b.len(),
{
    if b.len() == 0 {
        assert(a + b == a);
        assert(text::line_text(a) + text::line_text(b) == text::line_text(a));
    } else {
        lemma_line_text_concat(a, b.drop_last());
        assert((a + b).drop_last() == a + b.drop_last());
        assert((a + b).last() == b.last());
        let mid = text::line_text(b.drop_last());
        assert(text::line_text(a) + mid + b.last().content == text::line_text(a) + (mid
            + b.last().content));
    }
}

/// One span more adds its text.
pub proof fn lemma_line_text_push(line: Seq<text::SpanView>, span: text::SpanView)
    ensures
        text::line_text(line.push(span)) == text::line_text(line) + span.content,
{
    assert(line.push(span).drop_last() == line);
}

/// The words of a span, put together, are its text; each has its style.
pub proof fn law_span_words(s: Seq<char>, style: Style)
    ensures
        text::line_text(layout::span_words(s, style)) == s,
        forall|i: int|
            0 <= i < layout::span_words(s, style).len() ==> (#[trigger] layout::span_words(
                s,
                style,
            )[i]).style == style,
    decreases s.len(),
{
    chars::lemma_first_index(s, ' ');
    if s.len() > 0 {
        let n = if s[0] == ' ' {
            1int
        } else {
            chars::first_index(s, ' ') as int
        };
        law_span_words(s.skip(n), style);
        let head = seq![text::SpanView { content: s.take(n), style }];
        assert(s[0] == ' ' ==> s.take(1) == seq![' ']);
        assert(layout::span_words(s, style) == head + layout::span_words(s.skip(n), style));
        lemma_line_text_concat(head, layout::span_words(s.skip(n), style));
        assert(head.drop_last() == Seq::<text::SpanView>::empty());
        assert(text::line_text(head) == s.take(n)) by {
            assert(text::line_text(head.drop_last()) + s.take(n) == s.take(n));
        }
        assert(s.take(n) + s.skip(n) == s);
    }
}

/// The words of spans, put together, are the text of the spans.
pub proof fn law_all_words_keep_text(spans: Seq<text::SpanView>)
    ensures
        text::line_text(layout::all_words(spans)) == text::line_text(spans),
    decreases spans.len(),
{
    if spans.len() > 0 {
        law_all_words_keep_text(spans.drop_last());
        law_span_words(spans.last().content, spans.last().style);
        lemma_line_text_concat(
            layout::all_words(spans.drop_last()),
            layout::span_words(spans.last().content, spans.last().style),
        );
    }
}

/// The columns that a line takes when each text takes as many as `cells` gives it.
pub open spec fn line_columns(line: Seq<text::SpanView>, cells: spec_fn(Seq<char>) -> nat) -> nat
    decreases line.len(),
{
    if line.len() == 0 {
        0
    } else {
        line_columns(line.drop_last(), cells) + cells(line.last().content)
    }
}

/// Whether a line takes at most `width` columns, or no more than one of its words.
pub open spec fn line_fits(
    line: Seq<text::SpanView>,
    cells: spec_fn(Seq<char>) -> nat,
    width: nat,
) -> bool {
    ||| line_columns(line, cells) <= width
    ||| exists|k: int|
        0 <= k < line.len() && line_columns(line, cells) == cells((#[trigger] line[k]).content)
}

/// A line of laid out words takes at most `width` columns, but for a word that is
/// too wide by itself.
pub proof fn law_layout_fits(
    words: Seq<layout::MeasuredSpanView>,
    cells: spec_fn(Seq<char>) -> nat,
    width: nat,
    i: int,
)
    requires
        forall|k: int|
            0 <= k < words.len() ==> (#[trigger] words[k]).width == cells(words[k].span.content),
        cells(seq![' ']) == 1,
        0 <= i < layout::laid_out(words, width).len(),
    ensures
        line_fits(layout::laid_out(words, width)[i], cells, width),
{
    lemma_layout_fits(words, cells, width);
    let st = layout::with_words(words, width);
    if i < st.lines.len() {
        assert(layout::laid_out(words, width)[i] == st.lines[i]);
    }
}

proof fn lemma_layout_fits(
    words: Seq<layout::MeasuredSpanView>,
    cells: spec_fn(Seq<char>) -> nat,
    width: nat,
)
    requires
        forall|k: int|
            0 <= k < words.len() ==> (#[trigger] words[k]).width == cells(words[k].span.content),
        cells(seq![' ']) == 1,
    ensures
        ({
            let st = layout::with_words(words, width);
            &&& st.width == line_columns(st.spans, cells)
            &&& line_fits(st.spans, cells, width)
            &&& st.spans.len() > 0 && is_space(st.spans.last()) ==> st.width <= width
            &&& forall|k: int|
                0 <= k < st.lines.len() ==> line_fits(#[trigger] st.lines[k], cells, width)
        }),
    decreases words.len(),
{
    if words.len() > 0 {
        let init = words.drop_last();
        assert forall|k: int| 0 <= k < init.len() implies (#[trigger] init[k]).width == cells(
            init[k].span.content,
        ) by {
            assert(init[k] == words[k]);
        }
        lemma_layout_fits(init, cells, width);
        let st = layout::with_words(init, width);
        let next = layout::with_words(words, width);
        let word = words.last();
        assert(word == words[words.len() - 1]);
        if is_space(word.span) {
            let space = text::raw_span(seq![' ']);
            assert(st.spans.push(space).drop_last() == st.spans);
        } else {
            let line = layout::without_last_space(st.spans);
            assert(line_fits(line, cells, width));
            assert forall|k: int| 0 <= k < next.lines.len() implies line_fits(
                #[trigger] next.lines[k],
                cells,
                width,
            ) by {
                if k < st.lines.len() {
                    assert(next.lines[k] == st.lines[k]);
                }
            }
            let alone = seq![word.span];
            assert(line_columns(alone.drop_last(), cells) == 0);
            let with = st.spans.push(word.span);
            assert(with.drop_last() == st.spans);
            if next.spans == with {
                assert(with[st.spans.len() as int] == word.span);
            } else {
                assert(alone[0] == word.span);
            }
        }
    }
}

/// No line starts with a space.
pub proof fn law_no_leading_space(words: Seq<layout::MeasuredSpanView>, width: nat, i: int)
    requires
        0 <= i < layout::laid_out(words, width).len(),
        layout::laid_out(words, width)[i].len() > 0,
    ensures
        !is_space(layout::laid_out(words, width)[i][0]),
{
    lemma_no_leading_space(words, width);
    let st = layout::with_words(words, width);
    if i < st.lines.len() {
        assert(layout::laid_out(words, width)[i] == st.lines[i]);
    }
}

/// Whether a line, if it has anything on it, starts with something other than a
/// space.
spec fn starts_inked(line: Seq<text::SpanView>) -> bool {
    line.len() > 0 ==> !is_space(line[0])
}

proof fn lemma_no_leading_space(words: Seq<layout::MeasuredSpanView>, width: nat)
    ensures
        starts_inked(layout::with_words(words, width).spans),
        forall|k: int|
            0 <= k < layout::with_words(words, width).lines.len() ==> starts_inked(
                #[trigger] layout::with_words(words, width).lines[k],
            ),
    decreases words.len(),
{
    if words.len() > 0 {
        let init = words.drop_last();
        lemma_no_leading_space(init, width);
        let st = layout::with_words(init, width);
        let next = layout::with_words(words, width);
        assert forall|k: int| 0 <= k < next.lines.len() implies starts_inked(
            #[trigger] next.lines[k],
        ) by {
            if k < st.lines.len() {
                assert(next.lines[k] == st.lines[k]);
            } else {
                assert(next.lines[k] == layout::without_last_space(st.spans));
            }
        }
    }
}

/// A rendered line of text has at least one line.
pub proof fn law_link_lines_have_a_line(
    line: Seq<char>,
    width: nat,
    base_style: Style,
    link_style: Style,
    options: RenderOptions,
)
    ensures
        layout::link_lines(line, width, base_style, link_style, options).len() >= 1,
{
}

} // verus!
