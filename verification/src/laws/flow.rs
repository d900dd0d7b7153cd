//! Laws of paragraphs: where the words of a text stand on its lines, where the
//! spaces between them are kept, and where the lines are broken.
use vstd::prelude::*;

use crate::chars;
use crate::laws::pieces;
use crate::laws::plain;
use crate::laws::reflow;
use crate::layout;
use crate::markup;
use crate::style::{RenderOptions, Style};
use crate::text;
use crate::width;

verus! {

// ---------------------------------------------------------------------------
// Words

/// A span is cut into its spaces, one by one, and into what stands between them,
/// as it stands.
pub proof fn law_words_of_a_span(s: Seq<char>, style: Style)
    ensures
        ({
            let words = layout::span_words(s, style);
            &&& text::line_text(words) == s
            &&& forall|i: int|
                0 <= i < words.len() ==> {
                    &&& (#[trigger] words[i]).style == style
                    &&& words[i].content.len() > 0
                    &&& words[i].content == seq![' '] || !words[i].content.contains(' ')
                }
            &&& forall|i: int|
                0 < i < words.len() ==> (#[trigger] words[i]).content == seq![' '] || words[i
                    - 1].content == seq![' ']
        }),
    decreases s.len(),
{
    reflow::law_span_words(s, style);
    let words = layout::span_words(s, style);
    if s.len() > 0 {
        chars::lemma_first_index(s, ' ');
        let n = if s[0] == ' ' {
            1int
        } else {
            chars::first_index(s, ' ') as int
        };
        let rest = s.skip(n);
        let tail = layout::span_words(rest, style);
        law_words_of_a_span(rest, style);
        let head = s.take(n);
        if s[0] == ' ' {
            assert(words[0].content == seq![' ']);
        } else {
            assert(words[0].content == head);
            if head.contains(' ') {
                let k = choose|k: int| 0 <= k < head.len() && head[k] == ' ';
                assert(s[k] == ' ');
            }
        }
        assert forall|i: int| 0 <= i < words.len() implies {
            &&& (#[trigger] words[i]).style == style
            &&& words[i].content.len() > 0
            &&& words[i].content == seq![' '] || !words[i].content.contains(' ')
        } by {
            if i > 0 {
                assert(words[i] == tail[i - 1]);
            }
        }
        assert forall|i: int| 0 < i < words.len() implies (#[trigger] words[i]).content == seq![' ']
            || words[i - 1].content == seq![' '] by {
            assert(words[i] == tail[i - 1]);
            if i > 1 {
                assert(words[i - 1] == tail[i - 2]);
            } else if s[0] != ' ' {
                assert(rest[0] == s[n]);
                assert(tail[0].content == seq![' ']);
            }
        }
    }
}

/// The words of spans are those of each span, in order.
pub proof fn law_words_of_spans(spans: Seq<text::SpanView>, span: text::SpanView)
    ensures
        layout::all_words(Seq::<text::SpanView>::empty()) == Seq::<text::SpanView>::empty(),
        layout::all_words(spans.push(span)) == layout::all_words(spans) + layout::span_words(
            span.content,
            span.style,
        ),
{
    assert(spans.push(span).drop_last() == spans);
}

/// A span is measured by its text.
pub proof fn law_spans_are_measured(spans: Seq<text::SpanView>, i: int)
    requires
        0 <= i < spans.len(),
    ensures
        layout::measured_spans(spans).len() == spans.len(),
        layout::measured_spans(spans)[i].span == spans[i],
        layout::measured_spans(spans)[i].width == width::str_width(spans[i].content),
{
}

/// A paragraph is laid out with the words of its inline markup; a blank one is one
/// empty line.
pub proof fn law_paragraph_words(
    s: Seq<char>,
    width: nat,
    base_style: Style,
    link_style: Style,
    options: RenderOptions,
)
    ensures
        ({
            let lines = layout::link_lines(s, width, base_style, link_style, options);
            let words = layout::all_words(
                markup::inline_spans(s, base_style, link_style, options),
            );
            &&& pieces::is_white(s) ==> lines == seq![Seq::<text::SpanView>::empty()]
            &&& !pieces::is_white(s) ==> lines == layout::laid_out(
                layout::measured_spans(words),
                width,
            )
        }),
{
    let none = Seq::<char>::empty();
    if pieces::is_white(s) {
        pieces::law_trim(s, none, none);
        assert(s + none + none == s);
    } else {
        let t = chars::trimmed_start(s);
        chars::lemma_trimmed_start(s);
        chars::lemma_trimmed_end(t);
        if chars::trimmed(s).len() == 0 {
            if t.len() > 0 {
                assert(chars::is_white_space(t[0]));
            }
            assert(pieces::is_white(s));
        }
    }
}

// ---------------------------------------------------------------------------
// Spaces

/// Whether a word is a space.
pub open spec fn is_gap(word: layout::MeasuredSpanView) -> bool {
    word.span.content == seq![' ']
}

/// How a word stands on a line: a space in the default style, any other as it is.
pub open spec fn shown_as(word: layout::MeasuredSpanView) -> text::SpanView {
    if is_gap(word) {
        text::raw_span(seq![' '])
    } else {
        word.span
    }
}

/// Whether `spans` are the words, in order, but for spaces that are left out.
pub open spec fn is_thinned(
    spans: Seq<text::SpanView>,
    words: Seq<layout::MeasuredSpanView>,
) -> bool
    decreases words.len(),
{
    if words.len() == 0 {
        spans.len() == 0
    } else {
        ||| is_gap(words.last()) && is_thinned(spans, words.drop_last())
        ||| spans.len() > 0 && spans.last() == shown_as(words.last()) && is_thinned(
            spans.drop_last(),
            words.drop_last(),
        )
    }
}

proof fn lemma_thinner(spans: Seq<text::SpanView>, words: Seq<layout::MeasuredSpanView>)
    requires
        spans.len() > 0,
        spans.last().content == seq![' '],
        is_thinned(spans, words),
    ensures
        is_thinned(spans.drop_last(), words),
    decreases words.len(),
{
    let init = words.drop_last();
    if is_gap(words.last()) && is_thinned(spans, init) {
        lemma_thinner(spans, init);
    } else {
        assert(is_gap(words.last()));
    }
}

proof fn lemma_thinned(words: Seq<layout::MeasuredSpanView>, width: nat)
    ensures
        ({
            let st = layout::with_words(words, width);
            is_thinned(st.lines.flatten() + st.spans, words)
        }),
    decreases words.len(),
{
    let next = layout::with_words(words, width);
    if words.len() == 0 {
        assert(next.lines.flatten() == Seq::<text::SpanView>::empty());
        assert(next.lines.flatten() + next.spans == Seq::<text::SpanView>::empty());
    } else {
        let init = words.drop_last();
        let word = words.last();
        lemma_thinned(init, width);
        let st = layout::with_words(init, width);
        let flat = st.lines.flatten();
        let all = flat + st.spans;
        let now = next.lines.flatten() + next.spans;
        if is_gap(word) {
            if next.spans != st.spans {
                assert(now == all.push(shown_as(word)));
                assert(now.drop_last() == all);
            }
        } else if st.width > 0 && st.width + word.width > width {
            let line = layout::without_last_space(st.spans);
            st.lines.lemma_flatten_push(line);
            let kept = flat + line;
            assert(now == kept.push(word.span));
            assert(now.drop_last() == kept);
            if line != st.spans {
                assert(all.last() == st.spans.last());
                assert(all.drop_last() == kept);
                lemma_thinner(all, init);
            }
        } else {
            assert(now == all.push(word.span));
            assert(now.drop_last() == all);
        }
    }
}

/// The lines of a text, one after the other, are its words in order: spaces may be
/// left out, but none is put where the text has none, and nothing else changes.
pub proof fn law_no_space_is_added(words: Seq<layout::MeasuredSpanView>, width: nat)
    ensures
        is_thinned(layout::laid_out(words, width).flatten(), words),
{
    lemma_thinned(words, width);
    let st = layout::with_words(words, width);
    let lines = layout::laid_out(words, width);
    if st.spans.len() > 0 {
        st.lines.lemma_flatten_push(st.spans);
    } else {
        assert(st.lines.flatten() + st.spans == st.lines.flatten());
        if st.lines.len() == 0 {
            let none = Seq::<text::SpanView>::empty();
            seq![none].lemma_flatten_one_element();
            assert(st.lines.flatten() == none);
        }
    }
}

// ---------------------------------------------------------------------------
// Lines

/// The columns that words take on a line, a space taking one.
pub open spec fn columns_in(words: Seq<layout::MeasuredSpanView>) -> nat
    decreases words.len(),
{
    if words.len() == 0 {
        0
    } else {
        columns_in(words.drop_last()) + if is_gap(words.last()) {
            1
        } else {
            words.last().width as nat
        }
    }
}

/// The words from position `from` up to before `to`, as they stand on a line.
pub open spec fn run(
    words: Seq<layout::MeasuredSpanView>,
    from: int,
    to: int,
) -> Seq<text::SpanView> {
    Seq::new((to - from) as nat, |i: int| shown_as(words[from + i]))
}

/// Whether the words from position `from` up to before `to` are all spaces.
pub open spec fn all_gaps(words: Seq<layout::MeasuredSpanView>, from: int, to: int) -> bool {
    forall|i: int| from <= i < to ==> is_gap(#[trigger] words[i])
}

/// Whether the words from `from` up to before `to` can stand on a line: it starts
/// with a word that is no space, and takes at most `width` columns unless it is one
/// word alone.
pub open spec fn is_good_run(
    words: Seq<layout::MeasuredSpanView>,
    from: int,
    to: int,
    width: nat,
) -> bool {
    &&& 0 <= from < to <= words.len()
    &&& !is_gap(words[from])
    &&& columns_in(words.subrange(from, to)) <= width || to == from + 1
}

/// Whether a line that has the words from `from` up to before `to` is rightly
/// broken there, the next line starting with the word at `next`: only spaces are
/// left out between them; the next word, with a space before it if there is one,
/// does not fit; and no more than one space is left out unless there is no room for
/// it.
pub open spec fn is_good_break(
    words: Seq<layout::MeasuredSpanView>,
    from: int,
    to: int,
    next: int,
    width: nat,
) -> bool {
    let columns = columns_in(words.subrange(from, to));
    let space: nat = if to < next {
        1
    } else {
        0
    };
    &&& to <= next < words.len()
    &&& all_gaps(words, to, next)
    &&& columns + space + words[next].width > width
    &&& next - to > 1 ==> columns + 1 >= width
    &&& is_gap(words[to - 1]) ==> columns + 1 <= width
}

/// Whether lines are contiguous runs of the words, each given by where it starts
/// and where it ends, and rightly broken.
pub open spec fn flows(
    words: Seq<layout::MeasuredSpanView>,
    lines: Seq<Seq<text::SpanView>>,
    cuts: Seq<(int, int)>,
    width: nat,
) -> bool {
    &&& lines.len() == cuts.len() > 0
    &&& all_gaps(words, 0, cuts[0].0)
    &&& forall|i: int|
        0 <= i < cuts.len() ==> {
            &&& is_good_run(words, (#[trigger] cuts[i]).0, cuts[i].1, width)
            &&& lines[i] == run(words, cuts[i].0, cuts[i].1)
        }
    &&& forall|i: int, j: int|
        0 <= i < j < cuts.len() && j == i + 1 ==> is_good_break(
            words,
            (#[trigger] cuts[i]).0,
            cuts[i].1,
            (#[trigger] cuts[j]).0,
            width,
        )
    &&& all_gaps(words, cuts.last().1, words.len() as int)
    &&& cuts.last().1 < words.len() ==> columns_in(
        words.subrange(cuts.last().0, cuts.last().1),
    ) >= width
}

/// Whether every word that is no space takes a column.
pub open spec fn all_take_room(words: Seq<layout::MeasuredSpanView>) -> bool {
    forall|i: int| 0 <= i < words.len() ==> is_gap(#[trigger] words[i]) || words[i].width > 0
}

/// Whether every one of the lines is rightly broken, `starts` being where they and
/// the line after them start.
#[verifier::opaque]
spec fn all_break(
    words: Seq<layout::MeasuredSpanView>,
    cuts: Seq<(int, int)>,
    starts: Seq<(int, int)>,
    width: nat,
) -> bool {
    forall|k: int|
        0 <= k < cuts.len() ==> is_good_break(
            words,
            (#[trigger] cuts[k]).0,
            cuts[k].1,
            starts[k + 1].0,
            width,
        )
}

/// Where a layout stands after the first `i` words.
spec fn is_flowing(
    words: Seq<layout::MeasuredSpanView>,
    st: layout::LayoutState,
    cuts: Seq<(int, int)>,
    from: int,
    to: int,
    i: int,
    width: nat,
) -> bool {
    let starts = cuts.push((from, to));
    &&& st.lines.len() == cuts.len()
    &&& forall|k: int|
        0 <= k < cuts.len() ==> {
            &&& is_good_run(words, (#[trigger] cuts[k]).0, cuts[k].1, width)
            &&& st.lines[k] == run(words, cuts[k].0, cuts[k].1)
        }
    &&& all_break(words, cuts, starts, width)
    &&& if st.spans.len() == 0 {
        &&& cuts.len() == 0
        &&& st.width == 0
        &&& from == to == i
        &&& all_gaps(words, 0, i)
    } else {
        &&& is_good_run(words, from, to, width)
        &&& to <= i
        &&& all_gaps(words, 0, starts[0].0)
        &&& st.spans == run(words, from, to)
        &&& st.width == columns_in(words.subrange(from, to))
        &&& st.width > 0
        &&& all_gaps(words, to, i)
        &&& to < i ==> st.width >= width
    }
}

proof fn lemma_columns_longer(words: Seq<layout::MeasuredSpanView>, from: int, to: int)
    requires
        0 <= from <= to < words.len(),
    ensures
        columns_in(words.subrange(from, to + 1)) == columns_in(words.subrange(from, to))
            + if is_gap(words[to]) {
            1
        } else {
            words[to].width as nat
        },
        run(words, from, to + 1) == run(words, from, to).push(shown_as(words[to])),
{
    let longer = words.subrange(from, to + 1);
    assert(longer.drop_last() == words.subrange(from, to));
    assert(longer.last() == words[to]);
}

/// The line that is being written takes one word more.
proof fn lemma_flow_on(
    words: Seq<layout::MeasuredSpanView>,
    st: layout::LayoutState,
    cuts: Seq<(int, int)>,
    from: int,
    i: int,
    width: nat,
)
    requires
        0 <= i < words.len(),
        st.spans.len() > 0,
        is_flowing(words, st, cuts, from, i, i, width),
        columns_in(words.subrange(from, i + 1)) <= width,
    ensures
        ({
            let next = layout::LayoutState {
                lines: st.lines,
                spans: st.spans.push(shown_as(words[i])),
                width: columns_in(words.subrange(from, i + 1)),
            };
            is_flowing(words, next, cuts, from, i + 1, i + 1, width)
        }),
{
    lemma_columns_longer(words, from, i);
    let starts = cuts.push((from, i));
    let now = cuts.push((from, i + 1));
    assert(all_break(words, cuts, now, width)) by {
        reveal(all_break);
        assert forall|k: int| 0 <= k < cuts.len() implies is_good_break(
            words,
            (#[trigger] cuts[k]).0,
            cuts[k].1,
            now[k + 1].0,
            width,
        ) by {
            assert(now[k + 1].0 == starts[k + 1].0);
        }
    }
    assert(now[0].0 == starts[0].0);
}

/// A first line starts with a word.
proof fn lemma_flow_starts(
    words: Seq<layout::MeasuredSpanView>,
    st: layout::LayoutState,
    cuts: Seq<(int, int)>,
    i: int,
    width: nat,
)
    requires
        0 <= i < words.len(),
        !is_gap(words[i]),
        words[i].width > 0,
        st.spans.len() == 0,
        is_flowing(words, st, cuts, i, i, i, width),
    ensures
        ({
            let next = layout::LayoutState {
                lines: st.lines,
                spans: st.spans.push(words[i].span),
                width: words[i].width as nat,
            };
            is_flowing(words, next, cuts, i, i + 1, i + 1, width)
        }),
{
    assert(words.subrange(i, i) == Seq::<layout::MeasuredSpanView>::empty());
    lemma_columns_longer(words, i, i);
    assert(run(words, i, i) == Seq::<text::SpanView>::empty());
    let starts = cuts.push((i, i + 1));
    assert(starts[0] == (i, i + 1));
    assert(all_break(words, cuts, starts, width)) by {
        reveal(all_break);
    }
    assert(st.spans == Seq::<text::SpanView>::empty());
}

/// A line that is broken, as it is left.
proof fn lemma_broken_run(
    words: Seq<layout::MeasuredSpanView>,
    from: int,
    to: int,
    i: int,
    width: nat,
) -> (end: int)
    requires
        0 <= i < words.len(),
        is_good_run(words, from, to, width),
        to <= i,
        all_gaps(words, to, i),
        to < i ==> columns_in(words.subrange(from, to)) >= width,
        columns_in(words.subrange(from, to)) + words[i].width > width,
    ensures
        is_good_run(words, from, end, width),
        is_good_break(words, from, end, i, width),
        layout::without_last_space(run(words, from, to)) == run(words, from, end),
{
    let last = words[to - 1];
    let spans = run(words, from, to);
    lemma_columns_longer(words, from, to - 1);
    assert(spans.last() == shown_as(last));
    if is_gap(last) {
        assert(spans.drop_last() == run(words, from, to - 1));
        assert forall|k: int| to - 1 <= k < i implies is_gap(#[trigger] words[k]) by {}
        if is_gap(words[to - 2]) {
            assert(from < to - 2);
        }
        to - 1
    } else {
        to
    }
}

/// A line is broken and the next one starts with a word.
proof fn lemma_flow_breaks(
    words: Seq<layout::MeasuredSpanView>,
    st: layout::LayoutState,
    cuts: Seq<(int, int)>,
    from: int,
    to: int,
    i: int,
    width: nat,
) -> (now: Seq<(int, int)>)
    requires
        0 <= i < words.len(),
        !is_gap(words[i]),
        words[i].width > 0,
        st.spans.len() > 0,
        is_flowing(words, st, cuts, from, to, i, width),
        st.width + words[i].width > width,
    ensures
        ({
            let next = layout::LayoutState {
                lines: st.lines.push(layout::without_last_space(st.spans)),
                spans: seq![words[i].span],
                width: words[i].width as nat,
            };
            is_flowing(words, next, now, i, i + 1, i + 1, width)
        }),
{
    let end = lemma_broken_run(words, from, to, i, width);
    let lines = st.lines.push(layout::without_last_space(st.spans));
    let starts = cuts.push((from, to));
    let now = cuts.push((from, end));
    let later = now.push((i, i + 1));
    assert(words.subrange(i, i) == Seq::<layout::MeasuredSpanView>::empty());
    lemma_columns_longer(words, i, i);
    assert(run(words, i, i) == Seq::<text::SpanView>::empty());
    assert(seq![words[i].span] == run(words, i, i + 1));
    assert forall|k: int| 0 <= k < now.len() implies {
        &&& is_good_run(words, (#[trigger] now[k]).0, now[k].1, width)
        &&& lines[k] == run(words, now[k].0, now[k].1)
    } by {
        if k < cuts.len() {
            assert(now[k] == cuts[k]);
            assert(lines[k] == st.lines[k]);
        }
    }
    assert(all_break(words, now, later, width)) by {
        reveal(all_break);
        assert forall|k: int| 0 <= k < now.len() implies is_good_break(
            words,
            (#[trigger] now[k]).0,
            now[k].1,
            later[k + 1].0,
            width,
        ) by {
            if k < cuts.len() {
                assert(now[k] == cuts[k]);
                assert(later[k + 1].0 == starts[k + 1].0);
            } else {
                assert(later[k + 1] == (i, i + 1));
            }
        }
    }
    assert(later[0].0 == starts[0].0);
    now
}

/// A space for which there is no room is left out.
proof fn lemma_flow_skips(
    words: Seq<layout::MeasuredSpanView>,
    st: layout::LayoutState,
    cuts: Seq<(int, int)>,
    from: int,
    to: int,
    i: int,
    width: nat,
) -> (r: (int, int))
    requires
        0 <= i < words.len(),
        is_gap(words[i]),
        st.spans.len() == 0 || st.width >= width,
        is_flowing(words, st, cuts, from, to, i, width),
    ensures
        is_flowing(words, st, cuts, r.0, r.1, i + 1, width),
{
    if st.spans.len() == 0 {
        assert(all_gaps(words, 0, i + 1)) by {
            assert forall|k: int| 0 <= k < i + 1 implies is_gap(#[trigger] words[k]) by {
                if k < i {
                    assert(all_gaps(words, 0, i));
                }
            }
        }
        assert(all_break(words, cuts, cuts.push((i + 1, i + 1)), width)) by {
            reveal(all_break);
        }
        (i + 1, i + 1)
    } else {
        assert(all_gaps(words, to, i + 1)) by {
            assert forall|k: int| to <= k < i + 1 implies is_gap(#[trigger] words[k]) by {
                if k < i {
                    assert(all_gaps(words, to, i));
                }
            }
        }
        (from, to)
    }
}

proof fn lemma_flowing(words: Seq<layout::MeasuredSpanView>, width: nat, n: int) -> (r: (
    Seq<(int, int)>,
    int,
    int,
))
    requires
        all_take_room(words),
        0 <= n <= words.len(),
    ensures
        is_flowing(
            words,
            layout::with_words(words.take(n), width),
            r.0,
            r.1,
            r.2,
            n,
            width,
        ),
    decreases n,
{
    let head = words.take(n);
    if n == 0 {
        assert(all_break(words, seq![], seq![(0, 0)], width)) by {
            reveal(all_break);
        }
        assert(Seq::<(int, int)>::empty().push((0, 0)) == seq![(0int, 0int)]);
        (Seq::<(int, int)>::empty(), 0, 0)
    } else {
        let i = n - 1;
        let (cuts, from, to) = lemma_flowing(words, width, i);
        assert(head.drop_last() == words.take(i));
        let word = words[i];
        assert(head.last() == word);
        let st = layout::with_words(words.take(i), width);
        assert(is_gap(words[i]) || words[i].width > 0);
        if is_gap(word) && (st.spans.len() == 0 || st.width >= width) {
            let (f, t) = lemma_flow_skips(words, st, cuts, from, to, i, width);
            (cuts, f, t)
        } else if st.spans.len() == 0 {
            lemma_flow_starts(words, st, cuts, i, width);
            (cuts, i, n)
        } else if !is_gap(word) && st.width + word.width > width {
            let now = lemma_flow_breaks(words, st, cuts, from, to, i, width);
            (now, i, n)
        } else {
            assert(to == i);
            lemma_columns_longer(words, from, i);
            lemma_flow_on(words, st, cuts, from, i, width);
            (cuts, from, n)
        }
    }
}

/// A text is laid out in contiguous runs of its words, spaces included: only the
/// spaces before the first word, those at which a line is broken, and those at the
/// end for which there is no room are left out. Every line fits, unless it is one
/// word alone, and no line is broken before the next word does not fit.
pub proof fn law_lines_are_runs_of_words(words: Seq<layout::MeasuredSpanView>, width: nat)
    requires
        all_take_room(words),
    ensures
        all_gaps(words, 0, words.len() as int) ==> layout::laid_out(words, width) == seq![
            Seq::<text::SpanView>::empty(),
        ],
        !all_gaps(words, 0, words.len() as int) ==> exists|cuts: Seq<(int, int)>|
            flows(words, layout::laid_out(words, width), cuts, width),
{
    let n = words.len() as int;
    let (cuts, from, to) = lemma_flowing(words, width, n);
    assert(words.take(n) == words);
    let st = layout::with_words(words, width);
    let lines = layout::laid_out(words, width);
    if st.spans.len() > 0 {
        let all = cuts.push((from, to));
        assert(!is_gap(words[from]));
        assert forall|i: int| 0 <= i < all.len() implies {
            &&& is_good_run(words, (#[trigger] all[i]).0, all[i].1, width)
            &&& lines[i] == run(words, all[i].0, all[i].1)
        } by {
            if i < cuts.len() {
                assert(all[i] == cuts[i]);
                assert(lines[i] == st.lines[i]);
            }
        }
        assert forall|i: int, j: int| 0 <= i < j < all.len() && j == i + 1 implies is_good_break(
            words,
            (#[trigger] all[i]).0,
            all[i].1,
            (#[trigger] all[j]).0,
            width,
        ) by {
            reveal(all_break);
            assert(all[i] == cuts[i]);
        }
        assert(flows(words, lines, all, width));
    }
}

/// The words of plain text, whatever inline markup it has, are plain, and none is
/// empty.
pub proof fn law_plain_words_take_room(
    s: Seq<char>,
    base_style: Style,
    link_style: Style,
    options: RenderOptions,
    i: int,
)
    requires
        !options.osc8,
        width::is_plain(s),
        0 <= i < layout::all_words(
            markup::inline_spans(s, base_style, link_style, options),
        ).len(),
    ensures
        ({
            let words = layout::all_words(
                markup::inline_spans(s, base_style, link_style, options),
            );
            width::is_plain(words[i].content) && words[i].content.len() > 0
        }),
{
    let spans = markup::inline_spans(s, base_style, link_style, options);
    assert forall|k: int| 0 <= k < spans.len() implies width::is_plain(
        (#[trigger] spans[k]).content,
    ) by {
        plain::law_inline_spans_are_plain(s, base_style, link_style, options, k);
    }
    lemma_words_are_plain(spans, i);
}

proof fn lemma_words_are_plain(spans: Seq<text::SpanView>, i: int)
    requires
        forall|k: int| 0 <= k < spans.len() ==> width::is_plain((#[trigger] spans[k]).content),
        0 <= i < layout::all_words(spans).len(),
    ensures
        width::is_plain(layout::all_words(spans)[i].content),
        layout::all_words(spans)[i].content.len() > 0,
    decreases spans.len(),
{
    let init = spans.drop_last();
    let before = layout::all_words(init);
    let last = spans.last();
    if i < before.len() {
        assert forall|k: int| 0 <= k < init.len() implies width::is_plain(
            (#[trigger] init[k]).content,
        ) by {
            assert(init[k] == spans[k]);
        }
        lemma_words_are_plain(init, i);
    } else {
        assert(width::is_plain(spans[spans.len() - 1].content));
        lemma_span_words_are_plain(last.content, last.style, i - before.len());
    }
}

proof fn lemma_span_words_are_plain(s: Seq<char>, style: Style, i: int)
    requires
        width::is_plain(s),
        0 <= i < layout::span_words(s, style).len(),
    ensures
        width::is_plain(layout::span_words(s, style)[i].content),
        layout::span_words(s, style)[i].content.len() > 0,
    decreases s.len(),
{
    chars::lemma_first_index(s, ' ');
    let n = if s[0] == ' ' {
        1int
    } else {
        chars::first_index(s, ' ') as int
    };
    let rest = s.skip(n);
    if i == 0 {
        let word = layout::span_words(s, style)[0].content;
        assert forall|k: int| 0 <= k < word.len() implies width::is_ascii_printable(
            #[trigger] word[k],
        ) by {
            assert(word[k] == s[k]);
        }
    } else {
        assert forall|k: int| 0 <= k < rest.len() implies width::is_ascii_printable(
            #[trigger] rest[k],
        ) by {
            assert(rest[k] == s[k + n]);
        }
        lemma_span_words_are_plain(rest, style, i - 1);
    }
}

// ---------------------------------------------------------------------------
// One word more

proof fn lemma_no_spans_no_lines(words: Seq<layout::MeasuredSpanView>, width: nat)
    ensures
        ({
            let st = layout::with_words(words, width);
            st.spans.len() == 0 ==> st.lines.len() == 0 && st.width == 0
        }),
    decreases words.len(),
{
    if words.len() > 0 {
        lemma_no_spans_no_lines(words.drop_last(), width);
    }
}

/// The columns of the spans of a line, a space taking one and any other span what
/// `cells` gives it.
pub open spec fn line_columns(
    spans: Seq<text::SpanView>,
    cells: spec_fn(text::SpanView) -> nat,
) -> nat
    decreases spans.len(),
{
    if spans.len() == 0 {
        0
    } else {
        line_columns(spans.drop_last(), cells) + if spans.last().content == seq![' '] {
            1
        } else {
            cells(spans.last())
        }
    }
}

/// Whether every word takes the columns that `cells` gives it.
pub open spec fn all_measured_by(
    words: Seq<layout::MeasuredSpanView>,
    cells: spec_fn(text::SpanView) -> nat,
) -> bool {
    forall|i: int| 0 <= i < words.len() ==> (#[trigger] words[i]).width == cells(words[i].span)
}

proof fn lemma_line_is_counted(
    words: Seq<layout::MeasuredSpanView>,
    cells: spec_fn(text::SpanView) -> nat,
    width: nat,
)
    requires
        all_measured_by(words, cells),
    ensures
        ({
            let st = layout::with_words(words, width);
            st.width == line_columns(st.spans, cells)
        }),
    decreases words.len(),
{
    let next = layout::with_words(words, width);
    if words.len() > 0 {
        let init = words.drop_last();
        let word = words.last();
        assert forall|i: int| 0 <= i < init.len() implies (#[trigger] init[i]).width == cells(
            init[i].span,
        ) by {
            assert(init[i] == words[i]);
        }
        lemma_line_is_counted(init, cells, width);
        let st = layout::with_words(init, width);
        assert(words[words.len() - 1].width == cells(words[words.len() - 1].span));
        let one = seq![word.span];
        let space = text::raw_span(seq![' ']);
        assert(one.drop_last() == Seq::<text::SpanView>::empty());
        assert(line_columns(one.drop_last(), cells) == 0);
        assert(one.last() == word.span);
        assert(st.spans.push(word.span).drop_last() == st.spans);
        assert(st.spans.push(space).drop_last() == st.spans);
        assert(st.spans.push(space).last().content == seq![' ']);
        if is_gap(word) {
            assert(next.spans == st.spans || next.spans == st.spans.push(space));
        } else {
            assert(word.span.content != seq![' ']);
            assert(line_columns(one, cells) == cells(word.span));
            assert(line_columns(st.spans.push(word.span), cells) == st.width + cells(word.span));
        }
    }
}

/// A word more changes nothing of the lines before the last. A space goes to the end
/// of the last line if there is something on it and a column is left, and is left out
/// otherwise. Any other word goes to the end of the last line if that takes no columns
/// yet or has room for it; otherwise it starts a line of its own, and the last one
/// gives up a space at its end.
pub proof fn law_next_word(
    words: Seq<layout::MeasuredSpanView>,
    word: layout::MeasuredSpanView,
    cells: spec_fn(text::SpanView) -> nat,
    width: nat,
)
    requires
        all_measured_by(words, cells),
    ensures
        layout::laid_out(Seq::<layout::MeasuredSpanView>::empty(), width) == seq![
            Seq::<text::SpanView>::empty(),
        ],
        ({
            let before = layout::laid_out(words, width);
            let after = layout::laid_out(words.push(word), width);
            let last = before.last();
            let used = line_columns(last, cells);
            let kept = if last.len() > 0 && last.last().content == seq![' '] {
                last.drop_last()
            } else {
                last
            };
            &&& before.len() > 0
            &&& if is_gap(word) {
                if last.len() > 0 && used < width {
                    after == before.drop_last().push(last.push(text::raw_span(seq![' '])))
                } else {
                    after == before
                }
            } else if used == 0 || used + word.width <= width {
                after == before.drop_last().push(last.push(word.span))
            } else {
                after == before.drop_last().push(kept).push(seq![word.span])
            }
        }),
{
    let all = words.push(word);
    assert(all.drop_last() == words);
    assert(all.last() == word);
    lemma_no_spans_no_lines(words, width);
    lemma_line_is_counted(words, cells, width);
    let st = layout::with_words(words, width);
    let next = layout::with_words(all, width);
    let before = layout::laid_out(words, width);
    let after = layout::laid_out(all, width);
    let none = Seq::<text::SpanView>::empty();
    assert(before == st.lines.push(st.spans)) by {
        if st.spans.len() == 0 {
            assert(st.spans == none);
            assert(st.lines.push(st.spans) == seq![none]);
        }
    }
    assert(before.drop_last() == st.lines);
    assert(before.last() == st.spans);
    if next.spans.len() > 0 {
        assert(after == next.lines.push(next.spans));
    } else {
        assert(next == st);
    }
}

} // verus!
