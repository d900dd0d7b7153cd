//! Laws of inline markup.
use vstd::prelude::*;

use crate::chars;
use crate::markup;
use crate::style::{RenderOptions, Style, BOLD, CROSSED_OUT, ITALIC};
use crate::text;

verus! {

/// Text without any marker is shown as it stands, in the base style.
pub proof fn law_plain_text(
    s: Seq<char>,
    base_style: Style,
    link_style: Style,
    options: RenderOptions,
)
    requires
        s.len() > 0,
        markup::next_marker(s) == s.len(),
    ensures
        markup::inline_spans(s, base_style, link_style, options) == seq![
            text::SpanView { content: s, style: base_style },
        ],
{
    markup::lemma_next_marker(s);
    assert(s.skip(0) == s);
    assert(!markup::is_marker(s));
    lemma_no_delimiter(s, seq!['*', '*']);
    lemma_no_delimiter(s, seq!['_', '_']);
    lemma_no_delimiter(s, seq!['*']);
    lemma_no_delimiter(s, seq!['_']);
    lemma_no_delimiter(s, seq!['`']);
    assert(s.take(s.len() as int) == s);
    let rest = s.skip(s.len() as int);
    let spans = seq![text::SpanView { content: s, style: base_style }];
    assert(markup::inline_spans(rest, base_style, link_style, options) == Seq::<
        text::SpanView,
    >::empty());
    assert(spans + Seq::<text::SpanView>::empty() == spans);
}

proof fn lemma_no_delimiter(s: Seq<char>, delimiter: Seq<char>)
    requires
        delimiter.len() > 0,
        s.len() > 0,
        s[0] != delimiter[0],
    ensures
        !delimiter.is_prefix_of(s),
{
}

/// What stands between the delimiter at the start and the next one is enclosed,
/// and the text goes on behind the second.
proof fn lemma_enclosed_text(inner: Seq<char>, delimiter: Seq<char>, rest: Seq<char>)
    requires
        delimiter.len() > 0,
        chars::first_match(inner + delimiter + rest, delimiter) == Some(inner.len()),
    ensures
        ({
            let s = delimiter + inner + delimiter + rest;
            &&& delimiter.is_prefix_of(s)
            &&& markup::enclosed(s, delimiter) == Some(inner)
            &&& s.skip((inner.len() + 2 * delimiter.len()) as int) == rest
            &&& s[0] == delimiter[0]
        }),
{
    let d = delimiter.len() as int;
    let s = delimiter + inner + delimiter + rest;
    assert(s.take(d) == delimiter);
    assert(s.skip(d) == inner + delimiter + rest);
    assert(s.subrange(d, d + inner.len()) == inner);
    assert(s.skip((inner.len() + 2 * delimiter.len()) as int) == rest);
}

/// Text between two `**` is shown in bold, without the markers.
pub proof fn law_bold_stars(
    inner: Seq<char>,
    rest: Seq<char>,
    base_style: Style,
    link_style: Style,
    options: RenderOptions,
)
    requires
        chars::first_match(inner + seq!['*', '*'] + rest, seq!['*', '*']) == Some(inner.len()),
    ensures
        markup::inline_spans(
            seq!['*', '*'] + inner + seq!['*', '*'] + rest,
            base_style,
            link_style,
            options,
        ) == seq![
            text::SpanView { content: inner, style: base_style.add_modifier(BOLD) },
        ] + markup::inline_spans(rest, base_style, link_style, options),
{
    lemma_enclosed_text(inner, seq!['*', '*'], rest);
}

/// Text between two `__` is shown in bold, without the markers.
pub proof fn law_bold_underscores(
    inner: Seq<char>,
    rest: Seq<char>,
    base_style: Style,
    link_style: Style,
    options: RenderOptions,
)
    requires
        chars::first_match(inner + seq!['_', '_'] + rest, seq!['_', '_']) == Some(inner.len()),
    ensures
        markup::inline_spans(
            seq!['_', '_'] + inner + seq!['_', '_'] + rest,
            base_style,
            link_style,
            options,
        ) == seq![
            text::SpanView { content: inner, style: base_style.add_modifier(BOLD) },
        ] + markup::inline_spans(rest, base_style, link_style, options),
{
    let s = seq!['_', '_'] + inner + seq!['_', '_'] + rest;
    lemma_enclosed_text(inner, seq!['_', '_'], rest);
    lemma_no_delimiter(s, seq!['*', '*']);
}

/// Text between two `*` is shown in italics, without the markers.
pub proof fn law_italic_stars(
    inner: Seq<char>,
    rest: Seq<char>,
    base_style: Style,
    link_style: Style,
    options: RenderOptions,
)
    requires
        inner.len() > 0,
        chars::first_match(inner + seq!['*'] + rest, seq!['*']) == Some(inner.len()),
    ensures
        markup::inline_spans(
            seq!['*'] + inner + seq!['*'] + rest,
            base_style,
            link_style,
            options,
        ) == seq![
            text::SpanView { content: inner, style: base_style.add_modifier(ITALIC) },
        ] + markup::inline_spans(rest, base_style, link_style, options),
{
    let s = seq!['*'] + inner + seq!['*'] + rest;
    lemma_enclosed_text(inner, seq!['*'], rest);
    lemma_single_delimiter(inner, '*', rest);
    lemma_no_delimiter(s, seq!['_', '_']);
}

/// Text between two `_` is shown in italics, without the markers.
pub proof fn law_italic_underscores(
    inner: Seq<char>,
    rest: Seq<char>,
    base_style: Style,
    link_style: Style,
    options: RenderOptions,
)
    requires
        inner.len() > 0,
        chars::first_match(inner + seq!['_'] + rest, seq!['_']) == Some(inner.len()),
    ensures
        markup::inline_spans(
            seq!['_'] + inner + seq!['_'] + rest,
            base_style,
            link_style,
            options,
        ) == seq![
            text::SpanView { content: inner, style: base_style.add_modifier(ITALIC) },
        ] + markup::inline_spans(rest, base_style, link_style, options),
{
    let s = seq!['_'] + inner + seq!['_'] + rest;
    lemma_enclosed_text(inner, seq!['_'], rest);
    lemma_single_delimiter(inner, '_', rest);
    lemma_no_delimiter(s, seq!['*', '*']);
    lemma_no_delimiter(s, seq!['*']);
}

/// A delimiter that the text inside does not start with is not doubled.
proof fn lemma_single_delimiter(inner: Seq<char>, c: char, rest: Seq<char>)
    requires
        inner.len() > 0,
        chars::first_match(inner + seq![c] + rest, seq![c]) == Some(inner.len()),
    ensures
        !seq![c, c].is_prefix_of(seq![c] + inner + seq![c] + rest),
{
    let t = inner + seq![c] + rest;
    let s = seq![c] + inner + seq![c] + rest;
    chars::lemma_first_match(t, seq![c]);
    assert(t.skip(0) == t);
    assert(!seq![c].is_prefix_of(t));
    if seq![c, c].is_prefix_of(s) {
        assert(s.take(2)[1] == c);
        assert(s[1] == t[0]);
        assert(t.take(1) == seq![c]);
    }
}

/// Text between two backquotes is shown as code, without the markers.
pub proof fn law_inline_code(
    inner: Seq<char>,
    rest: Seq<char>,
    base_style: Style,
    link_style: Style,
    options: RenderOptions,
)
    requires
        chars::first_match(inner + seq!['`'] + rest, seq!['`']) == Some(inner.len()),
    ensures
        markup::inline_spans(
            seq!['`'] + inner + seq!['`'] + rest,
            base_style,
            link_style,
            options,
        ) == seq![
            text::SpanView {
                content: inner,
                style: base_style.add_modifier(ITALIC).bg(options.palette.surface_elevated),
            },
        ] + markup::inline_spans(rest, base_style, link_style, options),
{
    let s = seq!['`'] + inner + seq!['`'] + rest;
    lemma_enclosed_text(inner, seq!['`'], rest);
    lemma_no_delimiter(s, seq!['*', '*']);
    lemma_no_delimiter(s, seq!['*']);
    lemma_no_delimiter(s, seq!['_', '_']);
    lemma_no_delimiter(s, seq!['_']);
}

/// Text between two `~~` is shown crossed out, without the markers.
pub proof fn law_strikethrough(
    inner: Seq<char>,
    rest: Seq<char>,
    base_style: Style,
    link_style: Style,
    options: RenderOptions,
)
    requires
        chars::first_match(inner + seq!['~', '~'] + rest, seq!['~', '~']) == Some(inner.len()),
    ensures
        markup::inline_spans(
            seq!['~', '~'] + inner + seq!['~', '~'] + rest,
            base_style,
            link_style,
            options,
        ) == seq![
            text::SpanView { content: inner, style: base_style.add_modifier(CROSSED_OUT) },
        ] + markup::inline_spans(rest, base_style, link_style, options),
{
    let s = seq!['~', '~'] + inner + seq!['~', '~'] + rest;
    lemma_enclosed_text(inner, seq!['~', '~'], rest);
    lemma_no_delimiter(s, seq!['*', '*']);
    lemma_no_delimiter(s, seq!['*']);
    lemma_no_delimiter(s, seq!['_', '_']);
    lemma_no_delimiter(s, seq!['_']);
    lemma_no_delimiter(s, seq!['`']);
}

/// A link `[label](url)` is shown in the link style: as an OSC 8 link if those are
/// switched on, else as the label with the URL in brackets.
pub proof fn law_links(
    label: Seq<char>,
    url: Seq<char>,
    rest: Seq<char>,
    base_style: Style,
    link_style: Style,
    options: RenderOptions,
)
    requires
        !label.contains(']'),
        !url.contains(')'),
    ensures
        markup::inline_spans(
            seq!['['] + label + seq![']', '('] + url + seq![')'] + rest,
            base_style,
            link_style,
            options,
        ) == seq![
            text::SpanView {
                content: markup::link_text(label, url, options.osc8),
                style: link_style,
            },
        ] + markup::inline_spans(rest, base_style, link_style, options),
{
    let s = seq!['['] + label + seq![']', '('] + url + seq![')'] + rest;
    let b = label.len() as int + 1;
    lemma_no_delimiter(s, seq!['*', '*']);
    lemma_no_delimiter(s, seq!['*']);
    lemma_no_delimiter(s, seq!['_', '_']);
    lemma_no_delimiter(s, seq!['_']);
    lemma_no_delimiter(s, seq!['`']);
    lemma_no_delimiter(s, seq!['~', '~']);
    assert forall|j: int| 0 <= j < b implies s[j] != ']' by {
        if j > 0 {
            assert(s[j] == label[j - 1]);
            assert(label.contains(label[j - 1]));
        }
    }
    lemma_index_is(s, ']', b);
    let after = s.skip(b + 1);
    assert(after == seq!['('] + url + seq![')'] + rest);
    let p = url.len() as int + 1;
    assert forall|j: int| 0 <= j < p implies after[j] != ')' by {
        if j > 0 {
            assert(after[j] == url[j - 1]);
            assert(url.contains(url[j - 1]));
        }
    }
    lemma_index_is(after, ')', p);
    assert(s.subrange(1, b) == label);
    assert(after.subrange(1, p) == url);
    assert(s.skip((label.len() + url.len() + 4) as int) == rest);
}

proof fn lemma_index_is(s: Seq<char>, c: char, n: int)
    requires
        0 <= n < s.len(),
        s[n] == c,
        forall|j: int| 0 <= j < n ==> s[j] != c,
    ensures
        chars::first_index(s, c) == n,
{
    chars::lemma_first_index(s, c);
    let m = chars::first_index(s, c) as int;
    if m < n {
        assert(s[m] == c);
    }
}

/// A bare URL reaches up to the next white space, and is shown in the link style:
/// as an OSC 8 link to itself if those are switched on, else as it stands.
pub proof fn law_bare_urls(
    url: Seq<char>,
    rest: Seq<char>,
    base_style: Style,
    link_style: Style,
    options: RenderOptions,
)
    requires
        markup::is_url_start(url),
        forall|j: int| 0 <= j < url.len() ==> !chars::is_white_space(#[trigger] url[j]),
        rest.len() > 0 ==> chars::is_white_space(rest[0]),
    ensures
        markup::inline_spans(url + rest, base_style, link_style, options) == seq![
            text::SpanView { content: markup::url_text(url, options.osc8), style: link_style },
        ] + markup::inline_spans(rest, base_style, link_style, options),
{
    let s = url + rest;
    assert(url[0] == 'h');
    assert(s[0] == 'h');
    let http = seq!['h', 't', 't', 'p', ':', '/', '/'];
    let https = seq!['h', 't', 't', 'p', 's', ':', '/', '/'];
    assert(markup::is_url_start(s)) by {
        if http.is_prefix_of(url) {
            assert(http.is_prefix_of(s));
        } else {
            assert(https.is_prefix_of(s));
        }
    }
    lemma_no_delimiter(s, seq!['*', '*']);
    lemma_no_delimiter(s, seq!['*']);
    lemma_no_delimiter(s, seq!['_', '_']);
    lemma_no_delimiter(s, seq!['_']);
    lemma_no_delimiter(s, seq!['`']);
    lemma_no_delimiter(s, seq!['~', '~']);
    chars::lemma_word_len(s);
    let n = chars::word_len(s) as int;
    assert(n == url.len()) by {
        if n < url.len() {
            assert(s[n] == url[n]);
        } else if n > url.len() {
            assert(s[url.len() as int] == rest[0]);
        }
    }
    assert(s.take(n) == url);
    assert(s.skip(n) == rest);
}

} // verus!
