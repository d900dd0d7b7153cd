//! Laws of inline markup, said of the characters of the text: what closes what, what
//! is shown of it, and what is not markup at all.
use vstd::prelude::*;

use crate::chars;
use crate::laws::inline_text;
use crate::markup;
use crate::style::{RenderOptions, Style, BOLD, CROSSED_OUT, ITALIC};
use crate::text;

verus! {

/// Whether `piece` stands in `s` at position `j`.
pub open spec fn stands_at(s: Seq<char>, piece: Seq<char>, j: int) -> bool {
    &&& 0 <= j && j + piece.len() <= s.len()
    &&& forall|i: int| 0 <= i < piece.len() ==> s[j + i] == #[trigger] piece[i]
}

/// Whether `piece` stands in `s` nowhere from position `from` up to before `to`.
pub open spec fn is_absent(s: Seq<char>, piece: Seq<char>, from: int, to: int) -> bool {
    forall|j: int| from <= j < to ==> !#[trigger] stands_at(s, piece, j)
}

/// Whether something that may be markup stands in `s` at position `j`.
pub open spec fn marks_at(s: Seq<char>, j: int) -> bool {
    &&& 0 <= j < s.len()
    &&& {
        ||| s[j] == '*' || s[j] == '_' || s[j] == '`' || s[j] == '['
        ||| stands_at(s, seq!['~', '~'], j)
        ||| stands_at(s, seq!['h', 't', 't', 'p', ':', '/', '/'], j)
        ||| stands_at(s, seq!['h', 't', 't', 'p', 's', ':', '/', '/'], j)
    }
}

proof fn lemma_prefix(s: Seq<char>, piece: Seq<char>, j: int)
    requires
        0 <= j <= s.len(),
    ensures
        piece.is_prefix_of(s.skip(j)) <==> stands_at(s, piece, j),
{
    let t = s.skip(j);
    if piece.is_prefix_of(t) {
        assert forall|i: int| 0 <= i < piece.len() implies s[j + i] == #[trigger] piece[i] by {
            assert(t.subrange(0, piece.len() as int)[i] == piece[i]);
        }
    }
    if stands_at(s, piece, j) {
        assert(t.subrange(0, piece.len() as int) == piece) by {
            assert forall|i: int| 0 <= i < piece.len() implies t.subrange(
                0,
                piece.len() as int,
            )[i] == piece[i] by {
                assert(t[i] == s[j + i]);
            }
        }
    }
}

/// Inline markup starts at one of `*`, `_`, a backquote and `[`, at `~~`, and at the
/// start of a URL, and nowhere else.
pub proof fn law_markers(s: Seq<char>, j: int)
    requires
        0 <= j <= s.len(),
    ensures
        markup::is_marker(s.skip(j)) <==> marks_at(s, j),
{
    lemma_prefix(s, seq!['~', '~'], j);
    lemma_prefix(s, seq!['h', 't', 't', 'p', ':', '/', '/'], j);
    lemma_prefix(s, seq!['h', 't', 't', 'p', 's', ':', '/', '/'], j);
    if j < s.len() {
        assert(s.skip(j)[0] == s[j]);
    }
    if stands_at(s, seq!['~', '~'], j) {
        assert(j < s.len());
    }
}

proof fn lemma_first(inner: Seq<char>, delimiter: Seq<char>, rest: Seq<char>)
    requires
        delimiter.len() > 0,
        is_absent(inner + delimiter + rest, delimiter, 0, inner.len() as int),
    ensures
        chars::first_match(inner + delimiter + rest, delimiter) == Some(inner.len()),
{
    let s = inner + delimiter + rest;
    lemma_stands_between(inner, delimiter, rest);
    lemma_first_stands(s, delimiter, inner.len() as int);
}

proof fn lemma_stands_between(inner: Seq<char>, delimiter: Seq<char>, rest: Seq<char>)
    ensures
        stands_at(inner + delimiter + rest, delimiter, inner.len() as int),
{
    let s = inner + delimiter + rest;
    let n = inner.len() as int;
    assert forall|i: int| 0 <= i < delimiter.len() implies s[n + i] == #[trigger] delimiter[i] by {}
}

/// The first place at which a piece stands is where it is found.
proof fn lemma_first_stands(s: Seq<char>, piece: Seq<char>, n: int)
    requires
        stands_at(s, piece, n),
        is_absent(s, piece, 0, n),
    ensures
        chars::first_match(s, piece) == Some(n as nat),
{
    chars::lemma_first_match(s, piece);
    lemma_prefix(s, piece, n);
    match chars::first_match(s, piece) {
        Some(m) => {
            lemma_prefix(s, piece, m as int);
            assert(stands_at(s, piece, m as int));
            if n < m {
                assert(!piece.is_prefix_of(s.skip(n)));
            }
        },
        None => {
            assert(!piece.is_prefix_of(s.skip(n)));
        },
    }
}

proof fn lemma_none(s: Seq<char>, delimiter: Seq<char>)
    requires
        delimiter.len() > 0,
        is_absent(s, delimiter, delimiter.len() as int, s.len() as int),
    ensures
        markup::enclosed(s, delimiter) is None,
{
    let d = delimiter.len() as int;
    if delimiter.is_prefix_of(s) {
        let rest = s.skip(d);
        chars::lemma_first_match(rest, delimiter);
        if let Some(n) = chars::first_match(rest, delimiter) {
            lemma_prefix(rest, delimiter, n as int);
            assert forall|i: int| 0 <= i < delimiter.len() implies s[d + n + i]
                == #[trigger] delimiter[i] by {
                assert(rest[n + i] == s[d + n + i]);
            }
            assert(stands_at(s, delimiter, d + n));
        }
    }
}

/// A text that does not start with the delimiter has nothing enclosed in it.
proof fn lemma_not_started(s: Seq<char>, delimiter: Seq<char>)
    requires
        s.len() > 0,
        delimiter.len() > 0,
        !stands_at(s, delimiter, 0),
    ensures
        markup::enclosed(s, delimiter) is None,
        !delimiter.is_prefix_of(s),
{
    lemma_prefix(s, delimiter, 0);
    assert(s.skip(0) == s);
}

/// No text has no spans.
pub proof fn law_no_text(base_style: Style, link_style: Style, options: RenderOptions)
    ensures
        markup::inline_spans(Seq::<char>::empty(), base_style, link_style, options) == Seq::<
            text::SpanView,
        >::empty(),
{
}

// ---------------------------------------------------------------------------
// Delimiters

/// Text between `**` or `__` and the next one is bold, and the delimiters are not
/// shown.
pub proof fn law_bold(
    c: char,
    inner: Seq<char>,
    rest: Seq<char>,
    base_style: Style,
    link_style: Style,
    options: RenderOptions,
)
    requires
        c == '*' || c == '_',
        is_absent(inner + seq![c, c] + rest, seq![c, c], 0, inner.len() as int),
    ensures
        markup::inline_spans(
            seq![c, c] + inner + seq![c, c] + rest,
            base_style,
            link_style,
            options,
        ) == seq![
            text::SpanView { content: inner, style: base_style.add_modifier(BOLD) },
        ] + markup::inline_spans(rest, base_style, link_style, options),
{
    lemma_first(inner, seq![c, c], rest);
    if c == '*' {
        inline_text::law_bold_stars(inner, rest, base_style, link_style, options);
    } else {
        inline_text::law_bold_underscores(inner, rest, base_style, link_style, options);
    }
}

/// Text between a single `*` or `_` and the next one is italic, and the delimiters
/// are not shown.
pub proof fn law_italic(
    c: char,
    inner: Seq<char>,
    rest: Seq<char>,
    base_style: Style,
    link_style: Style,
    options: RenderOptions,
)
    requires
        c == '*' || c == '_',
        inner.len() > 0,
        !inner.contains(c),
    ensures
        markup::inline_spans(seq![c] + inner + seq![c] + rest, base_style, link_style, options)
            == seq![
            text::SpanView { content: inner, style: base_style.add_modifier(ITALIC) },
        ] + markup::inline_spans(rest, base_style, link_style, options),
{
    lemma_lacking(inner, c, rest);
    lemma_first(inner, seq![c], rest);
    if c == '*' {
        inline_text::law_italic_stars(inner, rest, base_style, link_style, options);
    } else {
        inline_text::law_italic_underscores(inner, rest, base_style, link_style, options);
    }
}

proof fn lemma_lacking(inner: Seq<char>, c: char, rest: Seq<char>)
    requires
        !inner.contains(c),
    ensures
        is_absent(inner + seq![c] + rest, seq![c], 0, inner.len() as int),
{
    let s = inner + seq![c] + rest;
    assert forall|j: int| 0 <= j < inner.len() implies !#[trigger] stands_at(s, seq![c], j) by {
        if stands_at(s, seq![c], j) {
            assert(seq![c][0] == c);
            assert(inner[j] == c);
            assert(inner.contains(inner[j]));
        }
    }
}

/// Text between a backquote and the next one is inline code, and the backquotes are
/// not shown.
pub proof fn law_code(
    inner: Seq<char>,
    rest: Seq<char>,
    base_style: Style,
    link_style: Style,
    options: RenderOptions,
)
    requires
        !inner.contains('`'),
    ensures
        markup::inline_spans(seq!['`'] + inner + seq!['`'] + rest, base_style, link_style, options)
            == seq![
            text::SpanView {
                content: inner,
                style: base_style.add_modifier(ITALIC).bg(options.palette.surface_elevated),
            },
        ] + markup::inline_spans(rest, base_style, link_style, options),
{
    lemma_lacking(inner, '`', rest);
    lemma_first(inner, seq!['`'], rest);
    inline_text::law_inline_code(inner, rest, base_style, link_style, options);
}

/// Text between `~~` and the next one is crossed out, and the delimiters are not
/// shown.
pub proof fn law_struck(
    inner: Seq<char>,
    rest: Seq<char>,
    base_style: Style,
    link_style: Style,
    options: RenderOptions,
)
    requires
        is_absent(inner + seq!['~', '~'] + rest, seq!['~', '~'], 0, inner.len() as int),
    ensures
        markup::inline_spans(
            seq!['~', '~'] + inner + seq!['~', '~'] + rest,
            base_style,
            link_style,
            options,
        ) == seq![
            text::SpanView { content: inner, style: base_style.add_modifier(CROSSED_OUT) },
        ] + markup::inline_spans(rest, base_style, link_style, options),
{
    lemma_first(inner, seq!['~', '~'], rest);
    inline_text::law_strikethrough(inner, rest, base_style, link_style, options);
}

// ---------------------------------------------------------------------------
// Links

/// A link is shown with all of its label and all of its URL: as an escape sequence
/// with the one for its label and the other for its target if OSC 8 links are
/// switched on, else as the label and, in brackets, the URL.
pub proof fn law_link(
    label: Seq<char>,
    url: Seq<char>,
    rest: Seq<char>,
    base_style: Style,
    link_style: Style,
    options: RenderOptions,
)
    requires
        !label.contains(']'),
        !url.contains(')'),
    ensures
        markup::inline_spans(
            seq!['['] + label + seq![']', '('] + url + seq![')'] + rest,
            base_style,
            link_style,
            options,
        ) == seq![
            text::SpanView {
                content: if options.osc8 {
                    seq!['\u{1b}', ']', '8', ';', ';'] + url + seq!['\u{1b}', '\\'] + label + seq![
                        '\u{1b}',
                        ']',
                        '8',
                        ';',
                        ';',
                        '\u{1b}',
                        '\\',
                    ]
                } else {
                    label + seq![' ', '('] + url + seq![')']
                },
                style: link_style,
            },
        ] + markup::inline_spans(rest, base_style, link_style, options),
{
    inline_text::law_links(label, url, rest, base_style, link_style, options);
}

/// A link as an escape sequence: its target between the introducer and the
/// terminator, its label, and the sequence without a target that ends it.
pub proof fn law_escape_sequence(target: Seq<char>, label: Seq<char>)
    ensures
        markup::osc8_link(target, label) == "\u{1b}]8;;"@ + target + "\u{1b}\\"@ + label
            + "\u{1b}]8;;\u{1b}\\"@,
{
    reveal_strlit("\u{1b}]8;;");
    reveal_strlit("\u{1b}\\");
    reveal_strlit("\u{1b}]8;;\u{1b}\\");
    assert("\u{1b}]8;;"@ == seq!['\u{1b}', ']', '8', ';', ';']);
    assert("\u{1b}\\"@ == seq!['\u{1b}', '\\']);
    assert("\u{1b}]8;;\u{1b}\\"@ == seq!['\u{1b}', ']', '8', ';', ';', '\u{1b}', '\\']);
}

/// A bare URL, up to the next white space, is shown in full: as an escape sequence
/// with itself for target and label if OSC 8 links are switched on, else as it
/// stands.
pub proof fn law_bare_url(
    url: Seq<char>,
    rest: Seq<char>,
    base_style: Style,
    link_style: Style,
    options: RenderOptions,
)
    requires
        stands_at(url, seq!['h', 't', 't', 'p', ':', '/', '/'], 0) || stands_at(
            url,
            seq!['h', 't', 't', 'p', 's', ':', '/', '/'],
            0,
        ),
        forall|j: int| 0 <= j < url.len() ==> !chars::is_white_space(#[trigger] url[j]),
        rest.len() > 0 ==> chars::is_white_space(rest[0]),
    ensures
        markup::inline_spans(url + rest, base_style, link_style, options) == seq![
            text::SpanView {
                content: if options.osc8 {
                    seq!['\u{1b}', ']', '8', ';', ';'] + url + seq!['\u{1b}', '\\'] + url + seq![
                        '\u{1b}',
                        ']',
                        '8',
                        ';',
                        ';',
                        '\u{1b}',
                        '\\',
                    ]
                } else {
                    url
                },
                style: link_style,
            },
        ] + markup::inline_spans(rest, base_style, link_style, options),
{
    lemma_prefix(url, seq!['h', 't', 't', 'p', ':', '/', '/'], 0);
    lemma_prefix(url, seq!['h', 't', 't', 'p', 's', ':', '/', '/'], 0);
    assert(url.skip(0) == url);
    inline_text::law_bare_urls(url, rest, base_style, link_style, options);
}

// ---------------------------------------------------------------------------
// Text

/// Text up to the next marker, or to the end, is shown as it stands, in the base
/// style and in one piece.
pub proof fn law_text(
    plain: Seq<char>,
    rest: Seq<char>,
    base_style: Style,
    link_style: Style,
    options: RenderOptions,
)
    requires
        plain.len() > 0,
        forall|j: int| 0 <= j < plain.len() ==> !#[trigger] marks_at(plain + rest, j),
        rest.len() > 0 ==> marks_at(plain + rest, plain.len() as int),
    ensures
        markup::inline_spans(plain + rest, base_style, link_style, options) == seq![
            text::SpanView { content: plain, style: base_style },
        ] + markup::inline_spans(rest, base_style, link_style, options),
{
    let s = plain + rest;
    let n = plain.len() as int;
    assert(!marks_at(s, 0));
    law_markers(s, 0);
    assert(s.skip(0) == s);
    lemma_untouched(s);
    markup::lemma_next_marker(s);
    let m = markup::next_marker(s) as int;
    if m < n {
        law_markers(s, m);
        assert(marks_at(s, m));
    } else if m > n {
        law_markers(s, n);
        assert(!markup::is_marker(s.skip(n)));
    }
    assert(s.take(n) == plain);
    assert(s.skip(n) == rest);
}

/// A text that no marker starts holds none of the inline tokens at its start.
proof fn lemma_untouched(s: Seq<char>)
    requires
        s.len() > 0,
        !markup::is_marker(s),
    ensures
        markup::enclosed(s, seq!['*', '*']) is None,
        markup::enclosed(s, seq!['_', '_']) is None,
        markup::enclosed(s, seq!['*']) is None,
        markup::enclosed(s, seq!['_']) is None,
        markup::enclosed(s, seq!['`']) is None,
        markup::enclosed(s, seq!['~', '~']) is None,
        markup::link_of(s) is None,
        !markup::is_url_start(s),
{
    lemma_other_start(s);
}

/// Delimiters that the text does not start with enclose nothing.
proof fn lemma_other_start(s: Seq<char>)
    requires
        s.len() > 0,
    ensures
        s[0] != '*' ==> markup::enclosed(s, seq!['*', '*']) is None && markup::enclosed(
            s,
            seq!['*'],
        ) is None && !seq!['*', '*'].is_prefix_of(s),
        s[0] != '_' ==> markup::enclosed(s, seq!['_', '_']) is None && markup::enclosed(
            s,
            seq!['_'],
        ) is None && !seq!['_', '_'].is_prefix_of(s),
        s[0] != '`' ==> markup::enclosed(s, seq!['`']) is None,
        s[0] != '~' ==> markup::enclosed(s, seq!['~', '~']) is None,
        s[0] != 'h' ==> !markup::is_url_start(s),
        s[0] != '[' ==> markup::link_of(s) is None,
{
    let two_stars = seq!['*', '*'];
    let two_lows = seq!['_', '_'];
    let star = seq!['*'];
    let low = seq!['_'];
    let quote = seq!['`'];
    let tildes = seq!['~', '~'];
    let http = seq!['h', 't', 't', 'p', ':', '/', '/'];
    let https = seq!['h', 't', 't', 'p', 's', ':', '/', '/'];
    if s[0] != '*' {
        assert(!stands_at(s, two_stars, 0)) by {
            assert(two_stars[0] == '*');
        }
        assert(!stands_at(s, star, 0)) by {
            assert(star[0] == '*');
        }
        lemma_not_started(s, two_stars);
        lemma_not_started(s, star);
    }
    if s[0] != '_' {
        assert(!stands_at(s, two_lows, 0)) by {
            assert(two_lows[0] == '_');
        }
        assert(!stands_at(s, low, 0)) by {
            assert(low[0] == '_');
        }
        lemma_not_started(s, two_lows);
        lemma_not_started(s, low);
    }
    if s[0] != '`' {
        assert(!stands_at(s, quote, 0)) by {
            assert(quote[0] == '`');
        }
        lemma_not_started(s, quote);
    }
    if s[0] != '~' {
        assert(!stands_at(s, tildes, 0)) by {
            assert(tildes[0] == '~');
        }
        lemma_not_started(s, tildes);
    }
    if s[0] != 'h' {
        assert(!stands_at(s, http, 0)) by {
            assert(http[0] == 'h');
        }
        assert(!stands_at(s, https, 0)) by {
            assert(https[0] == 'h');
        }
        lemma_not_started(s, http);
        lemma_not_started(s, https);
    }
}

/// One character of text at a marker that leads nowhere.
proof fn lemma_lone(s: Seq<char>, base_style: Style, link_style: Style, options: RenderOptions)
    requires
        s.len() > 0,
        markup::is_marker(s),
        markup::enclosed(s, seq!['*', '*']) is None,
        markup::enclosed(s, seq!['_', '_']) is None,
        markup::enclosed(s, seq!['*']) is None || seq!['*', '*'].is_prefix_of(s),
        markup::enclosed(s, seq!['_']) is None || seq!['_', '_'].is_prefix_of(s),
        markup::enclosed(s, seq!['`']) is None,
        markup::enclosed(s, seq!['~', '~']) is None,
        markup::link_of(s) is None,
        !markup::is_url_start(s),
    ensures
        markup::inline_spans(s, base_style, link_style, options) == seq![
            text::SpanView { content: seq![s[0]], style: base_style },
        ] + markup::inline_spans(s.skip(1), base_style, link_style, options),
{
    assert(markup::next_marker(s) == 0);
    assert(s.take(1) == seq![s[0]]);
}

/// A delimiter that is not closed is text: its first character is shown as it
/// stands, and what follows is read by itself.
pub proof fn law_unclosed(
    s: Seq<char>,
    base_style: Style,
    link_style: Style,
    options: RenderOptions,
)
    requires
        s.len() > 0,
        ({
            let n = s.len() as int;
            ||| (s[0] == '*' || s[0] == '_') && stands_at(s, seq![s[0], s[0]], 0) && is_absent(
                s,
                seq![s[0], s[0]],
                2,
                n,
            )
            ||| (s[0] == '*' || s[0] == '_') && !stands_at(s, seq![s[0], s[0]], 0) && is_absent(
                s,
                seq![s[0]],
                1,
                n,
            )
            ||| s[0] == '`' && is_absent(s, seq!['`'], 1, n)
            ||| stands_at(s, seq!['~', '~'], 0) && is_absent(s, seq!['~', '~'], 2, n)
        }),
    ensures
        markup::inline_spans(s, base_style, link_style, options) == seq![
            text::SpanView { content: seq![s[0]], style: base_style },
        ] + markup::inline_spans(s.skip(1), base_style, link_style, options),
{
    let tildes = seq!['~', '~'];
    if stands_at(s, tildes, 0) {
        assert(tildes[0] == '~');
    }
    law_markers(s, 0);
    assert(s.skip(0) == s);
    assert(marks_at(s, 0));
    lemma_other_start(s);
    if s[0] == '*' || s[0] == '_' {
        let two = seq![s[0], s[0]];
        let one = seq![s[0]];
        lemma_prefix(s, two, 0);
        if stands_at(s, two, 0) {
            lemma_none(s, two);
        } else {
            lemma_none(s, one);
            lemma_not_started(s, two);
        }
    } else if s[0] == '`' {
        lemma_none(s, seq!['`']);
    } else {
        lemma_none(s, tildes);
    }
    lemma_lone(s, base_style, link_style, options);
}

proof fn lemma_no_link(label: Seq<char>, rest: Seq<char>)
    requires
        !label.contains(']'),
        rest.len() > 0 ==> {
            &&& rest[0] == ']'
            &&& rest.len() > 1 && rest[1] == '(' ==> !rest.skip(1).contains(')')
        },
    ensures
        markup::link_of(seq!['['] + label + rest) is None,
{
    let s = seq!['['] + label + rest;
    chars::lemma_first_index(s, ']');
    let b = chars::first_index(s, ']') as int;
    let k = 1 + label.len() as int;
    if b < k {
        assert(s[b] == label[b - 1]);
        assert(label.contains(label[b - 1]));
    }
    if rest.len() > 0 {
        assert(s[k] == ']');
        assert(b == k);
        let after = s.skip(b + 1);
        assert(after == rest.skip(1));
        chars::lemma_first_index(after, ')');
        let p = chars::first_index(after, ')') as int;
        if p < after.len() && after[0] == '(' {
            assert(after.contains(after[p]));
        }
    }
}

/// A bracket that starts no link is text: no bracket closes it, or what follows
/// the closing bracket is not a URL in round brackets.
pub proof fn law_no_link(
    label: Seq<char>,
    rest: Seq<char>,
    base_style: Style,
    link_style: Style,
    options: RenderOptions,
)
    requires
        !label.contains(']'),
        rest.len() > 0 ==> {
            &&& rest[0] == ']'
            &&& rest.len() > 1 && rest[1] == '(' ==> !rest.skip(1).contains(')')
        },
    ensures
        markup::inline_spans(seq!['['] + label + rest, base_style, link_style, options) == seq![
            text::SpanView { content: seq!['['], style: base_style },
        ] + markup::inline_spans(label + rest, base_style, link_style, options),
{
    let s = seq!['['] + label + rest;
    assert(s[0] == '[');
    law_markers(s, 0);
    assert(s.skip(0) == s);
    lemma_other_start(s);
    lemma_no_link(label, rest);
    lemma_lone(s, base_style, link_style, options);
    assert(s.skip(1) == label + rest);
}

} // verus!
