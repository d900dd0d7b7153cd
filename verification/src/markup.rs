//! Inline markup: `**bold**`, `*italic*`, code, `~~strikethrough~~`,
//! `[text](url)` links and bare URLs.
use vstd::prelude::*;

use crate::chars;
use crate::chars::{
    find, find_char, find_word_end, push_chars, slice_from, slice_to, starts_with, to_chars,
    to_text,
};
use crate::style::{RenderOptions, Style, BOLD, CROSSED_OUT, ITALIC};
use crate::text;
use crate::text::Span;

verus! {

/// Whether `s` starts with `http://` or `https://`.
pub open spec fn is_url_start(s: Seq<char>) -> bool {
    ||| seq!['h', 't', 't', 'p', ':', '/', '/'].is_prefix_of(s)
    ||| seq!['h', 't', 't', 'p', 's', ':', '/', '/'].is_prefix_of(s)
}

/// Whether `s` starts with `http://` or `https://`.
fn starts_with_url(s: &[char]) -> (r: bool)
    ensures
        r == is_url_start(s@),
{
    starts_with(s, &['h', 't', 't', 'p', ':', '/', '/']) || starts_with(
        s,
        &['h', 't', 't', 'p', 's', ':', '/', '/'],
    )
}

/// Whether `s` starts with something that may be inline markup.
pub open spec fn is_marker(s: Seq<char>) -> bool {
    ||| s.len() > 0 && (s[0] == '*' || s[0] == '_' || s[0] == '`' || s[0] == '[')
    ||| seq!['~', '~'].is_prefix_of(s)
    ||| is_url_start(s)
}

/// The position of the first marker in `s`, or the length of `s` if there is
/// none.
pub open spec fn next_marker(s: Seq<char>) -> nat
    decreases s.len(),
{
    if s.len() == 0 || is_marker(s) {
        0
    } else {
        1 + next_marker(s.skip(1))
    }
}

/// Finds the position of the next inline marker in `s`, or the length of `s` if
/// there is none.
pub fn find_next_marker(s: &[char]) -> (r: usize)
    ensures
        r == next_marker(s@),
        r <= s@.len(),
{
    let mut i: usize = 0;
    assert(s@.skip(0) == s@);
    while i < s.len()
        invariant
            i <= s@.len(),
            next_marker(s@) == i + next_marker(s@.skip(i as int)),
        decreases s@.len() - i,
    {
        let rest = slice_from(s, i);
        let c = rest[0];
        if c == '*' || c == '_' || c == '`' || c == '[' || starts_with(rest, &['~', '~'])
            || starts_with_url(rest) {
            return i;
        }
        assert(s@.skip(i as int).skip(1) == s@.skip(i + 1));
        i = i + 1;
    }
    i
}

/// What stands between a delimiter at the start of `s` and the next one.
pub open spec fn enclosed(s: Seq<char>, delimiter: Seq<char>) -> Option<Seq<char>> {
    let d = delimiter.len() as int;
    if delimiter.is_prefix_of(s) {
        match chars::first_match(s.skip(d), delimiter) {
            Some(n) => Some(s.subrange(d, d + n)),
            None => None,
        }
    } else {
        None
    }
}

/// What stands between a delimiter at the start of `s` and the next one.
fn find_enclosed<'a>(s: &'a [char], delimiter: &[char]) -> (r: Option<&'a [char]>)
    ensures
        match r {
            Some(inner) => {
                &&& enclosed(s@, delimiter@) == Some(inner@)
                &&& inner@.len() + 2 * delimiter@.len() <= s@.len()
            },
            None => enclosed(s@, delimiter@) is None,
        },
{
    if !starts_with(s, delimiter) {
        return None;
    }
    let rest = slice_from(s, delimiter.len());
    match find(rest, delimiter) {
        Some(n) => {
            let inner = slice_to(rest, n);
            assert(inner@ == s@.subrange(delimiter@.len() as int, delimiter@.len() + n));
            Some(inner)
        },
        None => None,
    }
}

/// The text and the URL of a link `[text](url)` at the start of `s`.
pub open spec fn link_of(s: Seq<char>) -> Option<(Seq<char>, Seq<char>)> {
    let b = chars::first_index(s, ']') as int;
    let after = s.skip(b + 1);
    let p = chars::first_index(after, ')') as int;
    if s.len() > 0 && s[0] == '[' && b < s.len() && after.len() > 0 && after[0] == '(' && p
        < after.len() {
        Some((s.subrange(1, b), after.subrange(1, p)))
    } else {
        None
    }
}

/// The text and the URL of a link `[text](url)` at the start of `s`.
fn find_link<'a>(s: &'a [char]) -> (r: Option<(&'a [char], &'a [char])>)
    ensures
        match r {
            Some((label, url)) => {
                &&& link_of(s@) == Some((label@, url@))
                &&& label@.len() + url@.len() + 4 <= s@.len()
            },
            None => link_of(s@) is None,
        },
{
    if s.len() == 0 || s[0] != '[' {
        return None;
    }
    let b = find_char(s, ']');
    proof {
        chars::lemma_first_index(s@, ']');
    }
    if b == s.len() {
        return None;
    }
    let after = slice_from(s, b + 1);
    if after.len() == 0 || after[0] != '(' {
        return None;
    }
    let p = find_char(after, ')');
    proof {
        chars::lemma_first_index(after@, ')');
    }
    if p == after.len() {
        return None;
    }
    let label = vstd::slice::slice_subrange(s, 1, b);
    let url = vstd::slice::slice_subrange(after, 1, p);
    Some((label, url))
}

/// A link to `target` shown as `label`, as an OSC 8 escape sequence.
pub open spec fn osc8_link(target: Seq<char>, label: Seq<char>) -> Seq<char> {
    seq!['\u{1b}', ']', '8', ';', ';'] + target + seq!['\u{1b}', '\\'] + label + seq![
        '\u{1b}',
        ']',
        '8',
        ';',
        ';',
        '\u{1b}',
        '\\',
    ]
}

/// A link to `target` shown as `label`, as an OSC 8 escape sequence.
pub fn wrap_link(target: &[char], label: &[char]) -> (r: String)
    ensures
        r@ == osc8_link(target@, label@),
{
    let mut out = to_text(&['\u{1b}', ']', '8', ';', ';']);
    push_chars(&mut out, target);
    push_chars(&mut out, &['\u{1b}', '\\']);
    push_chars(&mut out, label);
    push_chars(&mut out, &['\u{1b}', ']', '8', ';', ';', '\u{1b}', '\\']);
    out
}

/// How a link `[label](url)` is written.
pub open spec fn link_text(label: Seq<char>, url: Seq<char>, osc8: bool) -> Seq<char> {
    if osc8 {
        osc8_link(url, label)
    } else {
        label + seq![' ', '('] + url + seq![')']
    }
}

/// How a bare URL is written.
pub open spec fn url_text(url: Seq<char>, osc8: bool) -> Seq<char> {
    if osc8 {
        osc8_link(url, url)
    } else {
        url
    }
}

/// The first inline token of a text: what is shown, in which style, and how many
/// characters of the text it takes.
pub struct Token {
    pub text: Seq<char>,
    pub style: Style,
    pub used: nat,
}

/// The first inline token of a text that is not empty.
///
/// A delimiter that is not closed is text, and so is a link that is not complete:
/// the character at the start of it is shown as it stands.
pub open spec fn first_token(
    s: Seq<char>,
    base_style: Style,
    link_style: Style,
    options: RenderOptions,
) -> Token {
    let bold = base_style.add_modifier(BOLD);
    let italic = base_style.add_modifier(ITALIC);
    let code = base_style.add_modifier(ITALIC).bg(options.palette.surface_elevated);
    let strike = base_style.add_modifier(CROSSED_OUT);
    if enclosed(s, seq!['*', '*']) is Some {
        let inner = enclosed(s, seq!['*', '*'])->0;
        Token { text: inner, style: bold, used: inner.len() + 4 }
    } else if enclosed(s, seq!['_', '_']) is Some {
        let inner = enclosed(s, seq!['_', '_'])->0;
        Token { text: inner, style: bold, used: inner.len() + 4 }
    } else if enclosed(s, seq!['*']) is Some && !seq!['*', '*'].is_prefix_of(s) {
        let inner = enclosed(s, seq!['*'])->0;
        Token { text: inner, style: italic, used: inner.len() + 2 }
    } else if enclosed(s, seq!['_']) is Some && !seq!['_', '_'].is_prefix_of(s) {
        let inner = enclosed(s, seq!['_'])->0;
        Token { text: inner, style: italic, used: inner.len() + 2 }
    } else if enclosed(s, seq!['`']) is Some {
        let inner = enclosed(s, seq!['`'])->0;
        Token { text: inner, style: code, used: inner.len() + 2 }
    } else if enclosed(s, seq!['~', '~']) is Some {
        let inner = enclosed(s, seq!['~', '~'])->0;
        Token { text: inner, style: strike, used: inner.len() + 4 }
    } else if link_of(s) is Some {
        let (label, url) = link_of(s)->0;
        Token {
            text: link_text(label, url, options.osc8),
            style: link_style,
            used: label.len() + url.len() + 4,
        }
    } else if is_url_start(s) {
        let n = chars::word_len(s);
        Token { text: url_text(s.take(n as int), options.osc8), style: link_style, used: n }
    } else {
        let n = if next_marker(s) == 0 {
            1
        } else {
            next_marker(s)
        };
        Token { text: s.take(n as int), style: base_style, used: n }
    }
}

/// A token takes at least one character, and no more than there are.
pub proof fn lemma_first_token_used(
    s: Seq<char>,
    base_style: Style,
    link_style: Style,
    options: RenderOptions,
)
    requires
        s.len() > 0,
    ensures
        0 < first_token(s, base_style, link_style, options).used <= s.len(),
{
    lemma_enclosed(s, seq!['*', '*']);
    lemma_enclosed(s, seq!['_', '_']);
    lemma_enclosed(s, seq!['*']);
    lemma_enclosed(s, seq!['_']);
    lemma_enclosed(s, seq!['`']);
    lemma_enclosed(s, seq!['~', '~']);
    chars::lemma_first_index(s, ']');
    chars::lemma_first_index(s.skip(chars::first_index(s, ']') as int + 1), ')');
    chars::lemma_word_len(s);
    lemma_next_marker(s);
    if is_url_start(s) {
        assert(s[0] == 'h');
        assert(!chars::is_white_space(s[0]));
    }
}

/// What is enclosed leaves room for the two delimiters.
pub proof fn lemma_enclosed(s: Seq<char>, delimiter: Seq<char>)
    ensures
        enclosed(s, delimiter) matches Some(inner) ==> inner.len() + 2 * delimiter.len() <= s.len(),
{
    if delimiter.is_prefix_of(s) {
        chars::lemma_first_match(s.skip(delimiter.len() as int), delimiter);
    }
}

/// What `next_marker` is: no marker stands before it, and one stands at it
/// unless it is the length of `s`.
pub proof fn lemma_next_marker(s: Seq<char>)
    ensures
        next_marker(s) <= s.len(),
        forall|j: int| 0 <= j < next_marker(s) ==> !is_marker(#[trigger] s.skip(j)),
        next_marker(s) < s.len() ==> is_marker(s.skip(next_marker(s) as int)),
    decreases s.len(),
{
    assert(s.skip(0) == s);
    if s.len() > 0 && !is_marker(s) {
        let rest = s.skip(1);
        lemma_next_marker(rest);
        assert forall|j: int| 1 <= j <= s.len() implies #[trigger] s.skip(j) == rest.skip(j - 1) by {
            assert(s.skip(j) =~= rest.skip(j - 1));
        }
    }
}

/// The inline tokens of a text: what is shown, and in which style.
pub open spec fn inline_spans(
    s: Seq<char>,
    base_style: Style,
    link_style: Style,
    options: RenderOptions,
) -> Seq<text::SpanView>
    decreases s.len(),
{
    let token = first_token(s, base_style, link_style, options);
    proof {
        if s.len() > 0 {
            lemma_first_token_used(s, base_style, link_style, options);
        }
    }
    if s.len() == 0 {
        seq![]
    } else {
        seq![text::SpanView { content: token.text, style: token.style }] + inline_spans(
            s.skip(token.used as int),
            base_style,
            link_style,
            options,
        )
    }
}

/// The first inline token of a text that is not empty, and how many characters
/// of the text it takes.
fn take_token(s: &[char], base_style: Style, link_style: Style, options: RenderOptions) -> (r: (
    Span,
    usize,
))
    requires
        s@.len() > 0,
    ensures
        ({
            let token = first_token(s@, base_style, link_style, options);
            &&& r.0@ == (text::SpanView { content: token.text, style: token.style })
            &&& r.1 == token.used
        }),
        0 < r.1 <= s@.len(),
{
    proof {
        lemma_first_token_used(s@, base_style, link_style, options);
        assert(s@.len() == s.len());
        assert(['*', '*']@ == seq!['*', '*']);
        assert(['_', '_']@ == seq!['_', '_']);
        assert(['*']@ == seq!['*']);
        assert(['_']@ == seq!['_']);
        assert(['`']@ == seq!['`']);
        assert(['~', '~']@ == seq!['~', '~']);
        assert([' ', '(']@ == seq![' ', '(']);
        assert([')']@ == seq![')']);
    }
    let bold_style = base_style.add_modifier(BOLD);
    let italic_style = base_style.add_modifier(ITALIC);
    let code_style = base_style.add_modifier(ITALIC).bg(options.palette.surface_elevated);
    let strike_style = base_style.add_modifier(CROSSED_OUT);
    // **bold**
    if let Some(inner) = find_enclosed(s, &['*', '*']) {
        return (Span::styled(to_text(inner), bold_style), inner.len() + 4);
    }
    // __bold__
    if let Some(inner) = find_enclosed(s, &['_', '_']) {
        return (Span::styled(to_text(inner), bold_style), inner.len() + 4);
    }
    // *italic*
    if !starts_with(s, &['*', '*']) {
        if let Some(inner) = find_enclosed(s, &['*']) {
            return (Span::styled(to_text(inner), italic_style), inner.len() + 2);
        }
    }
    // _italic_
    if !starts_with(s, &['_', '_']) {
        if let Some(inner) = find_enclosed(s, &['_']) {
            return (Span::styled(to_text(inner), italic_style), inner.len() + 2);
        }
    }
    // `inline code`
    if let Some(inner) = find_enclosed(s, &['`']) {
        return (Span::styled(to_text(inner), code_style), inner.len() + 2);
    }
    // ~~strikethrough~~
    if let Some(inner) = find_enclosed(s, &['~', '~']) {
        return (Span::styled(to_text(inner), strike_style), inner.len() + 4);
    }
    // [text](url)
    if let Some((label, url)) = find_link(s) {
        let content = if options.osc8 {
            wrap_link(url, label)
        } else {
            let mut plain = to_text(label);
            push_chars(&mut plain, &[' ', '(']);
            push_chars(&mut plain, url);
            push_chars(&mut plain, &[')']);
            plain
        };
        return (Span::styled(content, link_style), label.len() + url.len() + 4);
    }
    // URL: up to the next white space
    if starts_with_url(s) {
        let end = find_word_end(s);
        let url = slice_to(s, end);
        let content = if options.osc8 {
            wrap_link(url, url)
        } else {
            to_text(url)
        };
        return (Span::styled(content, link_style), end);
    }
    // Plain text: up to the next marker, and one character in any case
    let mut end = find_next_marker(s);
    if end == 0 {
        end = 1;
    }
    (Span::styled(to_text(slice_to(s, end)), base_style), end)
}

/// Parses an entire line into spans, handling **bold**, *italic*, `code`,
/// ~~strikethrough~~, `[text](url)` links, and bare URLs.
pub fn parse_inline_spans(
    line: &str,
    base_style: Style,
    link_style: Style,
    options: RenderOptions,
) -> (r: Vec<Span>)
    ensures
        chars::views(r@) == inline_spans(line@, base_style, link_style, options),
{
    let line_chars = to_chars(line);
    let mut out: Vec<Span> = Vec::new();
    let mut rest: &[char] = line_chars.as_slice();
    let ghost whole = inline_spans(line@, base_style, link_style, options);
    assert(chars::views(out@) + whole == whole);
    while rest.len() > 0
        invariant
            whole == inline_spans(line@, base_style, link_style, options),
            chars::views(out@) + inline_spans(rest@, base_style, link_style, options) == whole,
        decreases rest@.len(),
    {
        let (span, used) = take_token(rest, base_style, link_style, options);
        let ghost before = chars::views(out@);
        let ghost tail = inline_spans(rest@.skip(used as int), base_style, link_style, options);
        let ghost head = span@;
        out.push(span);
        assert(chars::views(out@) == before + seq![head]);
        assert(before + (seq![head] + tail) == before + seq![head] + tail);
        rest = slice_from(rest, used);
    }
    assert(chars::views(out@) + Seq::<text::SpanView>::empty() == chars::views(out@));
    out
}

} // verus!
