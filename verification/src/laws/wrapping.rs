//! Laws of wrapping: nothing is lost, and what is wrapped fits.
use vstd::prelude::*;

use crate::chars;
use crate::width;
use crate::wrap;

verus! {

// ---------------------------------------------------------------------------
// Tab stops

/// A tab brings the cursor to the next tab stop: one to eight columns on, at a
/// column that is a multiple of eight.
pub proof fn law_tab_stops(cells: usize, col: nat)
    ensures
        1 <= width::advance('\t', cells, col) <= 8,
        (col + width::advance('\t', cells, col)) % 8 == 0,
{
}

// ---------------------------------------------------------------------------
// Code lines

/// A character more never takes the cursor back.
proof fn lemma_columns_grow(s: Seq<(char, usize)>, k: int)
    requires
        0 <= k <= s.len(),
    ensures
        wrap::columns(s.take(k)) <= wrap::columns(s),
    decreases s.len(),
{
    if k == s.len() {
        assert(s.take(k) == s);
    } else {
        lemma_columns_grow(s.drop_last(), k);
        assert(s.drop_last().take(k) == s.take(k));
    }
}

/// The first line of code is the longest that fits; one character goes on it in
/// any case.
pub proof fn lemma_chunk_fits(s: Seq<(char, usize)>, n: nat, width: nat)
    requires
        n <= s.len(),
        n <= 1 || wrap::columns(s.take(n as int)) <= width,
    ensures
        ({
            let m = wrap::chunk_len(s, n, width);
            &&& m <= 1 || wrap::columns(s.take(m as int)) <= width
            &&& m < s.len() ==> wrap::columns(s.take(m as int + 1)) > width
        }),
    decreases s.len() - n,
{
    if n < s.len() && (n == 0 || wrap::columns(s.take(n as int + 1)) <= width) {
        lemma_chunk_fits(s, n + 1, width);
    }
}

proof fn lemma_text_of_concat(a: Seq<(char, usize)>, b: Seq<(char, usize)>)
    ensures
        wrap::text_of(a + b) == wrap::text_of(a) + wrap::text_of(b),
{
}

proof fn lemma_flatten_first<T>(first: Seq<T>, rest: Seq<Seq<T>>)
    ensures
        (seq![first] + rest).flatten() == first + rest.flatten(),
{
    let all = seq![first] + rest;
    assert(all.first() == first);
    assert(all.drop_first() == rest);
}

/// The lines of a code line, put together, are the code line: no character is
/// lost, white space included.
pub proof fn law_code_wrap_keeps_text(s: Seq<(char, usize)>, width: nat)
    ensures
        wrap::code_lines(s, width).flatten() == wrap::text_of(s),
{
    if width == 0 || s.len() == 0 {
        seq![wrap::text_of(s)].lemma_flatten_one_element();
    } else {
        lemma_chunks_keep_text(s, width);
    }
}

proof fn lemma_chunks_keep_text(s: Seq<(char, usize)>, width: nat)
    ensures
        wrap::code_chunks(s, width).flatten() == wrap::text_of(s),
    decreases s.len(),
{
    if s.len() > 0 {
        let n = wrap::chunk_len(s, 0, width) as int;
        wrap::lemma_chunk_len(s, 0, width);
        lemma_chunks_keep_text(s.skip(n), width);
        lemma_flatten_first(wrap::text_of(s.take(n)), wrap::code_chunks(s.skip(n), width));
        assert(s.take(n) + s.skip(n) == s);
        lemma_text_of_concat(s.take(n), s.skip(n));
    }
}

/// What `wrap_code_line` gives back of a line: all of its characters, in order.
pub proof fn law_wrap_code_line_keeps_text(line: Seq<char>, width: nat)
    ensures
        wrap::code_lines(wrap::measured_chars(line), width).flatten() == line,
{
    law_code_wrap_keeps_text(wrap::measured_chars(line), width);
    assert(wrap::text_of(wrap::measured_chars(line)) == line);
}

/// A line of wrapped code takes no more columns than there are, but for a single
/// character that is too wide by itself; and it is broken only where the next
/// character does not fit.
pub proof fn law_wrap_code_line_fits(line: Seq<char>, width: nat, i: int)
    requires
        width > 0,
        0 <= i < wrap::code_lines(wrap::measured_chars(line), width).len(),
    ensures
        ({
            let lines = wrap::code_lines(wrap::measured_chars(line), width);
            &&& lines[i].len() <= 1 || wrap::columns(wrap::measured_chars(lines[i])) <= width
            &&& line.len() > 0 ==> lines[i].len() > 0
            &&& i + 1 < lines.len() ==> wrap::columns(
                wrap::measured_chars(lines[i].push(lines[i + 1][0])),
            ) > width
        }),
{
    if line.len() == 0 {
        assert(wrap::text_of(wrap::measured_chars(line)) == line);
    } else {
        lemma_chunks_fit(line, width, i);
    }
}

proof fn lemma_chunks_fit(line: Seq<char>, width: nat, i: int)
    requires
        0 <= i < wrap::code_chunks(wrap::measured_chars(line), width).len(),
    ensures
        ({
            let lines = wrap::code_chunks(wrap::measured_chars(line), width);
            &&& lines[i].len() <= 1 || wrap::columns(wrap::measured_chars(lines[i])) <= width
            &&& lines[i].len() > 0
            &&& i + 1 < lines.len() ==> wrap::columns(
                wrap::measured_chars(lines[i].push(lines[i + 1][0])),
            ) > width
        }),
    decreases line.len(),
{
    let s = wrap::measured_chars(line);
    let n = wrap::chunk_len(s, 0, width) as int;
    wrap::lemma_chunk_len(s, 0, width);
    lemma_chunk_fits(s, 0, width);
    assert(s.skip(n) == wrap::measured_chars(line.skip(n)));
    let rest = wrap::code_chunks(s.skip(n), width);
    let lines = wrap::code_chunks(s, width);
    assert(lines == seq![wrap::text_of(s.take(n))] + rest);
    if i == 0 {
        assert(wrap::text_of(s.take(n)) == line.take(n));
        assert(wrap::measured_chars(line.take(n)) == s.take(n));
        if rest.len() > 0 {
            let t = s.skip(n);
            let m = wrap::chunk_len(t, 0, width) as int;
            wrap::lemma_chunk_len(t, 0, width);
            assert(rest[0] == wrap::text_of(t.take(m)));
            assert(lines[1][0] == line[n]);
            assert(line.take(n).push(line[n]) == line.take(n + 1));
            assert(wrap::measured_chars(line.take(n + 1)) == s.take(n + 1));
        }
    } else {
        lemma_chunks_fit(line.skip(n), width, i - 1);
        assert(lines[i] == rest[i - 1]);
        if i + 1 < lines.len() {
            assert(lines[i + 1] == rest[i]);
        }
    }
}

/// A code line that fits is left as it is.
pub proof fn law_short_code_line_is_kept(line: Seq<char>, width: nat)
    requires
        wrap::columns(wrap::measured_chars(line)) <= width,
    ensures
        wrap::code_lines(wrap::measured_chars(line), width) == seq![line],
{
    let s = wrap::measured_chars(line);
    assert(wrap::text_of(s) == line);
    if width > 0 && line.len() > 0 {
        let n = wrap::chunk_len(s, 0, width) as int;
        wrap::lemma_chunk_len(s, 0, width);
        lemma_chunk_fits(s, 0, width);
        if n < s.len() {
            lemma_columns_grow(s, n + 1);
        }
        assert(s.take(n) == s);
        assert(wrap::code_chunks(s.skip(n), width) == Seq::<Seq<char>>::empty());
        assert(seq![line] + Seq::<Seq<char>>::empty() == seq![line]);
    }
}

/// Where a character takes one column, as in plain ASCII text, a line of wrapped
/// code has at most `width` characters.
pub proof fn law_narrow_code_fits(s: Seq<(char, usize)>, width: nat, i: int)
    requires
        width > 0,
        forall|j: int| 0 <= j < s.len() ==> (#[trigger] s[j]).1 == 1 && s[j].0 != '\t',
        0 <= i < wrap::code_lines(s, width).len(),
    ensures
        wrap::code_lines(s, width)[i].len() <= width,
    decreases s.len(),
{
    if s.len() > 0 {
        let n = wrap::chunk_len(s, 0, width) as int;
        wrap::lemma_chunk_len(s, 0, width);
        lemma_chunk_fits(s, 0, width);
        if i == 0 {
            lemma_narrow_columns(s.take(n));
        } else {
            let rest = s.skip(n);
            assert(rest.len() == 0 ==> wrap::code_chunks(rest, width).len() == 0);
            law_narrow_code_fits(rest, width, i - 1);
            assert(wrap::code_chunks(s, width)[i] == wrap::code_chunks(rest, width)[i - 1]);
        }
    }
}

proof fn lemma_narrow_columns(s: Seq<(char, usize)>)
    requires
        forall|j: int| 0 <= j < s.len() ==> (#[trigger] s[j]).1 == 1 && s[j].0 != '\t',
    ensures
        wrap::columns(s) == s.len(),
    decreases s.len(),
{
    if s.len() > 0 {
        let init = s.drop_last();
        assert forall|j: int| 0 <= j < init.len() implies (#[trigger] init[j]).1 == 1 && init[j].0
            != '\t' by {
            assert(init[j] == s[j]);
        }
        lemma_narrow_columns(init);
        assert(s[s.len() - 1].1 == 1);
    }
}

// ---------------------------------------------------------------------------
// Words

/// Whether `w` is a word: it has characters, and none of them is white space.
pub open spec fn is_word(w: Seq<char>) -> bool {
    &&& w.len() > 0
    &&& forall|j: int| 0 <= j < w.len() ==> !chars::is_white_space(#[trigger] w[j])
}

/// The words of a text are words.
pub proof fn law_words_are_words(s: Seq<char>, i: int)
    requires
        0 <= i < chars::words_of(s).len(),
    ensures
        is_word(chars::words_of(s)[i]),
    decreases s.len(),
{
    let t = chars::trimmed_start(s);
    let n = chars::word_len(t) as int;
    chars::lemma_trimmed_start(s);
    chars::lemma_word_len(t);
    assert(t.len() > 0);
    if i == 0 {
        assert(chars::words_of(s)[0] == t.take(n));
    } else {
        law_words_are_words(t.skip(n), i - 1);
        assert(chars::words_of(s)[i] == chars::words_of(t.skip(n))[i - 1]);
    }
}

/// The words of a plain ASCII text are plain ASCII.
pub proof fn law_words_of_plain(s: Seq<char>)
    requires
        width::is_plain(s),
    ensures
        forall|i: int|
            0 <= i < chars::words_of(s).len() ==> width::is_plain(#[trigger] chars::words_of(s)[i]),
    decreases s.len(),
{
    let t = chars::trimmed_start(s);
    chars::lemma_trimmed_start(s);
    chars::lemma_word_len(t);
    let n = chars::word_len(t) as int;
    if t.len() > 0 {
        let first = t.take(n);
        let rest = t.skip(n);
        let k = s.len() - t.len();
        assert forall|j: int| 0 <= j < first.len() implies width::is_ascii_printable(
            #[trigger] first[j],
        ) by {
            assert(first[j] == s[j + k]);
        }
        assert forall|j: int| 0 <= j < rest.len() implies width::is_ascii_printable(
            #[trigger] rest[j],
        ) by {
            assert(rest[j] == s[j + k + n]);
        }
        law_words_of_plain(rest);
        assert forall|i: int| 0 <= i < chars::words_of(s).len() implies width::is_plain(
            #[trigger] chars::words_of(s)[i],
        ) by {
            if i > 0 {
                assert(chars::words_of(s)[i] == chars::words_of(rest)[i - 1]);
            }
        }
    }
}

/// Leaving white space out does not depend on where a text is cut.
pub proof fn law_visible_concat(a: Seq<char>, b: Seq<char>)
    ensures
        chars::visible(a + b) == chars::visible(a) + chars::visible(b),
    decreases b.len(),
{
    if b.len() == 0 {
        assert(a + b == a);
        assert(chars::visible(a) + b == chars::visible(a));
    } else {
        law_visible_concat(a, b.drop_last());
        assert((a + b).drop_last() == a + b.drop_last());
        assert((a + b).last() == b.last());
        let va = chars::visible(a);
        let vb = chars::visible(b.drop_last());
        assert((va + vb).push(b.last()) == va + vb.push(b.last()));
    }
}

/// A word is all visible.
proof fn lemma_visible_word(w: Seq<char>)
    requires
        forall|j: int| 0 <= j < w.len() ==> !chars::is_white_space(#[trigger] w[j]),
    ensures
        chars::visible(w) == w,
    decreases w.len(),
{
    if w.len() > 0 {
        let init = w.drop_last();
        assert forall|j: int| 0 <= j < init.len() implies !chars::is_white_space(
            #[trigger] init[j],
        ) by {
            assert(init[j] == w[j]);
        }
        lemma_visible_word(init);
        assert(!chars::is_white_space(w[w.len() - 1]));
        assert(init.push(w.last()) == w);
    }
}

/// White space is all invisible.
pub proof fn lemma_visible_space(w: Seq<char>)
    requires
        forall|j: int| 0 <= j < w.len() ==> chars::is_white_space(#[trigger] w[j]),
    ensures
        chars::visible(w) == Seq::<char>::empty(),
    decreases w.len(),
{
    if w.len() > 0 {
        let init = w.drop_last();
        assert forall|j: int| 0 <= j < init.len() implies chars::is_white_space(
            #[trigger] init[j],
        ) by {
            assert(init[j] == w[j]);
        }
        lemma_visible_space(init);
        assert(chars::is_white_space(w[w.len() - 1]));
    }
}

/// The words of a text, put together, are the text without its white space.
pub proof fn law_words_are_what_is_visible(s: Seq<char>)
    ensures
        chars::words_of(s).flatten() == chars::visible(s),
    decreases s.len(),
{
    let t = chars::trimmed_start(s);
    let n = chars::word_len(t) as int;
    chars::lemma_trimmed_start(s);
    chars::lemma_word_len(t);
    let k = s.len() - t.len();
    assert(s.take(k) + t == s);
    law_visible_concat(s.take(k), t);
    assert forall|j: int| 0 <= j < k implies chars::is_white_space(#[trigger] s.take(k)[j]) by {
        assert(s.take(k)[j] == s[j]);
    }
    lemma_visible_space(s.take(k));
    assert(Seq::<char>::empty() + chars::visible(t) == chars::visible(t));
    if t.len() > 0 {
        law_words_are_what_is_visible(t.skip(n));
        lemma_flatten_first(t.take(n), chars::words_of(t.skip(n)));
        assert(t.take(n) + t.skip(n) == t);
        law_visible_concat(t.take(n), t.skip(n));
        assert forall|j: int| 0 <= j < n implies !chars::is_white_space(#[trigger] t.take(n)[j]) by {
            assert(t.take(n)[j] == t[j]);
        }
        lemma_visible_word(t.take(n));
    } else {
        assert(chars::words_of(s) == Seq::<Seq<char>>::empty());
    }
}

// ---------------------------------------------------------------------------
// Prose

/// Text after white space adds its words to those before it.
proof fn lemma_words_after_space(a: Seq<char>, b: Seq<char>)
    ensures
        chars::words_of(a.push(' ') + b) == chars::words_of(a) + chars::words_of(b),
    decreases a.len(),
{
    let s = a.push(' ') + b;
    let t = chars::trimmed_start(a);
    chars::lemma_trimmed_start(a);
    let k = a.len() - t.len();
    if t.len() == 0 {
        lemma_trimmed_after_space(a.push(' '), b);
        assert(chars::words_of(a) == Seq::<Seq<char>>::empty());
        assert(chars::words_of(a) + chars::words_of(b) == chars::words_of(b));
        chars::lemma_trimmed_start(b);
        chars::lemma_trimmed_idempotent(s);
        chars::lemma_trimmed_idempotent(b);
    } else {
        let u = t.push(' ') + b;
        assert(a.push(' ') + b == a.take(k) + u);
        assert(!chars::is_white_space(u[0]));
        assert(chars::trimmed_start(u) == u);
        assert forall|j: int| 0 <= j < k implies chars::is_white_space(#[trigger] a.take(k)[j]) by {
            assert(a.take(k)[j] == a[j]);
        }
        lemma_trimmed_after_space(a.take(k), u);
        let n = chars::word_len(t) as int;
        chars::lemma_word_len(t);
        lemma_word_len_before_space(t, b);
        assert(chars::word_len(u) == n);
        assert(u.take(n) == t.take(n));
        assert(u.skip(n) == t.skip(n).push(' ') + b);
        lemma_words_after_space(t.skip(n), b);
        let head = seq![t.take(n)];
        assert(head + (chars::words_of(t.skip(n)) + chars::words_of(b)) == head + chars::words_of(
            t.skip(n),
        ) + chars::words_of(b));
    }
}

proof fn lemma_trimmed_after_space(space: Seq<char>, s: Seq<char>)
    requires
        forall|j: int| 0 <= j < space.len() ==> chars::is_white_space(#[trigger] space[j]),
    ensures
        chars::trimmed_start(space + s) == chars::trimmed_start(s),
    decreases space.len(),
{
    if space.len() == 0 {
        assert(space + s == s);
    } else {
        assert(chars::is_white_space(space[0]));
        assert((space + s).skip(1) == space.skip(1) + s);
        assert forall|j: int| 0 <= j < space.skip(1).len() implies chars::is_white_space(
            #[trigger] space.skip(1)[j],
        ) by {
            assert(space.skip(1)[j] == space[j + 1]);
        }
        lemma_trimmed_after_space(space.skip(1), s);
    }
}

proof fn lemma_word_len_before_space(t: Seq<char>, b: Seq<char>)
    ensures
        chars::word_len(t.push(' ') + b) == chars::word_len(t),
    decreases t.len(),
{
    let u = t.push(' ') + b;
    if t.len() == 0 {
        assert(u[0] == ' ');
    } else {
        assert(u[0] == t[0]);
        assert(u.skip(1) == t.skip(1).push(' ') + b);
        lemma_word_len_before_space(t.skip(1), b);
    }
}

proof fn lemma_words_of_word(w: Seq<char>)
    requires
        is_word(w),
    ensures
        chars::words_of(w) == seq![w],
{
    chars::lemma_word_len(w);
    assert(!chars::is_white_space(w[0]));
    assert(chars::trimmed_start(w) == w);
    if chars::word_len(w) < w.len() {
        assert(!chars::is_white_space(w[chars::word_len(w) as int]));
    }
    assert(w.take(w.len() as int) == w);
    let rest = w.skip(w.len() as int);
    assert(chars::trimmed_start(rest).len() == 0);
    assert(chars::words_of(rest) == Seq::<Seq<char>>::empty());
    assert(seq![w] + Seq::<Seq<char>>::empty() == seq![w]);
}

/// The texts of measured words.
pub open spec fn texts(words: Seq<wrap::WordView>) -> Seq<Seq<char>> {
    Seq::new(words.len(), |i: int| words[i].text)
}

/// Words joined by spaces are found again as words.
pub proof fn law_joined_words(words: Seq<wrap::WordView>)
    requires
        forall|i: int| 0 <= i < words.len() ==> is_word(#[trigger] words[i].text),
    ensures
        chars::words_of(wrap::joined(words)) == texts(words),
    decreases words.len(),
{
    if words.len() == 0 {
        let empty = Seq::<char>::empty();
        assert(chars::trimmed_start(empty).len() == 0);
        assert(chars::words_of(empty) == texts(words));
    } else {
        let last = words.last().text;
        assert(is_word(words[words.len() - 1].text));
        lemma_words_of_word(last);
        if words.len() == 1 {
            assert(texts(words) == seq![last]);
        } else {
            let init = words.drop_last();
            assert forall|i: int| 0 <= i < init.len() implies is_word(#[trigger] init[i].text) by {
                assert(init[i] == words[i]);
            }
            law_joined_words(init);
            lemma_words_after_space(wrap::joined(init), last);
            assert(texts(words) == texts(init) + seq![last]);
        }
    }
}

/// The words of lines, in order.
pub open spec fn words_of_lines(lines: Seq<Seq<char>>) -> Seq<Seq<char>> {
    Seq::new(lines.len(), |i: int| chars::words_of(lines[i])).flatten()
}

proof fn lemma_words_of_lines_first(first: Seq<char>, rest: Seq<Seq<char>>)
    ensures
        words_of_lines(seq![first] + rest) == chars::words_of(first) + words_of_lines(rest),
{
    let all = seq![first] + rest;
    let each = Seq::new(all.len(), |i: int| chars::words_of(all[i]));
    let each_rest = Seq::new(rest.len(), |i: int| chars::words_of(rest[i]));
    assert(each == seq![chars::words_of(first)] + each_rest);
    lemma_flatten_first(chars::words_of(first), each_rest);
}

/// The lines of a wrapped text have the words of the text, in order: none is
/// lost, and none is broken.
pub proof fn law_wrap_text_keeps_words(text: Seq<char>, width: nat)
    ensures
        words_of_lines(wrap::text_lines(text, width)) == chars::words_of(text),
{
    let words = wrap::measured_words(chars::words_of(text));
    if width == 0 {
        assert(seq![text] + Seq::<Seq<char>>::empty() == seq![text]);
        lemma_words_of_lines_first(text, Seq::empty());
        assert(words_of_lines(Seq::empty()) == Seq::<Seq<char>>::empty());
        assert(chars::words_of(text) + Seq::<Seq<char>>::empty() == chars::words_of(text));
    } else if words.len() == 0 {
        let empty = Seq::<char>::empty();
        assert(seq![empty] + Seq::<Seq<char>>::empty() == seq![empty]);
        lemma_words_of_lines_first(empty, Seq::empty());
        assert(words_of_lines(Seq::empty()) == Seq::<Seq<char>>::empty());
        assert(chars::trimmed_start(empty).len() == 0);
        assert(chars::words_of(empty) == Seq::<Seq<char>>::empty());
        assert(chars::words_of(text) == Seq::<Seq<char>>::empty());
    } else {
        assert forall|i: int| 0 <= i < words.len() implies is_word(#[trigger] words[i].text) by {
            law_words_are_words(text, i);
        }
        lemma_filled_keeps_words(words, width);
        assert(texts(words) == chars::words_of(text));
    }
}

proof fn lemma_filled_keeps_words(words: Seq<wrap::WordView>, width: nat)
    requires
        forall|i: int| 0 <= i < words.len() ==> is_word(#[trigger] words[i].text),
    ensures
        words_of_lines(wrap::filled(words, width)) == texts(words),
    decreases words.len(),
{
    if words.len() == 0 {
        assert(words_of_lines(wrap::filled(words, width)) == texts(words));
    } else {
        let n = wrap::line_len(words, 0, width) as int;
        wrap::lemma_line_len(words, 0, width);
        let head = words.take(n);
        let rest = words.skip(n);
        assert forall|i: int| 0 <= i < head.len() implies is_word(#[trigger] head[i].text) by {
            assert(head[i] == words[i]);
        }
        assert forall|i: int| 0 <= i < rest.len() implies is_word(#[trigger] rest[i].text) by {
            assert(rest[i] == words[i + n]);
        }
        law_joined_words(head);
        lemma_filled_keeps_words(rest, width);
        lemma_words_of_lines_first(wrap::joined(head), wrap::filled(rest, width));
        assert(texts(words) == texts(head) + texts(rest));
    }
}

/// The first line of prose is the longest that fits; one word goes on it in any
/// case.
pub proof fn lemma_line_fits(words: Seq<wrap::WordView>, n: nat, width: nat)
    requires
        n <= words.len(),
        n <= 1 || wrap::joined_width(words.take(n as int)) <= width,
    ensures
        ({
            let m = wrap::line_len(words, n, width);
            &&& m <= 1 || wrap::joined_width(words.take(m as int)) <= width
            &&& m < words.len() ==> wrap::joined_width(words.take(m as int + 1)) > width
        }),
    decreases words.len() - n,
{
    if n < words.len() && (n == 0 || wrap::joined_width(words.take(n as int + 1)) <= width) {
        lemma_line_fits(words, n + 1, width);
    }
}

/// A line of wrapped prose takes no more columns than there are, but for a
/// single word that is too wide by itself.
pub proof fn law_wrap_text_fits(text: Seq<char>, width: nat, i: int)
    requires
        width > 0,
        0 <= i < wrap::text_lines(text, width).len(),
    ensures
        ({
            let words = wrap::measured_words(chars::words_of(wrap::text_lines(text, width)[i]));
            &&& words.len() <= 1 || wrap::joined_width(words) <= width
            &&& wrap::text_lines(text, width)[i] == wrap::joined(words)
        }),
{
    let all = wrap::measured_words(chars::words_of(text));
    assert forall|k: int| 0 <= k < all.len() implies is_word(#[trigger] all[k].text) by {
        law_words_are_words(text, k);
    }
    if all.len() == 0 {
        let empty = Seq::<char>::empty();
        assert(chars::trimmed_start(empty).len() == 0);
        assert(chars::words_of(empty) == Seq::<Seq<char>>::empty());
    } else {
        lemma_filled_fits(all, width, i);
    }
}

proof fn lemma_filled_fits(words: Seq<wrap::WordView>, width: nat, i: int)
    requires
        forall|k: int|
            0 <= k < words.len() ==> is_word(#[trigger] words[k].text) && words[k].width
                == width::str_width(words[k].text),
        0 <= i < wrap::filled(words, width).len(),
    ensures
        ({
            let line = wrap::filled(words, width)[i];
            let found = wrap::measured_words(chars::words_of(line));
            &&& found.len() <= 1 || wrap::joined_width(found) <= width
            &&& line == wrap::joined(found)
        }),
    decreases words.len(),
{
    let n = wrap::line_len(words, 0, width) as int;
    wrap::lemma_line_len(words, 0, width);
    lemma_line_fits(words, 0, width);
    let head = words.take(n);
    let rest = words.skip(n);
    if i == 0 {
        assert forall|k: int| 0 <= k < head.len() implies is_word(#[trigger] head[k].text) by {
            assert(head[k] == words[k]);
        }
        law_joined_words(head);
        assert(wrap::measured_words(texts(head)) == head) by {
            assert forall|k: int| 0 <= k < head.len() implies wrap::measured_words(texts(head))[k]
                == head[k] by {
                assert(is_word(words[k].text));
            }
        }
    } else {
        assert forall|k: int| 0 <= k < rest.len() implies is_word(#[trigger] rest[k].text)
            && rest[k].width == width::str_width(rest[k].text) by {
            assert(is_word(words[k + n].text));
        }
        lemma_filled_fits(rest, width, i - 1);
        assert(wrap::filled(words, width)[i] == wrap::filled(rest, width)[i - 1]);
    }
}

/// Wrapped prose has at least one line.
pub proof fn law_wrap_text_has_a_line(text: Seq<char>, width: nat)
    ensures
        wrap::text_lines(text, width).len() >= 1,
{
}

/// Where a character takes one column, as in plain ASCII text, a line of wrapped
/// prose has at most `width` characters, but for a single word that is longer.
pub proof fn law_narrow_words_fit(words: Seq<wrap::WordView>, width: nat, i: int)
    requires
        forall|k: int|
            0 <= k < words.len() ==> is_word(#[trigger] words[k].text) && words[k].width
                == words[k].text.len(),
        0 <= i < wrap::word_lines(words, width).len(),
    ensures
        ({
            let line = wrap::word_lines(words, width)[i];
            line.len() <= width || is_word(line)
        }),
    decreases words.len(),
{
    if words.len() > 0 {
        let n = wrap::line_len(words, 0, width) as int;
        wrap::lemma_line_len(words, 0, width);
        lemma_line_fits(words, 0, width);
        let head = words.take(n);
        let rest = words.skip(n);
        if i == 0 {
            assert forall|k: int| 0 <= k < head.len() implies (#[trigger] head[k]).width
                == head[k].text.len() by {
                assert(is_word(words[k].text));
            }
            lemma_joined_len(head);
            if n == 1 {
                assert(is_word(words[0].text));
                assert(wrap::joined(head) == head[0].text);
            }
        } else {
            assert forall|k: int| 0 <= k < rest.len() implies is_word(#[trigger] rest[k].text)
                && rest[k].width == rest[k].text.len() by {
                assert(is_word(words[k + n].text));
            }
            assert(rest.len() == 0 ==> wrap::filled(rest, width).len() == 0);
            law_narrow_words_fit(rest, width, i - 1);
            assert(wrap::filled(words, width)[i] == wrap::filled(rest, width)[i - 1]);
        }
    }
}

proof fn lemma_joined_len(words: Seq<wrap::WordView>)
    requires
        forall|k: int|
            0 <= k < words.len() ==> (#[trigger] words[k]).width == words[k].text.len(),
    ensures
        wrap::joined(words).len() == wrap::joined_width(words),
    decreases words.len(),
{
    if words.len() > 1 {
        let init = words.drop_last();
        assert forall|k: int| 0 <= k < init.len() implies (#[trigger] init[k]).width
            == init[k].text.len() by {
            assert(init[k] == words[k]);
        }
        lemma_joined_len(init);
        assert(words[words.len() - 1].width == words.last().text.len());
    } else if words.len() == 1 {
        assert(words[0].width == words[0].text.len());
    }
}

// ---------------------------------------------------------------------------
// Table cells

/// All that a cell shows: its complete lines and the line being written.
spec fn shown(st: wrap::CellState) -> Seq<char> {
    st.lines.flatten() + st.current
}

proof fn lemma_broken_shows_the_same(st: wrap::CellState)
    ensures
        shown(wrap::broken(st)) == shown(st),
{
    st.lines.lemma_flatten_push(st.current);
}

proof fn lemma_with_char_shows(st: wrap::CellState, c: (char, usize), col_width: nat)
    ensures
        shown(wrap::with_char(st, c, col_width)) == shown(st).push(c.0),
{
    lemma_broken_shows_the_same(st);
    let at = if st.width + c.1 > col_width && st.width > 0 {
        wrap::broken(st)
    } else {
        st
    };
    assert(at.lines.flatten() + at.current.push(c.0) == (at.lines.flatten() + at.current).push(
        c.0,
    ));
}

proof fn lemma_with_chars_shows(st: wrap::CellState, s: Seq<(char, usize)>, col_width: nat)
    ensures
        shown(wrap::with_chars(st, s, col_width)) == shown(st) + wrap::text_of(s),
    decreases s.len(),
{
    if s.len() == 0 {
        assert(shown(st) + wrap::text_of(s) == shown(st));
    } else {
        lemma_with_chars_shows(st, s.drop_last(), col_width);
        lemma_with_char_shows(
            wrap::with_chars(st, s.drop_last(), col_width),
            s.last(),
            col_width,
        );
        assert(wrap::text_of(s) == wrap::text_of(s.drop_last()).push(s.last().0));
        assert((shown(st) + wrap::text_of(s.drop_last())).push(s.last().0) == shown(st)
            + wrap::text_of(s));
    }
}

proof fn lemma_with_word_shows(st: wrap::CellState, word: wrap::CellWordView, col_width: nat)
    ensures
        chars::visible(shown(wrap::with_word(st, word, col_width))) == chars::visible(shown(st))
            + chars::visible(wrap::text_of(word.chars)),
{
    let text = wrap::text_of(word.chars);
    let flat = st.lines.flatten();
    if st.width > 0 && st.width + 1 + word.width <= col_width {
        let next = wrap::with_word(st, word, col_width);
        assert(shown(next) == shown(st) + seq![' '] + text) by {
            assert(flat + (st.current.push(' ') + text) == flat + st.current + seq![' '] + text);
        }
        law_visible_concat(shown(st) + seq![' '], text);
        law_visible_concat(shown(st), seq![' ']);
        lemma_visible_space(seq![' ']);
        assert(chars::visible(shown(st)) + Seq::<char>::empty() == chars::visible(shown(st)));
    } else {
        let at = if st.width == 0 {
            st
        } else {
            wrap::broken(st)
        };
        lemma_broken_shows_the_same(st);
        let next = wrap::with_first_word(at, word, col_width);
        if word.width > col_width {
            lemma_with_chars_shows(at, word.chars, col_width);
        } else {
            assert(at.lines.flatten() + (at.current + text) == at.lines.flatten() + at.current
                + text);
        }
        assert(shown(next) == shown(st) + text);
        law_visible_concat(shown(st), text);
    }
}

/// The texts of the words of a cell.
pub open spec fn cell_texts(words: Seq<wrap::CellWordView>) -> Seq<Seq<char>> {
    Seq::new(words.len(), |i: int| wrap::text_of(words[i].chars))
}

proof fn lemma_with_words_shows(words: Seq<wrap::CellWordView>, col_width: nat)
    ensures
        chars::visible(shown(wrap::with_words(words, col_width))) == chars::visible(
            cell_texts(words).flatten(),
        ),
    decreases words.len(),
{
    if words.len() == 0 {
        assert(cell_texts(words) == Seq::<Seq<char>>::empty());
        assert(shown(wrap::empty_cell()) == Seq::<char>::empty());
    } else {
        let init = words.drop_last();
        let last = wrap::text_of(words.last().chars);
        lemma_with_words_shows(init, col_width);
        lemma_with_word_shows(wrap::with_words(init, col_width), words.last(), col_width);
        assert(cell_texts(words) == cell_texts(init).push(last));
        cell_texts(init).lemma_flatten_push(last);
        law_visible_concat(cell_texts(init).flatten(), last);
    }
}

/// Measured words are wrapped in a cell without loss: the lines show all that is
/// visible of the words, in order.
pub proof fn law_cell_words_are_kept(words: Seq<wrap::CellWordView>, col_width: nat)
    ensures
        chars::visible(wrap::cell_word_lines(words, col_width).flatten()) == chars::visible(
            cell_texts(words).flatten(),
        ),
{
    let st = wrap::with_words(words, col_width);
    lemma_with_words_shows(words, col_width);
    st.lines.lemma_flatten_push(st.current);
    if st.current.len() == 0 {
        assert(st.lines.flatten() + st.current == st.lines.flatten());
    }
}

/// A table cell is never truncated: its lines show all that is visible of it, in
/// order.
pub proof fn law_cell_text_is_kept(cell: Seq<char>, col_width: nat)
    ensures
        chars::visible(wrap::cell_lines(cell, col_width).flatten()) == chars::visible(cell),
{
    if cell.len() == 0 || width::str_width(cell) <= col_width {
        seq![cell].lemma_flatten_one_element();
    } else {
        let words = chars::words_of(cell);
        let measured = wrap::measured_cell(words);
        law_cell_words_are_kept(measured, col_width);
        assert(cell_texts(measured) == words) by {
            assert forall|i: int| 0 <= i < words.len() implies cell_texts(measured)[i]
                == words[i] by {
                assert(wrap::text_of(wrap::measured_chars(words[i])) == words[i]);
            }
        }
        law_words_are_what_is_visible(cell);
        assert(chars::visible(chars::visible(cell)) == chars::visible(cell)) by {
            lemma_visible_is_visible(cell);
            lemma_visible_word(chars::visible(cell));
        }
    }
}

proof fn lemma_visible_is_visible(s: Seq<char>)
    ensures
        forall|j: int|
            0 <= j < chars::visible(s).len() ==> !chars::is_white_space(
                #[trigger] chars::visible(s)[j],
            ),
    decreases s.len(),
{
    if s.len() > 0 {
        lemma_visible_is_visible(s.drop_last());
        let init = chars::visible(s.drop_last());
        assert forall|j: int| 0 <= j < chars::visible(s).len() implies !chars::is_white_space(
            #[trigger] chars::visible(s)[j],
        ) by {
            if j < init.len() {
                assert(chars::visible(s)[j] == init[j]);
            }
        }
    }
}

/// A table cell has at least one line.
pub proof fn law_cell_has_a_line(cell: Seq<char>, col_width: nat)
    ensures
        wrap::cell_lines(cell, col_width).len() >= 1,
{
}

/// Whether `piece` stands in `line` as it is, without a break.
pub open spec fn holds(line: Seq<char>, piece: Seq<char>) -> bool {
    exists|from: int| stands_at(line, piece, from)
}

/// Whether `piece` stands in `line` from position `from` on.
pub open spec fn stands_at(line: Seq<char>, piece: Seq<char>, from: int) -> bool {
    0 <= from && from + piece.len() <= line.len() && line.subrange(from, from + piece.len())
        == piece
}

/// Whether `piece` stands on one of the lines.
pub open spec fn some_line_holds(lines: Seq<Seq<char>>, piece: Seq<char>) -> bool {
    exists|i: int| 0 <= i < lines.len() && holds(#[trigger] lines[i], piece)
}

/// What stands in a part of a line stands in the line.
proof fn lemma_part_holds(a: Seq<char>, b: Seq<char>, c: Seq<char>, piece: Seq<char>)
    requires
        holds(b, piece),
    ensures
        holds(a + b + c, piece),
{
    let from = choose|from: int| stands_at(b, piece, from);
    let all = a + b + c;
    let at = a.len() + from;
    assert(all.subrange(at, at + piece.len()) == b.subrange(from, from + piece.len()));
    assert(stands_at(all, piece, at));
}

proof fn lemma_holds_itself(piece: Seq<char>)
    ensures
        holds(piece, piece),
{
    assert(piece.subrange(0, piece.len() as int) == piece);
    assert(stands_at(piece, piece, 0));
}

/// Whether `piece` stands on one of the lines of a cell that is being filled.
spec fn cell_holds(st: wrap::CellState, piece: Seq<char>) -> bool {
    some_line_holds(st.lines, piece) || holds(st.current, piece)
}

/// What a cell holds it still holds when the line that is being written is
/// continued.
proof fn lemma_continued_holds(
    st: wrap::CellState,
    next: wrap::CellState,
    more: Seq<char>,
    piece: Seq<char>,
)
    requires
        cell_holds(st, piece),
        next.lines == st.lines,
        next.current == st.current + more,
    ensures
        cell_holds(next, piece),
{
    if holds(st.current, piece) {
        let none = Seq::<char>::empty();
        lemma_part_holds(none, st.current, more, piece);
        assert(none + st.current + more == next.current);
    }
}

/// What a cell holds it still holds on a new line.
proof fn lemma_broken_holds(st: wrap::CellState, piece: Seq<char>)
    requires
        cell_holds(st, piece),
    ensures
        cell_holds(wrap::broken(st), piece),
{
    let lines = wrap::broken(st).lines;
    if some_line_holds(st.lines, piece) {
        let i = choose|i: int| 0 <= i < st.lines.len() && holds(#[trigger] st.lines[i], piece);
        assert(lines[i] == st.lines[i]);
    } else {
        assert(lines[st.lines.len() as int] == st.current);
    }
}

proof fn lemma_with_chars_holds(
    st: wrap::CellState,
    s: Seq<(char, usize)>,
    col_width: nat,
    piece: Seq<char>,
)
    requires
        cell_holds(st, piece),
    ensures
        cell_holds(wrap::with_chars(st, s, col_width), piece),
    decreases s.len(),
{
    if s.len() > 0 {
        lemma_with_chars_holds(st, s.drop_last(), col_width, piece);
        let before = wrap::with_chars(st, s.drop_last(), col_width);
        lemma_broken_holds(before, piece);
        let at = if before.width + s.last().1 > col_width && before.width > 0 {
            wrap::broken(before)
        } else {
            before
        };
        let more = seq![s.last().0];
        assert(at.current.push(s.last().0) == at.current + more);
        lemma_continued_holds(at, wrap::with_chars(st, s, col_width), more, piece);
    }
}

proof fn lemma_with_word_holds(
    st: wrap::CellState,
    word: wrap::CellWordView,
    col_width: nat,
    piece: Seq<char>,
)
    requires
        cell_holds(st, piece),
    ensures
        cell_holds(wrap::with_word(st, word, col_width), piece),
{
    let next = wrap::with_word(st, word, col_width);
    let text = wrap::text_of(word.chars);
    if st.width > 0 && st.width + 1 + word.width <= col_width {
        assert(st.current.push(' ') + text == st.current + (seq![' '] + text));
        lemma_continued_holds(st, next, seq![' '] + text, piece);
    } else {
        let at = if st.width == 0 {
            st
        } else {
            wrap::broken(st)
        };
        lemma_broken_holds(st, piece);
        if word.width > col_width {
            lemma_with_chars_holds(at, word.chars, col_width, piece);
        } else {
            lemma_continued_holds(at, next, text, piece);
        }
    }
}

/// A word that fits in the column is put into the cell in one piece.
proof fn lemma_short_word_is_put_whole(
    st: wrap::CellState,
    word: wrap::CellWordView,
    col_width: nat,
)
    requires
        word.width <= col_width,
    ensures
        cell_holds(wrap::with_word(st, word, col_width), wrap::text_of(word.chars)),
{
    let next = wrap::with_word(st, word, col_width);
    let text = wrap::text_of(word.chars);
    let before = next.current.take(next.current.len() - text.len());
    let none = Seq::<char>::empty();
    lemma_holds_itself(text);
    lemma_part_holds(before, text, none, text);
    assert(before + text + none == next.current);
}

proof fn lemma_short_words_stay_whole(words: Seq<wrap::CellWordView>, col_width: nat, k: int)
    requires
        0 <= k < words.len(),
        words[k].width <= col_width,
    ensures
        cell_holds(wrap::with_words(words, col_width), wrap::text_of(words[k].chars)),
    decreases words.len(),
{
    let init = words.drop_last();
    let st = wrap::with_words(init, col_width);
    if k < init.len() {
        assert(init[k] == words[k]);
        lemma_short_words_stay_whole(init, col_width, k);
        lemma_with_word_holds(st, words.last(), col_width, wrap::text_of(words[k].chars));
    } else {
        lemma_short_word_is_put_whole(st, words.last(), col_width);
    }
}

/// Only words wider than the column are broken: any other stands on one of the
/// lines of the cell in one piece.
pub proof fn law_short_words_stay_whole(
    words: Seq<wrap::CellWordView>,
    col_width: nat,
    k: int,
)
    requires
        0 <= k < words.len(),
        words[k].width <= col_width,
        words[k].chars.len() > 0,
    ensures
        some_line_holds(
            wrap::cell_word_lines(words, col_width),
            wrap::text_of(words[k].chars),
        ),
{
    lemma_short_words_stay_whole(words, col_width, k);
    let st = wrap::with_words(words, col_width);
    let lines = wrap::cell_word_lines(words, col_width);
    let piece = wrap::text_of(words[k].chars);
    if some_line_holds(st.lines, piece) {
        let i = choose|i: int| 0 <= i < st.lines.len() && holds(#[trigger] st.lines[i], piece);
        assert(lines[i] == st.lines[i]);
    } else {
        assert(st.current.len() > 0);
        assert(lines[st.lines.len() as int] == st.current);
    }
}

/// A word of a text stands in it in one piece.
proof fn lemma_words_stand_in_text(s: Seq<char>, k: int)
    requires
        0 <= k < chars::words_of(s).len(),
    ensures
        holds(s, chars::words_of(s)[k]),
    decreases s.len(),
{
    let t = chars::trimmed_start(s);
    chars::lemma_trimmed_start(s);
    chars::lemma_word_len(t);
    assert(t.len() > 0);
    let n = chars::word_len(t) as int;
    let word = chars::words_of(s)[k];
    let first = t.take(n);
    let rest = t.skip(n);
    let others = chars::words_of(rest);
    let none = Seq::<char>::empty();
    assert(chars::words_of(s) == seq![first] + others);
    assert(holds(t, word)) by {
        if k == 0 {
            lemma_holds_itself(first);
            lemma_part_holds(none, first, rest, word);
            assert(none + first + rest == t);
        } else {
            lemma_words_stand_in_text(rest, k - 1);
            lemma_part_holds(first, rest, none, word);
            assert(first + rest + none == t);
        }
    }
    let space = s.take(s.len() - t.len());
    lemma_part_holds(space, t, none, word);
    assert(space + t + none == s);
}

/// A word of a table cell that is no wider than the column is never broken.
pub proof fn law_short_words_of_cells_stay_whole(cell: Seq<char>, col_width: nat, k: int)
    requires
        0 <= k < chars::words_of(cell).len(),
        width::str_width(chars::words_of(cell)[k]) <= col_width,
    ensures
        some_line_holds(wrap::cell_lines(cell, col_width), chars::words_of(cell)[k]),
{
    let word = chars::words_of(cell)[k];
    let lines = wrap::cell_lines(cell, col_width);
    law_words_are_words(cell, k);
    if cell.len() == 0 || width::str_width(cell) <= col_width {
        lemma_words_stand_in_text(cell, k);
        assert(holds(lines[0], word));
    } else {
        let words = wrap::measured_cell(chars::words_of(cell));
        assert(wrap::text_of(words[k].chars) == word);
        law_short_words_stay_whole(words, col_width, k);
    }
}

/// The columns that a text takes when each character takes as many as `cells`
/// gives it.
pub open spec fn cells_in(s: Seq<char>, cells: spec_fn(char) -> nat) -> nat
    decreases s.len(),
{
    if s.len() == 0 {
        0
    } else {
        cells_in(s.drop_last(), cells) + cells(s.last())
    }
}

/// Whether measured words take the columns that `cells` gives their characters.
pub open spec fn measured_by(words: Seq<wrap::CellWordView>, cells: spec_fn(char) -> nat) -> bool {
    forall|i: int|
        0 <= i < words.len() ==> {
            &&& (#[trigger] words[i]).width == cells_in(wrap::text_of(words[i].chars), cells)
            &&& chars_measured_by(words[i].chars, cells)
        }
}

/// Whether measured characters take the columns that `cells` gives them.
pub open spec fn chars_measured_by(s: Seq<(char, usize)>, cells: spec_fn(char) -> nat) -> bool {
    forall|j: int| 0 <= j < s.len() ==> (#[trigger] s[j]).1 == cells(s[j].0)
}

/// Whether each of the characters takes at most `col_width` columns.
pub open spec fn chars_fit(s: Seq<(char, usize)>, col_width: nat) -> bool {
    forall|j: int| 0 <= j < s.len() ==> (#[trigger] s[j]).1 <= col_width
}

/// Whether all lines take at most `col_width` columns.
pub open spec fn lines_fit(
    lines: Seq<Seq<char>>,
    cells: spec_fn(char) -> nat,
    col_width: nat,
) -> bool {
    forall|i: int| 0 <= i < lines.len() ==> cells_in(#[trigger] lines[i], cells) <= col_width
}

/// The columns of a text do not depend on where it is cut.
pub proof fn lemma_cells_in_concat(a: Seq<char>, b: Seq<char>, cells: spec_fn(char) -> nat)
    ensures
        cells_in(a + b, cells) == cells_in(a, cells) + cells_in(b, cells),
    decreases b.len(),
{
    if b.len() == 0 {
        assert(a + b == a);
    } else {
        lemma_cells_in_concat(a, b.drop_last(), cells);
        assert((a + b).drop_last() == a + b.drop_last());
    }
}

/// Whether the columns counted for a cell that is being filled are those that
/// `cells` gives its characters, and all of its lines fit.
spec fn cell_fits(st: wrap::CellState, cells: spec_fn(char) -> nat, col_width: nat) -> bool {
    &&& lines_fit(st.lines, cells, col_width)
    &&& st.width == cells_in(st.current, cells)
    &&& st.width <= col_width
}

proof fn lemma_broken_fits(st: wrap::CellState, cells: spec_fn(char) -> nat, col_width: nat)
    requires
        cell_fits(st, cells, col_width),
    ensures
        cell_fits(wrap::broken(st), cells, col_width),
{
}

proof fn lemma_with_chars_fits(
    st: wrap::CellState,
    s: Seq<(char, usize)>,
    cells: spec_fn(char) -> nat,
    col_width: nat,
)
    requires
        cell_fits(st, cells, col_width),
        chars_measured_by(s, cells),
        chars_fit(s, col_width),
    ensures
        cell_fits(wrap::with_chars(st, s, col_width), cells, col_width),
    decreases s.len(),
{
    if s.len() > 0 {
        let init = s.drop_last();
        assert forall|j: int| 0 <= j < init.len() implies (#[trigger] init[j]).1 == cells(
            init[j].0,
        ) && init[j].1 <= col_width by {
            assert(init[j] == s[j]);
        }
        lemma_with_chars_fits(st, init, cells, col_width);
        let before = wrap::with_chars(st, init, col_width);
        lemma_broken_fits(before, cells, col_width);
        assert(s[s.len() - 1].1 == cells(s[s.len() - 1].0) && s[s.len() - 1].1 <= col_width);
        let at = if before.width + s.last().1 > col_width && before.width > 0 {
            wrap::broken(before)
        } else {
            before
        };
        assert(at.current.push(s.last().0).drop_last() == at.current);
    }
}

proof fn lemma_with_words_fits(
    words: Seq<wrap::CellWordView>,
    cells: spec_fn(char) -> nat,
    col_width: nat,
)
    requires
        measured_by(words, cells),
        cells(' ') == 1,
        forall|i: int| 0 <= i < words.len() ==> chars_fit((#[trigger] words[i]).chars, col_width),
    ensures
        cell_fits(wrap::with_words(words, col_width), cells, col_width),
    decreases words.len(),
{
    if words.len() > 0 {
        let init = words.drop_last();
        assert forall|i: int| 0 <= i < init.len() implies {
            &&& (#[trigger] init[i]).width == cells_in(wrap::text_of(init[i].chars), cells)
            &&& chars_measured_by(init[i].chars, cells)
            &&& chars_fit(init[i].chars, col_width)
        } by {
            assert(init[i] == words[i]);
        }
        lemma_with_words_fits(init, cells, col_width);
        let st = wrap::with_words(init, col_width);
        let word = words.last();
        assert(word == words[words.len() - 1]);
        let text = wrap::text_of(word.chars);
        let fresh = wrap::broken(st);
        lemma_broken_fits(st, cells, col_width);
        lemma_with_chars_fits(st, word.chars, cells, col_width);
        lemma_with_chars_fits(fresh, word.chars, cells, col_width);
        lemma_cells_in_concat(st.current, text, cells);
        lemma_cells_in_concat(fresh.current, text, cells);
        assert(st.current.push(' ').drop_last() == st.current);
        lemma_cells_in_concat(st.current.push(' '), text, cells);
    }
}

/// Every line of a wrapped cell takes at most the columns that the column has,
/// where the width of a word is that of its characters and no single character
/// is too wide.
pub proof fn law_cell_lines_fit(
    words: Seq<wrap::CellWordView>,
    cells: spec_fn(char) -> nat,
    col_width: nat,
)
    requires
        measured_by(words, cells),
        cells(' ') == 1,
        forall|i: int| 0 <= i < words.len() ==> chars_fit((#[trigger] words[i]).chars, col_width),
    ensures
        lines_fit(wrap::cell_word_lines(words, col_width), cells, col_width),
{
    lemma_with_words_fits(words, cells, col_width);
}

/// Where a character takes one column, as in plain ASCII text, a line of a
/// wrapped cell has at most `col_width` characters.
pub proof fn law_narrow_cell_fits(words: Seq<wrap::CellWordView>, col_width: nat)
    requires
        col_width > 0,
        forall|k: int| 0 <= k < words.len() ==> wrap::is_narrow(#[trigger] words[k]),
    ensures
        forall|i: int|
            0 <= i < wrap::cell_word_lines(words, col_width).len() ==> (
            #[trigger] wrap::cell_word_lines(words, col_width)[i]).len() <= col_width,
{
    let one = |c: char| 1nat;
    assert forall|i: int| 0 <= i < words.len() implies {
        &&& (#[trigger] words[i]).width == cells_in(wrap::text_of(words[i].chars), one)
        &&& chars_measured_by(words[i].chars, one)
        &&& chars_fit(words[i].chars, col_width)
    } by {
        assert(wrap::is_narrow(words[i]));
        lemma_one_cell_each(wrap::text_of(words[i].chars));
    }
    law_cell_lines_fit(words, one, col_width);
    let lines = wrap::cell_word_lines(words, col_width);
    assert forall|i: int| 0 <= i < lines.len() implies (#[trigger] lines[i]).len()
        <= col_width by {
        lemma_one_cell_each(lines[i]);
    }
}

proof fn lemma_one_cell_each(s: Seq<char>)
    ensures
        cells_in(s, |c: char| 1nat) == s.len(),
    decreases s.len(),
{
    if s.len() > 0 {
        lemma_one_cell_each(s.drop_last());
    }
}

} // verus!
