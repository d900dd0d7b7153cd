//! Laws of cutting text: what the pieces are, said of the characters themselves.
use vstd::prelude::*;

use crate::chars;
use crate::laws::wrapping;

verus! {

/// Whether `s` is white space alone.
pub open spec fn is_white(s: Seq<char>) -> bool {
    forall|i: int| 0 <= i < s.len() ==> chars::is_white_space(#[trigger] s[i])
}

/// Whether `s` is a run of `c`, of any length.
pub open spec fn is_run(s: Seq<char>, c: char) -> bool {
    forall|i: int| 0 <= i < s.len() ==> #[trigger] s[i] == c
}

/// White space is these characters and no others.
pub proof fn law_white_space_characters(c: char)
    ensures
        chars::is_white_space(c) <==> c == '\t' || c == '\n' || c == '\u{b}' || c == '\u{c}' || c
            == '\r' || c == ' ' || c == '\u{85}' || c == '\u{a0}' || c == '\u{1680}' || c
            == '\u{2000}' || c == '\u{2001}' || c == '\u{2002}' || c == '\u{2003}' || c
            == '\u{2004}' || c == '\u{2005}' || c == '\u{2006}' || c == '\u{2007}' || c
            == '\u{2008}' || c == '\u{2009}' || c == '\u{200a}' || c == '\u{2028}' || c
            == '\u{2029}' || c == '\u{202f}' || c == '\u{205f}' || c == '\u{3000}',
{
}

/// A character repeated is a run of it, of the length asked for.
pub proof fn law_repeated(c: char, n: nat)
    ensures
        chars::repeated(c, n).len() == n,
        is_run(chars::repeated(c, n), c),
{
}

/// Leaving white space out goes character by character.
pub proof fn law_visible(s: Seq<char>, c: char)
    ensures
        chars::visible(Seq::<char>::empty()) == Seq::<char>::empty(),
        chars::is_white_space(c) ==> chars::visible(s.push(c)) == chars::visible(s),
        !chars::is_white_space(c) ==> chars::visible(s.push(c)) == chars::visible(s).push(c),
{
    assert(s.push(c).drop_last() == s);
}

/// Trimming at the start takes the leading white space off and nothing else.
pub proof fn law_trim_start(w: Seq<char>, t: Seq<char>)
    requires
        is_white(w),
        t.len() > 0 ==> !chars::is_white_space(t[0]),
    ensures
        chars::trimmed_start(w + t) == t,
    decreases w.len(),
{
    let s = w + t;
    if w.len() == 0 {
        assert(s == t);
    } else {
        assert(s[0] == w[0]);
        assert(s.skip(1) == w.skip(1) + t);
        assert forall|i: int| 0 <= i < w.skip(1).len() implies chars::is_white_space(
            #[trigger] w.skip(1)[i],
        ) by {
            assert(w.skip(1)[i] == w[i + 1]);
        }
        law_trim_start(w.skip(1), t);
    }
}

/// Trimming at the end takes the trailing white space off and nothing else.
pub proof fn law_trim_end(t: Seq<char>, w: Seq<char>)
    requires
        is_white(w),
        t.len() > 0 ==> !chars::is_white_space(t.last()),
    ensures
        chars::trimmed_end(t + w) == t,
    decreases w.len(),
{
    let s = t + w;
    if w.len() == 0 {
        assert(s == t);
    } else {
        assert(s.last() == w[w.len() - 1]);
        assert(s.drop_last() == t + w.drop_last());
        assert forall|i: int| 0 <= i < w.drop_last().len() implies chars::is_white_space(
            #[trigger] w.drop_last()[i],
        ) by {
            assert(w.drop_last()[i] == w[i]);
        }
        law_trim_end(t, w.drop_last());
    }
}

/// Trimming takes the white space at both ends off and nothing else.
pub proof fn law_trim(w: Seq<char>, t: Seq<char>, v: Seq<char>)
    requires
        is_white(w),
        is_white(v),
        t.len() > 0 ==> !chars::is_white_space(t[0]) && !chars::is_white_space(t.last()),
    ensures
        chars::trimmed(w + t + v) == t,
{
    if t.len() == 0 {
        let all = w + t + v;
        assert forall|i: int| 0 <= i < all.len() implies chars::is_white_space(
            #[trigger] all[i],
        ) by {
            if i < w.len() {
                assert(all[i] == w[i]);
            } else {
                assert(all[i] == v[i - w.len()]);
            }
        }
        assert(all == all + t);
        law_trim_start(all, t);
        assert(chars::trimmed_end(t) == t);
    } else {
        assert(w + t + v == w + (t + v));
        assert((t + v)[0] == t[0]);
        law_trim_start(w, t + v);
        law_trim_end(t, v);
    }
}

/// Stripping a character at the start takes the leading run of it off and nothing
/// else.
pub proof fn law_strip_start(a: Seq<char>, t: Seq<char>, c: char)
    requires
        is_run(a, c),
        t.len() > 0 ==> t[0] != c,
    ensures
        chars::stripped_start(a + t, c) == t,
    decreases a.len(),
{
    let s = a + t;
    if a.len() == 0 {
        assert(s == t);
    } else {
        assert(s[0] == a[0]);
        assert(s.skip(1) == a.skip(1) + t);
        assert forall|i: int| 0 <= i < a.skip(1).len() implies #[trigger] a.skip(1)[i] == c by {
            assert(a.skip(1)[i] == a[i + 1]);
        }
        law_strip_start(a.skip(1), t, c);
    }
}

/// Stripping a character at the end takes the trailing run of it off and nothing
/// else.
pub proof fn law_strip_end(t: Seq<char>, b: Seq<char>, c: char)
    requires
        is_run(b, c),
        t.len() > 0 ==> t.last() != c,
    ensures
        chars::stripped_end(t + b, c) == t,
    decreases b.len(),
{
    let s = t + b;
    if b.len() == 0 {
        assert(s == t);
    } else {
        assert(s.last() == b[b.len() - 1]);
        assert(s.drop_last() == t + b.drop_last());
        assert forall|i: int| 0 <= i < b.drop_last().len() implies #[trigger] b.drop_last()[i]
            == c by {
            assert(b.drop_last()[i] == b[i]);
        }
        law_strip_end(t, b.drop_last(), c);
    }
}

/// Stripping a character takes the runs of it at both ends off and nothing else.
pub proof fn law_strip(a: Seq<char>, t: Seq<char>, b: Seq<char>, c: char)
    requires
        is_run(a, c),
        is_run(b, c),
        t.len() > 0 ==> t[0] != c && t.last() != c,
        t.len() == 0 ==> b.len() == 0,
    ensures
        chars::stripped(a + t + b, c) == t,
{
    assert(a + t + b == a + (t + b));
    if t.len() > 0 {
        assert((t + b)[0] == t[0]);
    }
    law_strip_start(a, t + b, c);
    law_strip_end(t, b, c);
}

/// Pieces with `c` between any two of them.
pub open spec fn joined_by(pieces: Seq<Seq<char>>, c: char) -> Seq<char>
    decreases pieces.len(),
{
    if pieces.len() == 0 {
        seq![]
    } else if pieces.len() == 1 {
        pieces[0]
    } else {
        pieces[0] + seq![c] + joined_by(pieces.skip(1), c)
    }
}

/// Splitting finds the pieces again that were joined: as many as there are, in
/// order, empty ones included.
pub proof fn law_split(pieces: Seq<Seq<char>>, c: char)
    requires
        pieces.len() > 0,
        forall|i: int| 0 <= i < pieces.len() ==> !(#[trigger] pieces[i]).contains(c),
    ensures
        chars::split_pieces(joined_by(pieces, c), c) == pieces,
    decreases pieces.len(),
{
    let s = joined_by(pieces, c);
    let first = pieces[0];
    assert(!first.contains(c));
    chars::lemma_first_index(s, c);
    let n = chars::first_index(s, c) as int;
    if pieces.len() == 1 {
        if n < s.len() {
            assert(first[n] == c);
        }
        assert(pieces == seq![first]);
    } else {
        let rest = pieces.skip(1);
        assert forall|i: int| 0 <= i < rest.len() implies !(#[trigger] rest[i]).contains(c) by {
            assert(rest[i] == pieces[i + 1]);
        }
        law_split(rest, c);
        assert(s[first.len() as int] == c);
        if n < first.len() {
            assert(s[n] == first[n]);
            assert(first.contains(first[n]));
        }
        assert(n == first.len());
        assert(s.take(n) == first);
        assert(s.skip(n + 1) == joined_by(rest, c));
        assert(seq![first] + rest == pieces);
    }
}

/// A line ends at `\n`, or at `\r\n`, which is not part of it.
pub proof fn law_lines(line: Seq<char>, rest: Seq<char>)
    requires
        !line.contains('\n'),
    ensures
        chars::lines_of(line + seq!['\r', '\n'] + rest) == seq![line] + chars::lines_of(rest),
        (line.len() == 0 || line.last() != '\r') ==> chars::lines_of(line + seq!['\n'] + rest)
            == seq![line] + chars::lines_of(rest),
{
    lemma_first_line(line, rest);
    let with_cr = line.push('\r');
    assert(!with_cr.contains('\n')) by {
        if with_cr.contains('\n') {
            let i = choose|i: int| 0 <= i < with_cr.len() && with_cr[i] == '\n';
            assert(line[i] == '\n');
            assert(line.contains(line[i]));
        }
    }
    lemma_first_line(with_cr, rest);
    assert(with_cr + seq!['\n'] + rest == line + seq!['\r', '\n'] + rest);
    assert(with_cr.drop_last() == line);
}

proof fn lemma_first_line(line: Seq<char>, rest: Seq<char>)
    requires
        !line.contains('\n'),
    ensures
        chars::lines_of(line + seq!['\n'] + rest) == seq![chars::without_cr(line)]
            + chars::lines_of(rest),
{
    let s = line + seq!['\n'] + rest;
    chars::lemma_first_index(s, '\n');
    let n = chars::first_index(s, '\n') as int;
    assert(s[line.len() as int] == '\n');
    if n < line.len() {
        assert(s[n] == line[n]);
        assert(line.contains(line[n]));
    }
    assert(n == line.len());
    assert(s.take(n) == line);
    assert(s.skip(n + 1) == rest);
}

/// The last line need not be terminated, and then it is kept as it stands; after
/// the last line break there is no further line.
pub proof fn law_last_line(line: Seq<char>)
    requires
        !line.contains('\n'),
    ensures
        chars::lines_of(Seq::<char>::empty()) == Seq::<Seq<char>>::empty(),
        line.len() > 0 ==> chars::lines_of(line) == seq![line],
{
    if line.len() > 0 {
        chars::lemma_first_index(line, '\n');
        let n = chars::first_index(line, '\n') as int;
        if n < line.len() {
            assert(line.contains(line[n]));
        }
    }
}

/// The words of a text are found one after the other: white space, then the first
/// word, up to the next white space.
pub proof fn law_words(gap: Seq<char>, word: Seq<char>, rest: Seq<char>)
    requires
        is_white(gap),
        wrapping::is_word(word),
        rest.len() > 0 ==> chars::is_white_space(rest[0]),
    ensures
        chars::words_of(gap) == Seq::<Seq<char>>::empty(),
        chars::words_of(gap + word + rest) == seq![word] + chars::words_of(rest),
{
    let none = Seq::<char>::empty();
    law_trim_start(gap, none);
    assert(gap + none == gap);
    let t = word + rest;
    assert(!chars::is_white_space(word[0]));
    assert(t[0] == word[0]);
    assert(gap + word + rest == gap + t);
    law_trim_start(gap, t);
    chars::lemma_word_len(t);
    let n = chars::word_len(t) as int;
    if n < word.len() {
        assert(t[n] == word[n]);
        assert(!chars::is_white_space(word[n]));
    } else if n > word.len() {
        assert(t[word.len() as int] == rest[0]);
        assert(!chars::is_white_space(t[word.len() as int]));
    }
    assert(t.take(n) == word);
    assert(t.skip(n) == rest);
}

} // verus!
