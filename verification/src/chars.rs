//! Text as a sequence of characters: the searching, trimming and splitting
//! that the parser and the layout code are written with.
//!
//! Every function here works on `&[char]`, so that a position is a number of
//! characters and a piece of a line is a slice of it.
use vstd::prelude::*;

verus! {

/// The views of a sequence of values, one by one.
pub open spec fn views<T: View>(v: Seq<T>) -> Seq<T::V> {
    Seq::new(v.len(), |i: int| v[i]@)
}

/// `String::push` appends the character it is given to the end of the string.
pub assume_specification[ String::push ](s: &mut String, ch: char)
    ensures
        final(s)@ == old(s)@.push(ch),
;

/// The characters with the Unicode property `White_Space`.
pub open spec fn is_white_space(c: char) -> bool {
    ||| '\u{9}' <= c <= '\u{d}'
    ||| c == ' '
    ||| c == '\u{85}'
    ||| c == '\u{a0}'
    ||| c == '\u{1680}'
    ||| '\u{2000}' <= c <= '\u{200a}'
    ||| c == '\u{2028}'
    ||| c == '\u{2029}'
    ||| c == '\u{202f}'
    ||| c == '\u{205f}'
    ||| c == '\u{3000}'
}

/// Whether `c` has the Unicode property `White_Space`.
pub fn is_whitespace(c: char) -> (r: bool)
    ensures
        r == is_white_space(c),
{
    ('\u{9}' <= c && c <= '\u{d}') || c == ' ' || c == '\u{85}' || c == '\u{a0}' || c == '\u{1680}'
        || ('\u{2000}' <= c && c <= '\u{200a}') || c == '\u{2028}' || c == '\u{2029}'
        || c == '\u{202f}' || c == '\u{205f}' || c == '\u{3000}'
}

/// `s` with its white space left out.
pub open spec fn visible(s: Seq<char>) -> Seq<char>
    decreases s.len(),
{
    if s.len() == 0 {
        s
    } else if is_white_space(s.last()) {
        visible(s.drop_last())
    } else {
        visible(s.drop_last()).push(s.last())
    }
}

/// The characters of a string.
pub fn to_chars(s: &str) -> (r: Vec<char>)
    ensures
        r@ == s@,
{
    let mut v: Vec<char> = Vec::new();
    for c in it: s.chars()
        invariant
            v@ == it.seq().take(it.index() as int),
            it.seq() == s@,
    {
        v.push(c);
    }
    v
}

/// Appends the characters of `s` to `out`.
pub fn push_chars(out: &mut String, s: &[char])
    ensures
        final(out)@ == old(out)@ + s@,
{
    let ghost before = out@;
    let mut i: usize = 0;
    while i < s.len()
        invariant
            i <= s@.len(),
            out@ == before + s@.take(i as int),
        decreases s@.len() - i,
    {
        out.push(s[i]);
        i = i + 1;
    }
    assert(s@.take(i as int) == s@);
}

/// The string made of the characters of `s`.
pub fn to_text(s: &[char]) -> (r: String)
    ensures
        r@ == s@,
{
    let mut out = String::new();
    push_chars(&mut out, s);
    assert(Seq::<char>::empty() + s@ == s@);
    out
}

/// `n` times the character `c`.
pub open spec fn repeated(c: char, n: nat) -> Seq<char> {
    Seq::new(n, |i: int| c)
}

/// The string made of `n` times the character `c`.
pub fn repeat_char(c: char, n: usize) -> (r: String)
    ensures
        r@ == repeated(c, n as nat),
{
    let mut out = String::new();
    let mut i: usize = 0;
    while i < n
        invariant
            i <= n,
            out@ == repeated(c, i as nat),
        decreases n - i,
    {
        out.push(c);
        i = i + 1;
    }
    out
}

/// Whether `s` starts with `prefix`.
pub fn starts_with(s: &[char], prefix: &[char]) -> (r: bool)
    ensures
        r == prefix@.is_prefix_of(s@),
{
    if prefix.len() > s.len() {
        return false;
    }
    let mut i: usize = 0;
    while i < prefix.len()
        invariant
            i <= prefix@.len() <= s@.len(),
            forall|j: int| 0 <= j < i ==> prefix@[j] == s@[j],
        decreases prefix@.len() - i,
    {
        if prefix[i] != s[i] {
            return false;
        }
        i = i + 1;
    }
    assert(prefix@.is_prefix_of(s@));
    true
}

/// The position of the first `c` in `s`, or the length of `s` if there is none.
pub open spec fn first_index(s: Seq<char>, c: char) -> nat
    decreases s.len(),
{
    if s.len() == 0 || s[0] == c {
        0
    } else {
        1 + first_index(s.skip(1), c)
    }
}

/// What `first_index` is: no `c` stands before it, and one stands at it unless
/// it is the length of `s`.
pub proof fn lemma_first_index(s: Seq<char>, c: char)
    ensures
        first_index(s, c) <= s.len(),
        forall|j: int| 0 <= j < first_index(s, c) ==> s[j] != c,
        first_index(s, c) < s.len() ==> s[first_index(s, c) as int] == c,
    decreases s.len(),
{
    if s.len() == 0 || s[0] == c {
    } else {
        lemma_first_index(s.skip(1), c);
        assert forall|j: int| 0 <= j < first_index(s, c) implies s[j] != c by {
            if j > 0 {
                assert(s.skip(1)[j - 1] == s[j]);
            }
        }
    }
}

/// The position of the first `c` in `s`, or the length of `s` if there is none.
pub fn find_char(s: &[char], c: char) -> (r: usize)
    ensures
        r == first_index(s@, c),
        r <= s@.len(),
{
    let mut i: usize = 0;
    assert(s@.skip(0) == s@);
    while i < s.len() && s[i] != c
        invariant
            i <= s@.len(),
            first_index(s@, c) == i + first_index(s@.skip(i as int), c),
        decreases s@.len() - i,
    {
        assert(s@.skip(i as int).skip(1) == s@.skip(i + 1));
        i = i + 1;
    }
    i
}

/// The position of the first occurrence of `pattern` in `s`, if there is one.
pub open spec fn first_match(s: Seq<char>, pattern: Seq<char>) -> Option<nat>
    decreases s.len(),
{
    if pattern.is_prefix_of(s) {
        Some(0)
    } else if s.len() == 0 {
        None
    } else {
        match first_match(s.skip(1), pattern) {
            Some(n) => Some(n + 1),
            None => None,
        }
    }
}

/// What `first_match` is: the pattern stands there, and nowhere before.
pub proof fn lemma_first_match(s: Seq<char>, pattern: Seq<char>)
    ensures
        match first_match(s, pattern) {
            Some(n) => {
                &&& n + pattern.len() <= s.len()
                &&& pattern.is_prefix_of(s.skip(n as int))
                &&& forall|j: int| 0 <= j < n ==> !pattern.is_prefix_of(#[trigger] s.skip(j))
            },
            None => forall|j: int|
                0 <= j <= s.len() ==> !pattern.is_prefix_of(#[trigger] s.skip(j)),
        },
    decreases s.len(),
{
    assert(s.skip(0) == s);
    if !pattern.is_prefix_of(s) && s.len() > 0 {
        let rest = s.skip(1);
        lemma_first_match(rest, pattern);
        assert forall|j: int| 1 <= j <= s.len() implies #[trigger] s.skip(j) == rest.skip(j - 1) by {
            assert(s.skip(j) =~= rest.skip(j - 1));
        }
    }
}

/// The position of the first occurrence of `pattern` in `s`, if there is one.
pub fn find(s: &[char], pattern: &[char]) -> (r: Option<usize>)
    ensures
        match r {
            Some(n) => first_match(s@, pattern@) == Some(n as nat) && n + pattern@.len() <= s@.len(),
            None => first_match(s@, pattern@) is None,
        },
{
    proof {
        lemma_first_match(s@, pattern@);
        assert(s@.skip(0) == s@);
    }
    let mut i: usize = 0;
    loop
        invariant
            i <= s@.len(),
            match first_match(s@.skip(i as int), pattern@) {
                Some(n) => first_match(s@, pattern@) == Some((n + i) as nat),
                None => first_match(s@, pattern@) is None,
            },
            first_match(s@, pattern@) matches Some(n) ==> n + pattern@.len() <= s@.len(),
        decreases s@.len() - i,
    {
        let rest = slice_from(s, i);
        if starts_with(rest, pattern) {
            return Some(i);
        }
        if i == s.len() {
            return None;
        }
        assert(s@.skip(i as int).skip(1) == s@.skip(i + 1));
        i = i + 1;
    }
}

/// The part of `s` from position `from` on.
pub fn slice_from(s: &[char], from: usize) -> (r: &[char])
    requires
        from <= s@.len(),
    ensures
        r@ == s@.skip(from as int),
{
    let r = vstd::slice::slice_subrange(s, from, s.len());
    assert(r@ == s@.skip(from as int));
    r
}

/// The part of `s` before position `to`.
pub fn slice_to(s: &[char], to: usize) -> (r: &[char])
    requires
        to <= s@.len(),
    ensures
        r@ == s@.take(to as int),
{
    let r = vstd::slice::slice_subrange(s, 0, to);
    assert(r@ == s@.take(to as int));
    r
}

/// `s` without its leading white space.
pub open spec fn trimmed_start(s: Seq<char>) -> Seq<char>
    decreases s.len(),
{
    if s.len() > 0 && is_white_space(s[0]) {
        trimmed_start(s.skip(1))
    } else {
        s
    }
}

/// `s` without its trailing white space.
pub open spec fn trimmed_end(s: Seq<char>) -> Seq<char>
    decreases s.len(),
{
    if s.len() > 0 && is_white_space(s.last()) {
        trimmed_end(s.drop_last())
    } else {
        s
    }
}

/// `s` without its leading and its trailing white space.
pub open spec fn trimmed(s: Seq<char>) -> Seq<char> {
    trimmed_end(trimmed_start(s))
}

/// `s` without its leading white space.
pub fn trim_start(s: &[char]) -> (r: &[char])
    ensures
        r@ == trimmed_start(s@),
{
    let mut i: usize = 0;
    assert(s@.skip(0) == s@);
    while i < s.len() && is_whitespace(s[i])
        invariant
            i <= s@.len(),
            trimmed_start(s@) == trimmed_start(s@.skip(i as int)),
        decreases s@.len() - i,
    {
        assert(s@.skip(i as int).skip(1) == s@.skip(i + 1));
        i = i + 1;
    }
    slice_from(s, i)
}

/// `s` without its trailing white space.
pub fn trim_end(s: &[char]) -> (r: &[char])
    ensures
        r@ == trimmed_end(s@),
{
    let mut n: usize = s.len();
    assert(s@.take(n as int) == s@);
    while n > 0 && is_whitespace(s[n - 1])
        invariant
            n <= s@.len(),
            trimmed_end(s@) == trimmed_end(s@.take(n as int)),
        decreases n,
    {
        assert(s@.take(n as int).drop_last() == s@.take(n - 1));
        n = n - 1;
    }
    slice_to(s, n)
}

/// `s` without its leading and its trailing white space.
pub fn trim(s: &[char]) -> (r: &[char])
    ensures
        r@ == trimmed(s@),
{
    trim_end(trim_start(s))
}

/// `s` without the run of `c` that it starts with.
pub open spec fn stripped_start(s: Seq<char>, c: char) -> Seq<char>
    decreases s.len(),
{
    if s.len() > 0 && s[0] == c {
        stripped_start(s.skip(1), c)
    } else {
        s
    }
}

/// `s` without the run of `c` that it ends with.
pub open spec fn stripped_end(s: Seq<char>, c: char) -> Seq<char>
    decreases s.len(),
{
    if s.len() > 0 && s.last() == c {
        stripped_end(s.drop_last(), c)
    } else {
        s
    }
}

/// `s` without the runs of `c` at its two ends.
pub open spec fn stripped(s: Seq<char>, c: char) -> Seq<char> {
    stripped_end(stripped_start(s, c), c)
}

/// `s` without the run of `c` that it starts with.
pub fn trim_start_matches(s: &[char], c: char) -> (r: &[char])
    ensures
        r@ == stripped_start(s@, c),
        r@.len() <= s@.len(),
{
    let mut i: usize = 0;
    assert(s@.skip(0) == s@);
    while i < s.len() && s[i] == c
        invariant
            i <= s@.len(),
            stripped_start(s@, c) == stripped_start(s@.skip(i as int), c),
        decreases s@.len() - i,
    {
        assert(s@.skip(i as int).skip(1) == s@.skip(i + 1));
        i = i + 1;
    }
    slice_from(s, i)
}

/// `s` without the run of `c` that it ends with.
pub fn trim_end_matches(s: &[char], c: char) -> (r: &[char])
    ensures
        r@ == stripped_end(s@, c),
{
    let mut n: usize = s.len();
    assert(s@.take(n as int) == s@);
    while n > 0 && s[n - 1] == c
        invariant
            n <= s@.len(),
            stripped_end(s@, c) == stripped_end(s@.take(n as int), c),
        decreases n,
    {
        assert(s@.take(n as int).drop_last() == s@.take(n - 1));
        n = n - 1;
    }
    slice_to(s, n)
}

/// `s` without the runs of `c` at its two ends.
pub fn trim_matches(s: &[char], c: char) -> (r: &[char])
    ensures
        r@ == stripped(s@, c),
{
    trim_end_matches(trim_start_matches(s, c), c)
}

/// `s` cut at every `c`; the cuts themselves are left out. There is one piece
/// more than there are cuts.
pub open spec fn split_pieces(s: Seq<char>, c: char) -> Seq<Seq<char>>
    decreases s.len(),
{
    let n = first_index(s, c);
    proof {
        lemma_first_index(s, c);
    }
    if n == s.len() {
        seq![s]
    } else {
        seq![s.take(n as int)] + split_pieces(s.skip(n as int + 1), c)
    }
}

/// `s` cut at every `c`.
pub fn split(s: &[char], c: char) -> (r: Vec<&[char]>)
    ensures
        views(r@) == split_pieces(s@, c),
{
    let mut out: Vec<&[char]> = Vec::new();
    let mut rest: &[char] = s;
    assert(views(out@) + split_pieces(s@, c) == split_pieces(s@, c));
    loop
        invariant
            views(out@) + split_pieces(rest@, c) == split_pieces(s@, c),
        decreases rest@.len(),
    {
        let n = find_char(rest, c);
        let ghost before = views(out@);
        if n == rest.len() {
            out.push(rest);
            assert(views(out@) == before + seq![rest@]);
            return out;
        }
        let ghost tail = split_pieces(rest@.skip(n + 1), c);
        let piece = slice_to(rest, n);
        out.push(piece);
        assert(views(out@) == before + seq![piece@]);
        assert(before + (seq![piece@] + tail) == before + seq![piece@] + tail);
        rest = slice_from(rest, n + 1);
    }
}

/// A line without the carriage return that it may end with.
pub open spec fn without_cr(s: Seq<char>) -> Seq<char> {
    if s.len() > 0 && s.last() == '\r' {
        s.drop_last()
    } else {
        s
    }
}

/// The lines of a text. A line ends at `\n` or at `\r\n`; the last line need
/// not be terminated, and its carriage returns belong to it.
pub open spec fn lines_of(s: Seq<char>) -> Seq<Seq<char>>
    decreases s.len(),
{
    let n = first_index(s, '\n');
    proof {
        lemma_first_index(s, '\n');
    }
    if s.len() == 0 {
        seq![]
    } else if n == s.len() {
        seq![s]
    } else {
        seq![without_cr(s.take(n as int))] + lines_of(s.skip(n as int + 1))
    }
}

/// The lines of a text.
pub fn split_lines(s: &[char]) -> (r: Vec<&[char]>)
    ensures
        views(r@) == lines_of(s@),
{
    let mut out: Vec<&[char]> = Vec::new();
    let mut rest: &[char] = s;
    assert(views(out@) + lines_of(s@) == lines_of(s@));
    while rest.len() > 0
        invariant
            views(out@) + lines_of(rest@) == lines_of(s@),
        decreases rest@.len(),
    {
        let n = find_char(rest, '\n');
        let ghost before = views(out@);
        if n == rest.len() {
            out.push(rest);
            assert(views(out@) == before + seq![rest@]);
            return out;
        }
        let ghost tail = lines_of(rest@.skip(n + 1));
        let mut line: &[char] = slice_to(rest, n);
        if n > 0 && line[n - 1] == '\r' {
            line = slice_to(line, n - 1);
            assert(line@ == rest@.take(n as int).drop_last());
        }
        assert(line@ == without_cr(rest@.take(n as int)));
        out.push(line);
        assert(views(out@) == before + seq![line@]);
        assert(before + (seq![line@] + tail) == before + seq![line@] + tail);
        rest = slice_from(rest, n + 1);
    }
    assert(views(out@) + Seq::<Seq<char>>::empty() == views(out@));
    out
}

/// The number of characters before the first white space of `s`.
pub open spec fn word_len(s: Seq<char>) -> nat
    decreases s.len(),
{
    if s.len() == 0 || is_white_space(s[0]) {
        0
    } else {
        1 + word_len(s.skip(1))
    }
}

/// What `word_len` is.
pub proof fn lemma_word_len(s: Seq<char>)
    ensures
        word_len(s) <= s.len(),
        forall|j: int| 0 <= j < word_len(s) ==> !is_white_space(#[trigger] s[j]),
        word_len(s) < s.len() ==> is_white_space(s[word_len(s) as int]),
    decreases s.len(),
{
    if s.len() == 0 || is_white_space(s[0]) {
    } else {
        lemma_word_len(s.skip(1));
        assert forall|j: int| 0 <= j < word_len(s) implies !is_white_space(#[trigger] s[j]) by {
            if j > 0 {
                assert(s.skip(1)[j - 1] == s[j]);
            }
        }
    }
}

/// The number of characters before the first white space of `s`.
pub fn find_word_end(s: &[char]) -> (r: usize)
    ensures
        r == word_len(s@),
        r <= s@.len(),
{
    let mut i: usize = 0;
    assert(s@.skip(0) == s@);
    while i < s.len() && !is_whitespace(s[i])
        invariant
            i <= s@.len(),
            word_len(s@) == i + word_len(s@.skip(i as int)),
        decreases s@.len() - i,
    {
        assert(s@.skip(i as int).skip(1) == s@.skip(i + 1));
        i = i + 1;
    }
    i
}

/// Trimming never makes a text longer, and what is left starts with a visible
/// character.
pub proof fn lemma_trimmed_start(s: Seq<char>)
    ensures
        trimmed_start(s).len() <= s.len(),
        trimmed_start(s) == s.skip(s.len() - trimmed_start(s).len()),
        forall|j: int| 0 <= j < s.len() - trimmed_start(s).len() ==> is_white_space(#[trigger] s[j]),
        trimmed_start(s).len() > 0 ==> !is_white_space(trimmed_start(s)[0]),
    decreases s.len(),
{
    if s.len() > 0 && is_white_space(s[0]) {
        let rest = s.skip(1);
        lemma_trimmed_start(rest);
        let n = rest.len() - trimmed_start(rest).len();
        assert(rest.skip(n) == s.skip(n + 1));
        assert forall|j: int| 0 <= j < s.len() - trimmed_start(s).len() implies is_white_space(
            #[trigger] s[j],
        ) by {
            if j > 0 {
                assert(rest[j - 1] == s[j]);
            }
        }
    } else {
        assert(s.skip(0) == s);
    }
}

/// What is left after trimming at the end is a prefix, followed only by white
/// space, and it ends with a visible character.
pub proof fn lemma_trimmed_end(s: Seq<char>)
    ensures
        trimmed_end(s).len() <= s.len(),
        trimmed_end(s) == s.take(trimmed_end(s).len() as int),
        forall|j: int| trimmed_end(s).len() <= j < s.len() ==> is_white_space(#[trigger] s[j]),
        trimmed_end(s).len() > 0 ==> !is_white_space(trimmed_end(s).last()),
    decreases s.len(),
{
    if s.len() > 0 && is_white_space(s.last()) {
        let rest = s.drop_last();
        lemma_trimmed_end(rest);
        let n = trimmed_end(rest).len();
        assert(rest.take(n as int) == s.take(n as int));
        assert forall|j: int| trimmed_end(s).len() <= j < s.len() implies is_white_space(
            #[trigger] s[j],
        ) by {
            if j < s.len() - 1 {
                assert(rest[j] == s[j]);
            }
        }
    } else {
        assert(s.take(s.len() as int) == s);
    }
}

/// The words of a text: its maximal runs of visible characters.
pub open spec fn words_of(s: Seq<char>) -> Seq<Seq<char>>
    decreases s.len(),
{
    let t = trimmed_start(s);
    proof {
        lemma_trimmed_start(s);
        lemma_word_len(t);
    }
    if t.len() == 0 {
        seq![]
    } else {
        seq![t.take(word_len(t) as int)] + words_of(t.skip(word_len(t) as int))
    }
}

/// The words of a text.
pub fn split_whitespace(s: &[char]) -> (r: Vec<&[char]>)
    ensures
        views(r@) == words_of(s@),
{
    let mut out: Vec<&[char]> = Vec::new();
    let mut rest: &[char] = trim_start(s);
    proof {
        lemma_trimmed_start(s@);
        lemma_trimmed_idempotent(s@);
        assert(views(out@) + words_of(s@) == words_of(s@));
    }
    while rest.len() > 0
        invariant
            views(out@) + words_of(rest@) == words_of(s@),
            rest@ == trimmed_start(rest@),
        decreases rest@.len(),
    {
        let n = find_word_end(rest);
        let ghost before = views(out@);
        let word = slice_to(rest, n);
        let after = slice_from(rest, n);
        proof {
            lemma_word_len(rest@);
            lemma_trimmed_start(rest@);
            lemma_trimmed_start(after@);
            lemma_trimmed_idempotent(after@);
        }
        out.push(word);
        let ghost tail = words_of(after@);
        assert(views(out@) == before + seq![word@]);
        assert(before + (seq![word@] + tail) == before + seq![word@] + tail);
        rest = trim_start(after);
    }
    assert(views(out@) + Seq::<Seq<char>>::empty() == views(out@));
    out
}

/// Trimming a trimmed text changes nothing, so the words of a text are those
/// of its trimmed form.
pub proof fn lemma_trimmed_idempotent(s: Seq<char>)
    ensures
        trimmed_start(trimmed_start(s)) == trimmed_start(s),
        words_of(trimmed_start(s)) == words_of(s),
{
    lemma_trimmed_start(s);
}

} // verus!
