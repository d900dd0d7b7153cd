//! Wrapping: code lines at any character, prose at word boundaries, and table
//! cells at word boundaries with a hard break for words that are too wide.
//!
//! Each kind of wrapping has a function that takes text and measures it, and one
//! that takes what was measured and does the rest.
use vstd::prelude::*;
use vstd::string::StringExecFns;

use crate::chars;
use crate::chars::{split_whitespace, to_chars, to_text};
use crate::laws::wrapping;
use crate::width;
use crate::width::{cells_or_one, column_advance, measure_char, measure_str};

verus! {

// ---------------------------------------------------------------------------
// Code lines

/// The characters of a measured text.
pub open spec fn text_of(s: Seq<(char, usize)>) -> Seq<char> {
    Seq::new(s.len(), |i: int| s[i].0)
}

/// The characters of `s`, each with the columns that it takes.
pub open spec fn measured_chars(s: Seq<char>) -> Seq<(char, usize)> {
    Seq::new(s.len(), |i: int| (s[i], width::cells_of(width::char_width(s[i]))))
}

/// The column at which the cursor stands after `s`, written from column zero.
pub open spec fn columns(s: Seq<(char, usize)>) -> nat
    decreases s.len(),
{
    if s.len() == 0 {
        0
    } else {
        let col = columns(s.drop_last());
        col + width::advance(s.last().0, s.last().1, col)
    }
}

/// How many characters of `s` go on the first line, given that `n` of them do:
/// as many as fit in `width` columns, and one in any case.
pub open spec fn chunk_len(s: Seq<(char, usize)>, n: nat, width: nat) -> nat
    decreases s.len() - n,
{
    if n < s.len() && (n == 0 || columns(s.take(n as int + 1)) <= width) {
        chunk_len(s, n + 1, width)
    } else {
        n
    }
}

/// `chunk_len` stays between the number that it is given and the length.
pub proof fn lemma_chunk_len(s: Seq<(char, usize)>, n: nat, width: nat)
    requires
        n <= s.len(),
    ensures
        n <= chunk_len(s, n, width) <= s.len(),
        n == 0 < s.len() ==> chunk_len(s, n, width) >= 1,
    decreases s.len() - n,
{
    if n < s.len() && (n == 0 || columns(s.take(n as int + 1)) <= width) {
        lemma_chunk_len(s, n + 1, width);
    }
}

/// A measured text cut into lines, each as long as `width` columns allow.
pub open spec fn code_chunks(s: Seq<(char, usize)>, width: nat) -> Seq<Seq<char>>
    decreases s.len(),
{
    let n = chunk_len(s, 0, width) as int;
    proof {
        lemma_chunk_len(s, 0, width);
    }
    if s.len() == 0 {
        seq![]
    } else {
        seq![text_of(s.take(n))] + code_chunks(s.skip(n), width)
    }
}

/// The lines of a measured code line. Without any columns to fill, or without
/// any text, it is one line.
pub open spec fn code_lines(s: Seq<(char, usize)>, width: nat) -> Seq<Seq<char>> {
    if width == 0 || s.len() == 0 {
        seq![text_of(s)]
    } else {
        code_chunks(s, width)
    }
}

/// The characters of a measured text.
pub fn plain_text(s: &[(char, usize)]) -> (r: String)
    ensures
        r@ == text_of(s@),
{
    let mut out = String::new();
    let mut i: usize = 0;
    while i < s.len()
        invariant
            i <= s@.len(),
            out@ == text_of(s@.take(i as int)),
        decreases s@.len() - i,
    {
        out.push(s[i].0);
        i = i + 1;
    }
    assert(s@.take(i as int) == s@);
    out
}

/// Hard-wraps a measured code line at `width` display columns.
pub fn wrap_code_chars(line: &[(char, usize)], width: usize) -> (r: Vec<String>)
    ensures
        chars::views(r@) == code_lines(line@, width as nat),
{
    let mut chunks: Vec<String> = Vec::new();
    let mut current = String::new();
    if width == 0 || line.len() == 0 {
        chunks.push(plain_text(line));
        assert(chars::views(chunks@) == seq![text_of(line@)]);
        return chunks;
    }
    let mut current_width: usize = 0;
    let mut start: usize = 0;
    let mut i: usize = 0;
    proof {
        assert(line@.skip(0) == line@);
        assert(chars::views(chunks@) + code_chunks(line@, width as nat) == code_chunks(
            line@,
            width as nat,
        ));
    }
    while i < line.len()
        invariant
            width > 0,
            start <= i <= line@.len(),
            i > 0 ==> start < i,
            chars::views(chunks@) + code_chunks(line@.skip(start as int), width as nat)
                == code_chunks(line@, width as nat),
            current@ == text_of(line@.skip(start as int).take(i - start)),
            current_width == columns(line@.skip(start as int).take(i - start)),
            chunk_len(line@.skip(start as int), 0, width as nat) == chunk_len(
                line@.skip(start as int),
                (i - start) as nat,
                width as nat,
            ),
        decreases line@.len() - i,
    {
        let (ch, cells) = line[i];
        let advance = column_advance(ch, cells, current_width);
        let fits = current_width <= width && advance <= width - current_width;
        let ghost rest = line@.skip(start as int);
        let ghost k = i - start;
        proof {
            assert(rest.take(k + 1).drop_last() == rest.take(k));
            assert(rest.take(k + 1).last() == line@[i as int]);
            assert(columns(rest.take(k + 1)) == current_width + advance);
        }
        if !fits && i > start {
            let ghost before = chars::views(chunks@);
            let mut full = String::new();
            core::mem::swap(&mut full, &mut current);
            chunks.push(full);
            proof {
                let tail = code_chunks(line@.skip(i as int), width as nat);
                assert(rest.skip(k) == line@.skip(i as int));
                assert(chars::views(chunks@) == before + seq![text_of(rest.take(k))]);
                assert(before + (seq![text_of(rest.take(k))] + tail) == before + seq![
                    text_of(rest.take(k)),
                ] + tail);
                assert(line@.skip(i as int).take(0) == Seq::<(char, usize)>::empty());
            }
            start = i;
            current_width = 0;
        }
        let ghost fresh = line@.skip(start as int);
        let ghost m = i - start;
        assert(current_width == columns(fresh.take(m)));
        current_width = current_width + column_advance(ch, cells, current_width);
        current.push(ch);
        proof {
            assert(columns(fresh.take(m + 1)) == current_width) by {
                assert(fresh.take(m + 1).drop_last() == fresh.take(m));
            }
            assert(fresh.take(m + 1).drop_last() == fresh.take(m));
            assert(fresh.take(m + 1).last() == line@[i as int]);
            assert(text_of(fresh.take(m + 1)) == text_of(fresh.take(m)).push(ch));
        }
        i = i + 1;
    }
    let ghost before = chars::views(chunks@);
    chunks.push(current);
    proof {
        let rest = line@.skip(start as int);
        assert(rest.take(rest.len() as int) == rest);
        assert(code_chunks(rest.skip(rest.len() as int), width as nat) == Seq::<Seq<char>>::empty());
        assert(chars::views(chunks@) == before + seq![text_of(rest)]);
        assert(seq![text_of(rest)] + Seq::<Seq<char>>::empty() == seq![text_of(rest)]);
    }
    chunks
}

/// Hard-wraps a code line at `width` display columns, preserving all white
/// space, leading indentation included.
pub fn wrap_code_line(line: &str, width: usize) -> (r: Vec<String>)
    ensures
        chars::views(r@) == code_lines(measured_chars(line@), width as nat),
        width > 0 && width::is_plain(line@) ==> forall|i: int|
            0 <= i < r@.len() ==> (#[trigger] r@[i])@.len() <= width,
{
    let measured = measure_chars(line);
    let chunks = wrap_code_chars(measured.as_slice(), width);
    proof {
        if width > 0 && width::is_plain(line@) {
            assert forall|i: int| 0 <= i < chunks@.len() implies (#[trigger] chunks@[i])@.len()
                <= width by {
                wrapping::law_narrow_code_fits(measured@, width as nat, i);
                assert(chars::views(chunks@)[i] == chunks@[i]@);
            }
        }
    }
    chunks
}

/// The characters of a string, each with the columns that it takes.
pub fn measure_chars(s: &str) -> (r: Vec<(char, usize)>)
    ensures
        r@ == measured_chars(s@),
        forall|i: int| 0 <= i < r@.len() ==> (#[trigger] r@[i]).1 <= 3,
        width::is_plain(s@) ==> forall|i: int| 0 <= i < r@.len() ==> (#[trigger] r@[i]).1 == 1,
{
    let text = to_chars(s);
    let mut out: Vec<(char, usize)> = Vec::new();
    let mut i: usize = 0;
    while i < text.len()
        invariant
            i <= text@.len(),
            out@ == measured_chars(text@.take(i as int)),
            forall|k: int| 0 <= k < i ==> (#[trigger] out@[k]).1 <= 3,
            forall|k: int|
                0 <= k < i && width::is_ascii_printable(text@[k]) ==> (#[trigger] out@[k]).1 == 1,
        decreases text@.len() - i,
    {
        let cells = cells_or_one(measure_char(text[i]));
        out.push((text[i], cells));
        assert(text@.take(i + 1).drop_last() == text@.take(i as int));
        i = i + 1;
    }
    assert(text@.take(i as int) == text@);
    out
}

// ---------------------------------------------------------------------------
// Prose

/// A word together with the columns that it takes.
#[derive(Debug)]
pub struct MeasuredWord {
    pub text: String,
    pub width: usize,
}

/// What a `MeasuredWord` stands for.
pub struct WordView {
    pub text: Seq<char>,
    pub width: usize,
}

impl View for MeasuredWord {
    type V = WordView;

    open spec fn view(&self) -> WordView {
        WordView { text: self.text@, width: self.width }
    }
}

/// Words, each with its width.
pub open spec fn measured_words(words: Seq<Seq<char>>) -> Seq<WordView> {
    Seq::new(words.len(), |i: int| WordView { text: words[i], width: width::str_width(words[i]) })
}

/// Words with one space between any two of them.
pub open spec fn joined(words: Seq<WordView>) -> Seq<char>
    decreases words.len(),
{
    if words.len() == 0 {
        seq![]
    } else if words.len() == 1 {
        words[0].text
    } else {
        joined(words.drop_last()).push(' ') + words.last().text
    }
}

/// The columns that words take, with one space between any two of them.
pub open spec fn joined_width(words: Seq<WordView>) -> nat
    decreases words.len(),
{
    if words.len() == 0 {
        0
    } else if words.len() == 1 {
        words[0].width as nat
    } else {
        joined_width(words.drop_last()) + 1 + words.last().width as nat
    }
}

/// How many of the words go on the first line, given that `n` of them do: as
/// many as fit in `width` columns, and one in any case.
pub open spec fn line_len(words: Seq<WordView>, n: nat, width: nat) -> nat
    decreases words.len() - n,
{
    if n < words.len() && (n == 0 || joined_width(words.take(n as int + 1)) <= width) {
        line_len(words, n + 1, width)
    } else {
        n
    }
}

/// `line_len` stays between the number that it is given and the length.
pub proof fn lemma_line_len(words: Seq<WordView>, n: nat, width: nat)
    requires
        n <= words.len(),
    ensures
        n <= line_len(words, n, width) <= words.len(),
        n == 0 < words.len() ==> line_len(words, n, width) >= 1,
    decreases words.len() - n,
{
    if n < words.len() && (n == 0 || joined_width(words.take(n as int + 1)) <= width) {
        lemma_line_len(words, n + 1, width);
    }
}

/// Words filled into lines, each with as many words as `width` columns allow.
pub open spec fn filled(words: Seq<WordView>, width: nat) -> Seq<Seq<char>>
    decreases words.len(),
{
    let n = line_len(words, 0, width) as int;
    proof {
        lemma_line_len(words, 0, width);
    }
    if words.len() == 0 {
        seq![]
    } else {
        seq![joined(words.take(n))] + filled(words.skip(n), width)
    }
}

/// The lines of measured words; no words at all make one empty line.
pub open spec fn word_lines(words: Seq<WordView>, width: nat) -> Seq<Seq<char>> {
    if words.len() == 0 {
        seq![seq![]]
    } else {
        filled(words, width)
    }
}

/// The lines of a text. Without any columns to fill it is left as it is.
pub open spec fn text_lines(text: Seq<char>, width: nat) -> Seq<Seq<char>> {
    if width == 0 {
        seq![text]
    } else {
        word_lines(measured_words(chars::words_of(text)), width)
    }
}

/// Fills measured words into lines of `width` columns.
pub fn wrap_words(words: &[MeasuredWord], width: usize) -> (r: Vec<String>)
    ensures
        chars::views(r@) == word_lines(chars::views(words@), width as nat),
{
    let ghost all = chars::views(words@);
    let mut lines: Vec<String> = Vec::new();
    let mut current = String::new();
    let mut current_width: usize = 0;
    let mut start: usize = 0;
    let mut i: usize = 0;
    proof {
        assert(all.skip(0) == all);
        assert(chars::views(lines@) + filled(all, width as nat) == filled(all, width as nat));
    }
    while i < words.len()
        invariant
            all == chars::views(words@),
            start <= i <= words@.len(),
            i > 0 ==> start < i,
            chars::views(lines@) + filled(all.skip(start as int), width as nat) == filled(
                all,
                width as nat,
            ),
            current@ == joined(all.skip(start as int).take(i - start)),
            current_width == joined_width(all.skip(start as int).take(i - start)),
            line_len(all.skip(start as int), 0, width as nat) == line_len(
                all.skip(start as int),
                (i - start) as nat,
                width as nat,
            ),
            start == 0 ==> lines@.len() == 0,
        decreases words@.len() - i,
    {
        let word_width = words[i].width;
        let ghost rest = all.skip(start as int);
        let ghost k = i - start;
        proof {
            assert(rest.take(k + 1).drop_last() == rest.take(k));
            assert(rest.take(k + 1).last() == words@[i as int]@);
        }
        if i > start && !(current_width < width && word_width <= width - current_width - 1) {
            assert(joined_width(rest.take(k + 1)) == current_width + 1 + word_width);
            let ghost before = chars::views(lines@);
            let mut full = String::new();
            core::mem::swap(&mut full, &mut current);
            lines.push(full);
            proof {
                let tail = filled(all.skip(i as int), width as nat);
                assert(rest.skip(k) == all.skip(i as int));
                assert(chars::views(lines@) == before + seq![joined(rest.take(k))]);
                assert(before + (seq![joined(rest.take(k))] + tail) == before + seq![
                    joined(rest.take(k)),
                ] + tail);
                assert(all.skip(i as int).take(1).len() == 1);
            }
            start = i;
            current.append(words[i].text.as_str());
            current_width = word_width;
            assert(current@ == words@[i as int].text@);
            assert(all.skip(start as int).take(1)[0] == words@[i as int]@);
        } else {
            if i > start {
                assert(joined_width(rest.take(k + 1)) == current_width + 1 + word_width);
                assert(joined(rest.take(k + 1)) == current@.push(' ') + words@[i as int].text@);
                current.push(' ');
                current_width = current_width + 1;
            } else {
                assert(rest.take(1)[0] == words@[i as int]@);
                assert(rest.take(0).len() == 0);
                assert(Seq::<char>::empty() + words@[i as int].text@ == words@[i as int].text@);
            }
            current.append(words[i].text.as_str());
            current_width = current_width + word_width;
        }
        i = i + 1;
    }
    let ghost before = chars::views(lines@);
    lines.push(current);
    proof {
        let rest = all.skip(start as int);
        assert(rest.take(rest.len() as int) == rest);
        assert(chars::views(lines@) == before + seq![joined(rest)]);
        if all.len() == 0 {
            assert(chars::views(lines@) == seq![Seq::<char>::empty()]);
        } else {
            assert(filled(rest.skip(rest.len() as int), width as nat) == Seq::<Seq<char>>::empty());
            assert(seq![joined(rest)] + Seq::<Seq<char>>::empty() == seq![joined(rest)]);
        }
    }
    lines
}

/// Word-wraps a text at `width` display columns. A word that is wider than
/// that has a line of its own.
pub fn wrap_text(text: &str, width: usize) -> (r: Vec<String>)
    ensures
        chars::views(r@) == text_lines(text@, width as nat),
        width > 0 && width::is_plain(text@) ==> forall|i: int|
            0 <= i < r@.len() ==> (#[trigger] r@[i])@.len() <= width || wrapping::is_word(r@[i]@),
{
    let text_chars = to_chars(text);
    if width == 0 {
        let mut out: Vec<String> = Vec::new();
        out.push(to_text(text_chars.as_slice()));
        assert(chars::views(out@) == seq![text@]);
        return out;
    }
    let words = split_whitespace(text_chars.as_slice());
    let mut measured: Vec<MeasuredWord> = Vec::new();
    let mut i: usize = 0;
    while i < words.len()
        invariant
            i <= words@.len(),
            chars::views(measured@) == measured_words(chars::views(words@)).take(i as int),
            forall|k: int|
                0 <= k < i && width::is_plain(words@[k]@) ==> (#[trigger] measured@[k]).width
                    == words@[k]@.len(),
        decreases words@.len() - i,
    {
        let word = to_text(words[i]);
        let word_width = measure_str(word.as_str());
        let ghost before = chars::views(measured@);
        measured.push(MeasuredWord { text: word, width: word_width });
        assert(chars::views(measured@) == before.push(
            measured_words(chars::views(words@))[i as int],
        ));
        i = i + 1;
    }
    assert(chars::views(measured@) == measured_words(chars::views(words@)));
    let lines = wrap_words(measured.as_slice(), width);
    proof {
        if width::is_plain(text@) {
            let all = chars::views(measured@);
            wrapping::law_words_of_plain(text@);
            assert forall|k: int| 0 <= k < all.len() implies wrapping::is_word(
                #[trigger] all[k].text,
            ) && all[k].width == all[k].text.len() by {
                wrapping::law_words_are_words(text@, k);
                assert(chars::views(words@)[k] == words@[k]@);
                assert(measured@[k].width == words@[k]@.len());
            }
            assert forall|i: int| 0 <= i < lines@.len() implies (#[trigger] lines@[i])@.len()
                <= width || wrapping::is_word(lines@[i]@) by {
                wrapping::law_narrow_words_fit(all, width as nat, i);
                assert(chars::views(lines@)[i] == lines@[i]@);
            }
        }
    }
    lines
}

// ---------------------------------------------------------------------------
// Table cells

/// A word of a table cell: its characters, each with the columns that it takes,
/// and the columns that the word takes as a whole.
#[derive(Debug)]
pub struct CellWord {
    pub chars: Vec<(char, usize)>,
    pub width: usize,
}

/// What a `CellWord` stands for.
pub struct CellWordView {
    pub chars: Seq<(char, usize)>,
    pub width: usize,
}

impl View for CellWord {
    type V = CellWordView;

    open spec fn view(&self) -> CellWordView {
        CellWordView { chars: self.chars@, width: self.width }
    }
}

/// The words of a cell, measured.
pub open spec fn measured_cell(words: Seq<Seq<char>>) -> Seq<CellWordView> {
    Seq::new(
        words.len(),
        |i: int|
            CellWordView { chars: measured_chars(words[i]), width: width::str_width(words[i]) },
    )
}

/// Whether each character of a word takes one column.
pub open spec fn is_narrow(word: CellWordView) -> bool {
    &&& word.width == word.chars.len()
    &&& forall|j: int| 0 <= j < word.chars.len() ==> (#[trigger] word.chars[j]).1 == 1
}

/// A cell while it is being filled: the lines that are complete, the line that
/// is being written, and the columns counted for it.
#[verifier::ext_equal]
pub struct CellState {
    pub lines: Seq<Seq<char>>,
    pub current: Seq<char>,
    pub width: nat,
}

/// A cell before anything is put into it.
pub open spec fn empty_cell() -> CellState {
    CellState { lines: seq![], current: seq![], width: 0 }
}

/// The current line is completed and a new one begun.
pub open spec fn broken(st: CellState) -> CellState {
    CellState { lines: st.lines.push(st.current), current: seq![], width: 0 }
}

/// One character of a hard-broken word is put into the cell, on a new line if it
/// does not fit on a line that has something on it.
pub open spec fn with_char(st: CellState, c: (char, usize), col_width: nat) -> CellState {
    let at = if st.width + c.1 > col_width && st.width > 0 {
        broken(st)
    } else {
        st
    };
    CellState { lines: at.lines, current: at.current.push(c.0), width: at.width + c.1 as nat }
}

/// The characters of a word are put into the cell one by one.
pub open spec fn with_chars(st: CellState, s: Seq<(char, usize)>, col_width: nat) -> CellState
    decreases s.len(),
{
    if s.len() == 0 {
        st
    } else {
        with_char(with_chars(st, s.drop_last(), col_width), s.last(), col_width)
    }
}

/// A word is put at the start of a line: whole if it fits in the column,
/// character by character if it does not.
pub open spec fn with_first_word(st: CellState, word: CellWordView, col_width: nat) -> CellState {
    if word.width > col_width {
        with_chars(st, word.chars, col_width)
    } else {
        CellState {
            lines: st.lines,
            current: st.current + text_of(word.chars),
            width: word.width as nat,
        }
    }
}

/// A word is put into the cell: after a space if it fits on the current line,
/// else at the start of a line.
pub open spec fn with_word(st: CellState, word: CellWordView, col_width: nat) -> CellState {
    if st.width == 0 {
        with_first_word(st, word, col_width)
    } else if st.width + 1 + word.width <= col_width {
        CellState {
            lines: st.lines,
            current: st.current.push(' ') + text_of(word.chars),
            width: st.width + 1 + word.width as nat,
        }
    } else {
        with_first_word(broken(st), word, col_width)
    }
}

/// The cell after all the words are put into it, in order.
pub open spec fn with_words(words: Seq<CellWordView>, col_width: nat) -> CellState
    decreases words.len(),
{
    if words.len() == 0 {
        empty_cell()
    } else {
        with_word(with_words(words.drop_last(), col_width), words.last(), col_width)
    }
}

/// The lines of measured words in a column of `col_width` columns. There is at
/// least one.
pub open spec fn cell_word_lines(words: Seq<CellWordView>, col_width: nat) -> Seq<Seq<char>> {
    let st = with_words(words, col_width);
    if st.current.len() > 0 || st.lines.len() == 0 {
        st.lines.push(st.current)
    } else {
        st.lines
    }
}

/// The lines of a table cell. A cell that fits in the column is left as it is.
pub open spec fn cell_lines(cell: Seq<char>, col_width: nat) -> Seq<Seq<char>> {
    if cell.len() == 0 || width::str_width(cell) <= col_width {
        seq![cell]
    } else {
        cell_word_lines(measured_cell(chars::words_of(cell)), col_width)
    }
}

/// A cell while it is being filled.
struct CellFill {
    lines: Vec<String>,
    current: String,
    width: usize,
}

impl View for CellFill {
    type V = CellState;

    closed spec fn view(&self) -> CellState {
        CellState {
            lines: chars::views(self.lines@),
            current: self.current@,
            width: self.width as nat,
        }
    }
}

impl CellFill {
    fn new() -> (r: CellFill)
        ensures
            r@ == empty_cell(),
    {
        let r = CellFill { lines: Vec::new(), current: String::new(), width: 0 };
        assert(r@.lines == Seq::<Seq<char>>::empty());
        r
    }

    fn break_line(&mut self)
        ensures
            final(self)@ == broken(old(self)@),
    {
        let ghost before = self@;
        let mut full = String::new();
        core::mem::swap(&mut full, &mut self.current);
        self.lines.push(full);
        self.width = 0;
        assert(self@.lines == before.lines.push(before.current));
        assert(self@ == broken(before));
    }

    /// Puts the characters of a word into the cell, breaking lines between any
    /// two of them.
    fn push_word_breaking_chars(&mut self, word: &[(char, usize)], col_width: usize)
        ensures
            final(self)@ == with_chars(old(self)@, word@, col_width as nat),
    {
        let ghost before = self@;
        let mut i: usize = 0;
        while i < word.len()
            invariant
                i <= word@.len(),
                self@ == with_chars(before, word@.take(i as int), col_width as nat),
            decreases word@.len() - i,
        {
            let (ch, cells) = word[i];
            assert(word@.take(i + 1).drop_last() == word@.take(i as int));
            if self.width > 0 && !(self.width <= col_width && cells <= col_width - self.width) {
                self.break_line();
            }
            let ghost at = self@;
            self.current.push(ch);
            self.width = self.width + cells;
            assert(self@.lines == at.lines);
            i = i + 1;
        }
        assert(word@.take(i as int) == word@);
    }

    /// Puts a word at the start of a line.
    fn push_first_word(&mut self, word: &CellWord, col_width: usize)
        ensures
            final(self)@ == with_first_word(old(self)@, word@, col_width as nat),
    {
        if word.width > col_width {
            self.push_word_breaking_chars(word.chars.as_slice(), col_width);
        } else {
            let ghost before = self@;
            let text = plain_text(word.chars.as_slice());
            self.current.append(text.as_str());
            self.width = word.width;
            assert(self@.lines == before.lines);
        }
    }

    /// Puts a word into the cell.
    fn push_word(&mut self, word: &CellWord, col_width: usize)
        ensures
            final(self)@ == with_word(old(self)@, word@, col_width as nat),
    {
        if self.width == 0 {
            self.push_first_word(word, col_width);
        } else if self.width < col_width && word.width <= col_width - self.width - 1 {
            let ghost before = self@;
            let text = plain_text(word.chars.as_slice());
            self.current.push(' ');
            self.current.append(text.as_str());
            self.width = self.width + 1 + word.width;
            assert(self@.lines == before.lines);
        } else {
            self.break_line();
            self.push_first_word(word, col_width);
        }
    }
}

/// Fills the measured words of a cell into a column of `col_width` columns.
pub fn wrap_cell_words(words: &[CellWord], col_width: usize) -> (r: Vec<String>)
    ensures
        chars::views(r@) == cell_word_lines(chars::views(words@), col_width as nat),
{
    let ghost all = chars::views(words@);
    let mut fill = CellFill::new();
    let mut i: usize = 0;
    while i < words.len()
        invariant
            all == chars::views(words@),
            i <= words@.len(),
            fill@ == with_words(all.take(i as int), col_width as nat),
        decreases words@.len() - i,
    {
        assert(all.take(i + 1).drop_last() == all.take(i as int));
        fill.push_word(&words[i], col_width);
        i = i + 1;
    }
    assert(all.take(i as int) == all);
    let CellFill { lines: mut lines, current: current, width: _ } = fill;
    if !current.as_str().is_empty() || lines.len() == 0 {
        let ghost before = chars::views(lines@);
        lines.push(current);
        assert(chars::views(lines@) == before.push(current@));
    }
    lines
}

/// Word-wraps the text of a table cell into one or more lines of `col_width`
/// display columns. White space is the preferred break point; a word that is
/// wider than the column is broken between any two characters, so that no text
/// is ever left out.
pub fn wrap_cell_text(cell: &str, col_width: usize) -> (r: Vec<String>)
    ensures
        chars::views(r@) == cell_lines(cell@, col_width as nat),
        col_width > 0 && width::is_plain(cell@) ==> forall|i: int|
            0 <= i < r@.len() ==> (#[trigger] r@[i])@.len() <= col_width,
{
    let cell_chars = to_chars(cell);
    if cell_chars.len() == 0 || measure_str(cell) <= col_width {
        let mut out: Vec<String> = Vec::new();
        out.push(to_text(cell_chars.as_slice()));
        assert(chars::views(out@) == seq![cell@]);
        return out;
    }
    let words = split_whitespace(cell_chars.as_slice());
    let mut measured: Vec<CellWord> = Vec::new();
    let mut i: usize = 0;
    while i < words.len()
        invariant
            i <= words@.len(),
            chars::views(measured@) == measured_cell(chars::views(words@)).take(i as int),
            forall|k: int|
                0 <= k < i && width::is_plain(words@[k]@) ==> is_narrow(#[trigger] measured@[k]@),
        decreases words@.len() - i,
    {
        let word = to_text(words[i]);
        let word_width = measure_str(word.as_str());
        let word_chars = measure_chars(word.as_str());
        let ghost before = chars::views(measured@);
        measured.push(CellWord { chars: word_chars, width: word_width });
        assert(chars::views(measured@) == before.push(
            measured_cell(chars::views(words@))[i as int],
        ));
        i = i + 1;
    }
    assert(chars::views(measured@) == measured_cell(chars::views(words@)));
    let lines = wrap_cell_words(measured.as_slice(), col_width);
    proof {
        if col_width > 0 && width::is_plain(cell@) {
            let all = chars::views(measured@);
            wrapping::law_words_of_plain(cell@);
            assert forall|k: int| 0 <= k < all.len() implies is_narrow(#[trigger] all[k]) by {
                assert(chars::views(words@)[k] == words@[k]@);
                assert(is_narrow(measured@[k]@));
            }
            wrapping::law_narrow_cell_fits(all, col_width as nat);
            assert forall|i: int| 0 <= i < lines@.len() implies (#[trigger] lines@[i])@.len()
                <= col_width by {
                assert(chars::views(lines@)[i] == lines@[i]@);
            }
        }
    }
    lines
}

} // verus!
