//! Laws of wrapping that fix every line: what stands on the first one, and how the
//! others follow from it.
use vstd::prelude::*;

use crate::chars;
use crate::laws::pieces;
use crate::laws::wrapping;
use crate::width;
use crate::wrap;

verus! {

// ---------------------------------------------------------------------------
// Columns

/// A character takes the columns that were measured for it, and a tab reaches the
/// next multiple of eight.
pub proof fn law_columns(s: Seq<(char, usize)>, c: char, cells: usize)
    ensures
        wrap::columns(Seq::<(char, usize)>::empty()) == 0,
        c != '\t' ==> wrap::columns(s.push((c, cells))) == wrap::columns(s) + cells,
        c == '\t' ==> {
            &&& wrap::columns(s.push((c, cells))) % 8 == 0
            &&& wrap::columns(s) < wrap::columns(s.push((c, cells))) <= wrap::columns(s) + 8
        },
{
    assert(s.push((c, cells)).drop_last() == s);
}

/// Text is measured character by character; one that has no width takes one column.
pub proof fn law_measured_chars(s: Seq<char>, i: int)
    requires
        0 <= i < s.len(),
    ensures
        wrap::measured_chars(s).len() == s.len(),
        wrap::measured_chars(s)[i].0 == s[i],
        width::char_width(s[i]) matches Some(w) ==> wrap::measured_chars(s)[i].1 == w,
        width::char_width(s[i]) is None ==> wrap::measured_chars(s)[i].1 == 1,
{
}

// ---------------------------------------------------------------------------
// Code

/// The first line of wrapped code is the longest part that fits, and one character
/// in any case; what is left is wrapped by itself. Without columns, or without any
/// text, the code is one line.
pub proof fn law_first_code_line(s: Seq<(char, usize)>, width: nat)
    ensures
        ({
            let whole = Seq::new(s.len(), |i: int| s[i].0);
            let lines = wrap::code_lines(s, width);
            &&& width == 0 || s.len() == 0 ==> lines == seq![whole]
            &&& width > 0 && s.len() > 0 ==> exists|n: int|
                {
                    &&& 1 <= n <= s.len()
                    &&& lines.len() > 0
                    &&& lines[0] == #[trigger] whole.take(n)
                    &&& n == 1 || wrap::columns(s.take(n)) <= width
                    &&& n < s.len() ==> wrap::columns(s.take(n + 1)) > width && lines.skip(1)
                        == wrap::code_lines(s.skip(n), width)
                    &&& n == s.len() ==> lines.len() == 1
                }
        }),
{
    let whole = Seq::new(s.len(), |i: int| s[i].0);
    let lines = wrap::code_lines(s, width);
    assert(wrap::text_of(s) == whole);
    if width > 0 && s.len() > 0 {
        let n = wrap::chunk_len(s, 0, width) as int;
        wrap::lemma_chunk_len(s, 0, width);
        wrapping::lemma_chunk_fits(s, 0, width);
        assert(wrap::text_of(s.take(n)) == whole.take(n));
        let rest = wrap::code_chunks(s.skip(n), width);
        assert(lines == seq![whole.take(n)] + rest);
        assert(lines.skip(1) == rest);
        if n == s.len() {
            assert(rest == Seq::<Seq<char>>::empty());
        }
    }
}

// ---------------------------------------------------------------------------
// Prose

/// The columns that words take together.
pub open spec fn widths(words: Seq<wrap::WordView>) -> nat
    decreases words.len(),
{
    if words.len() == 0 {
        0
    } else {
        words[0].width as nat + widths(words.skip(1))
    }
}

proof fn lemma_widths_last(words: Seq<wrap::WordView>)
    requires
        words.len() > 0,
    ensures
        widths(words) == widths(words.drop_last()) + words.last().width,
    decreases words.len(),
{
    if words.len() > 1 {
        let rest = words.skip(1);
        lemma_widths_last(rest);
        assert(rest.drop_last() == words.drop_last().skip(1));
        assert(rest.last() == words.last());
        assert(words.drop_last()[0] == words[0]);
    } else {
        assert(words.skip(1) == Seq::<wrap::WordView>::empty());
        assert(words.drop_last() == Seq::<wrap::WordView>::empty());
    }
}

proof fn lemma_joined_by_last(parts: Seq<Seq<char>>, c: char)
    requires
        parts.len() > 1,
    ensures
        pieces::joined_by(parts, c) == pieces::joined_by(parts.drop_last(), c) + seq![c]
            + parts.last(),
    decreases parts.len(),
{
    let rest = parts.skip(1);
    let init = parts.drop_last();
    if parts.len() > 2 {
        lemma_joined_by_last(rest, c);
        assert(rest.drop_last() == init.skip(1));
        assert(rest.last() == parts.last());
        assert(init[0] == parts[0]);
        let mid = pieces::joined_by(init.skip(1), c);
        assert(parts[0] + seq![c] + (mid + seq![c] + parts.last()) == parts[0] + seq![c] + mid
            + seq![c] + parts.last());
    } else {
        assert(rest.len() == 1 && rest[0] == parts[1]);
        assert(init.len() == 1 && init[0] == parts[0]);
        assert(pieces::joined_by(rest, c) == parts[1]);
    }
}

/// Words on a line have one space between any two of them and take the columns of
/// the words and of those spaces.
pub proof fn law_joined(words: Seq<wrap::WordView>)
    requires
        words.len() > 0,
    ensures
        wrap::joined(words) == pieces::joined_by(wrapping::texts(words), ' '),
        wrap::joined_width(words) == widths(words) + words.len() - 1,
    decreases words.len(),
{
    let texts = wrapping::texts(words);
    if words.len() == 1 {
        assert(words.skip(1) == Seq::<wrap::WordView>::empty());
        assert(widths(words.skip(1)) == 0);
    } else {
        let init = words.drop_last();
        law_joined(init);
        lemma_widths_last(words);
        lemma_joined_by_last(texts, ' ');
        assert(texts.drop_last() == wrapping::texts(init));
        let before = wrap::joined(init);
        assert(before.push(' ') + words.last().text == before + seq![' '] + words.last().text);
    }
}

/// The first line of wrapped words has as many words as fit, and one in any case,
/// with single spaces between them; the other words are wrapped by themselves. No
/// words make one empty line.
pub proof fn law_first_prose_line(words: Seq<wrap::WordView>, width: nat)
    ensures
        ({
            let texts = Seq::new(words.len(), |i: int| words[i].text);
            let lines = wrap::word_lines(words, width);
            &&& words.len() == 0 ==> lines == seq![Seq::<char>::empty()]
            &&& words.len() > 0 ==> exists|n: int|
                {
                    &&& 1 <= n <= words.len()
                    &&& lines.len() > 0
                    &&& lines[0] == pieces::joined_by(#[trigger] texts.take(n), ' ')
                    &&& n == 1 || widths(words.take(n)) + n - 1 <= width
                    &&& n < words.len() ==> widths(words.take(n + 1)) + n > width && lines.skip(1)
                        == wrap::word_lines(words.skip(n), width)
                    &&& n == words.len() ==> lines.len() == 1
                }
        }),
{
    let texts = Seq::new(words.len(), |i: int| words[i].text);
    let lines = wrap::word_lines(words, width);
    if words.len() > 0 {
        let n = wrap::line_len(words, 0, width) as int;
        wrap::lemma_line_len(words, 0, width);
        wrapping::lemma_line_fits(words, 0, width);
        law_joined(words.take(n));
        assert(wrapping::texts(words.take(n)) == texts.take(n));
        let rest = wrap::filled(words.skip(n), width);
        assert(lines == seq![wrap::joined(words.take(n))] + rest);
        assert(lines.skip(1) == rest);
        if n < words.len() {
            law_joined(words.take(n + 1));
        } else {
            assert(rest == Seq::<Seq<char>>::empty());
        }
    }
}

/// A text is wrapped by its words, each measured as a whole; without columns it is
/// left as it is.
pub proof fn law_prose_words(s: Seq<char>, width: nat)
    ensures
        ({
            let words = chars::words_of(s);
            let measured = Seq::new(
                words.len(),
                |i: int| wrap::WordView { text: words[i], width: width::str_width(words[i]) },
            );
            &&& width == 0 ==> wrap::text_lines(s, width) == seq![s]
            &&& width > 0 ==> wrap::text_lines(s, width) == wrap::word_lines(measured, width)
        }),
{
    let words = chars::words_of(s);
    let measured = Seq::new(
        words.len(),
        |i: int| wrap::WordView { text: words[i], width: width::str_width(words[i]) },
    );
    assert(wrap::measured_words(words) == measured);
}

// ---------------------------------------------------------------------------
// Table cells

/// A cell that fits is left as it is; any other is filled with its words, measured
/// as a whole and character by character.
pub proof fn law_cell_words(cell: Seq<char>, col_width: nat)
    ensures
        ({
            let words = chars::words_of(cell);
            let measured = Seq::new(
                words.len(),
                |i: int|
                    wrap::CellWordView {
                        chars: wrap::measured_chars(words[i]),
                        width: width::str_width(words[i]),
                    },
            );
            let fits = cell.len() == 0 || width::str_width(cell) <= col_width;
            &&& fits ==> wrap::cell_lines(cell, col_width) == seq![cell]
            &&& !fits ==> wrap::cell_lines(cell, col_width) == wrap::cell_word_lines(
                measured,
                col_width,
            )
        }),
{
    let words = chars::words_of(cell);
    let measured = Seq::new(
        words.len(),
        |i: int|
            wrap::CellWordView {
                chars: wrap::measured_chars(words[i]),
                width: width::str_width(words[i]),
            },
    );
    assert(wrap::measured_cell(words) == measured);
}

/// Whether a word has no tab, its first character takes a column at least, and the
/// others do too unless no character is wider than the column of the table.
pub open spec fn is_solid(s: Seq<(char, usize)>, col_width: nat) -> bool {
    &&& s.len() > 0
    &&& s[0].1 > 0
    &&& forall|i: int| 0 <= i < s.len() ==> (#[trigger] s[i]).0 != '\t'
    &&& has_width(s) || has_room(s, col_width)
}

/// Whether every character takes a column at least.
pub open spec fn has_width(s: Seq<(char, usize)>) -> bool {
    forall|i: int| 0 <= i < s.len() ==> (#[trigger] s[i]).1 > 0
}

/// Whether no character is wider than the column of the table.
pub open spec fn has_room(s: Seq<(char, usize)>, col_width: nat) -> bool {
    forall|i: int| 0 <= i < s.len() ==> (#[trigger] s[i]).1 <= col_width
}

/// Where the breaking of a word stands after its first `i` characters.
spec fn is_breaking(
    st: wrap::CellState,
    lines: Seq<Seq<char>>,
    s: Seq<(char, usize)>,
    col_width: nat,
    start: int,
    i: int,
) -> bool {
    let rest = s.skip(start);
    let part = rest.take(i - start);
    &&& 0 <= start < i <= s.len()
    &&& lines.len() <= st.lines.len()
    &&& st.lines.take(lines.len() as int) == lines
    &&& st.lines.skip(lines.len() as int) + wrap::code_chunks(rest, col_width)
        == wrap::code_chunks(s, col_width)
    &&& st.current == wrap::text_of(part)
    &&& st.width == wrap::columns(part)
    &&& st.width > 0
    &&& has_room(s, col_width) ==> st.width <= col_width
    &&& wrap::chunk_len(rest, 0, col_width) == wrap::chunk_len(
        rest,
        (i - start) as nat,
        col_width,
    )
}

proof fn lemma_breaking_step(
    st: wrap::CellState,
    lines: Seq<Seq<char>>,
    s: Seq<(char, usize)>,
    col_width: nat,
    start: int,
    i: int,
) -> (next_start: int)
    requires
        is_solid(s, col_width),
        i < s.len(),
        is_breaking(st, lines, s, col_width, start, i),
    ensures
        is_breaking(
            wrap::with_char(st, s[i], col_width),
            lines,
            s,
            col_width,
            next_start,
            i + 1,
        ),
{
    let next = wrap::with_char(st, s[i], col_width);
    let rest = s.skip(start);
    let k = i - start;
    let part = rest.take(k);
    let longer = rest.take(k + 1);
    let m = lines.len() as int;
    assert(longer.drop_last() == part);
    assert(longer.last() == s[i]);
    assert(s[i].0 != '\t');
    assert(has_width(s) ==> s[i].1 > 0);
    assert(has_room(s, col_width) ==> s[i].1 <= col_width);
    assert(wrap::columns(longer) == st.width + s[i].1);
    if st.width + s[i].1 > col_width {
        let fresh = s.skip(i);
        let one = fresh.take(1);
        assert(one.drop_last() == Seq::<(char, usize)>::empty());
        assert(one.last() == s[i]);
        assert(wrap::columns(one.drop_last()) == 0);
        assert(wrap::columns(one) == s[i].1);
        assert(wrap::text_of(one) == seq![s[i].0]);
        assert(next.current == seq![s[i].0]);
        assert(rest.skip(k) == fresh);
        let tail = wrap::code_chunks(fresh, col_width);
        assert(wrap::code_chunks(rest, col_width) == seq![wrap::text_of(part)] + tail);
        assert(next.lines == st.lines.push(st.current));
        assert(next.lines.take(m) == st.lines.take(m));
        assert(next.lines.skip(m) == st.lines.skip(m).push(st.current));
        assert(st.lines.skip(m) + (seq![st.current] + tail) == st.lines.skip(m).push(st.current)
            + tail);
        assert(wrap::chunk_len(fresh, 0, col_width) == wrap::chunk_len(fresh, 1, col_width));
        i
    } else {
        assert(wrap::text_of(longer) == wrap::text_of(part).push(s[i].0));
        start
    }
}

proof fn lemma_breaking(
    lines: Seq<Seq<char>>,
    s: Seq<(char, usize)>,
    col_width: nat,
    i: int,
) -> (start: int)
    requires
        is_solid(s, col_width),
        0 < i <= s.len(),
    ensures
        is_breaking(
            wrap::with_chars(
                wrap::CellState { lines, current: Seq::<char>::empty(), width: 0 },
                s.take(i),
                col_width,
            ),
            lines,
            s,
            col_width,
            start,
            i,
        ),
    decreases i,
{
    let empty = wrap::CellState { lines, current: Seq::<char>::empty(), width: 0 };
    let head = s.take(i);
    let init = s.take(i - 1);
    assert(head.drop_last() == init);
    assert(head.last() == s[i - 1]);
    assert(s[i - 1].0 != '\t');
    assert(has_room(s, col_width) ==> s[i - 1].1 <= col_width);
    if i == 1 {
        let st = wrap::with_chars(empty, head, col_width);
        assert(wrap::with_chars(empty, init, col_width) == empty);
        assert(st.current == seq![s[0].0]);
        assert(s.skip(0) == s);
        assert(wrap::columns(init) == 0);
        assert(wrap::text_of(head) == seq![s[0].0]);
        assert(st.lines.take(lines.len() as int) == lines);
        let none = st.lines.skip(lines.len() as int);
        assert(none == Seq::<Seq<char>>::empty());
        assert(none + wrap::code_chunks(s, col_width) == wrap::code_chunks(s, col_width));
        0
    } else {
        let start = lemma_breaking(lines, s, col_width, i - 1);
        lemma_breaking_step(
            wrap::with_chars(empty, init, col_width),
            lines,
            s,
            col_width,
            start,
            i - 1,
        )
    }
}

/// A word that is broken, from the start of a line on, is cut as code is.
proof fn lemma_broken_as_code(lines: Seq<Seq<char>>, s: Seq<(char, usize)>, col_width: nat)
    requires
        is_solid(s, col_width),
        col_width > 0,
    ensures
        ({
            let empty = wrap::CellState { lines, current: Seq::<char>::empty(), width: 0 };
            let st = wrap::with_chars(empty, s, col_width);
            &&& st.lines.push(st.current) == lines + wrap::code_lines(s, col_width)
            &&& st.width > 0
            &&& st.current.len() > 0
        }),
{
    let empty = wrap::CellState { lines, current: Seq::<char>::empty(), width: 0 };
    let n = s.len() as int;
    let start = lemma_breaking(lines, s, col_width, n);
    assert(s.take(n) == s);
    let st = wrap::with_chars(empty, s, col_width);
    let rest = s.skip(start);
    let m = lines.len() as int;
    assert(rest.take(rest.len() as int) == rest);
    assert(wrap::code_chunks(rest.skip(rest.len() as int), col_width) == Seq::<
        Seq<char>,
    >::empty());
    assert(wrap::code_chunks(rest, col_width) == seq![wrap::text_of(rest)]) by {
        let one = seq![wrap::text_of(rest)];
        assert(one + Seq::<Seq<char>>::empty() == one);
    }
    let all = st.lines.push(st.current);
    assert(all == st.lines.take(m) + (st.lines.skip(m) + seq![st.current]));
}

/// Whether every word of a cell takes the columns that `cells` gives its characters,
/// and is solid.
pub open spec fn all_solid(
    words: Seq<wrap::CellWordView>,
    cells: spec_fn(char) -> nat,
    col_width: nat,
) -> bool {
    forall|i: int|
        0 <= i < words.len() ==> {
            &&& is_solid((#[trigger] words[i]).chars, col_width)
            &&& wrapping::chars_measured_by(words[i].chars, cells)
            &&& words[i].width == wrapping::cells_in(wrap::text_of(words[i].chars), cells)
        }
}

proof fn lemma_solid_takes_room(
    s: Seq<(char, usize)>,
    cells: spec_fn(char) -> nat,
    col_width: nat,
)
    requires
        is_solid(s, col_width),
        wrapping::chars_measured_by(s, cells),
    ensures
        wrapping::cells_in(wrap::text_of(s), cells) > 0,
{
    let text = wrap::text_of(s);
    let first = text.take(1);
    assert(text == first + text.skip(1));
    wrapping::lemma_cells_in_concat(first, text.skip(1), cells);
    assert(s[0].1 == cells(s[0].0));
    assert(first.last() == s[0].0);
    assert(wrapping::cells_in(first, cells) >= cells(s[0].0));
}

proof fn lemma_chars_count(
    st: wrap::CellState,
    s: Seq<(char, usize)>,
    cells: spec_fn(char) -> nat,
    col_width: nat,
)
    requires
        st.width == wrapping::cells_in(st.current, cells),
        wrapping::chars_measured_by(s, cells),
    ensures
        ({
            let next = wrap::with_chars(st, s, col_width);
            next.width == wrapping::cells_in(next.current, cells)
        }),
    decreases s.len(),
{
    if s.len() > 0 {
        let init = s.drop_last();
        assert forall|j: int| 0 <= j < init.len() implies (#[trigger] init[j]).1 == cells(
            init[j].0,
        ) by {
            assert(init[j] == s[j]);
        }
        lemma_chars_count(st, init, cells, col_width);
        let before = wrap::with_chars(st, init, col_width);
        assert(s[s.len() - 1].1 == cells(s[s.len() - 1].0));
        let at = if before.width + s.last().1 > col_width && before.width > 0 {
            wrap::broken(before)
        } else {
            before
        };
        assert(wrapping::cells_in(wrap::broken(before).current, cells) == 0);
        assert(at.current.push(s.last().0).drop_last() == at.current);
    }
}

proof fn lemma_cell_counts(
    words: Seq<wrap::CellWordView>,
    cells: spec_fn(char) -> nat,
    col_width: nat,
)
    requires
        all_solid(words, cells, col_width),
        cells(' ') == 1,
        col_width > 0,
    ensures
        ({
            let st = wrap::with_words(words, col_width);
            &&& st.width == wrapping::cells_in(st.current, cells)
            &&& words.len() > 0 ==> st.width > 0 && st.current.len() > 0
            &&& words.len() == 0 ==> st == wrap::empty_cell()
        }),
    decreases words.len(),
{
    if words.len() > 0 {
        let init = words.drop_last();
        assert forall|i: int| 0 <= i < init.len() implies {
            &&& is_solid((#[trigger] init[i]).chars, col_width)
            &&& wrapping::chars_measured_by(init[i].chars, cells)
            &&& init[i].width == wrapping::cells_in(wrap::text_of(init[i].chars), cells)
        } by {
            assert(init[i] == words[i]);
        }
        lemma_cell_counts(init, cells, col_width);
        let st = wrap::with_words(init, col_width);
        let word = words.last();
        assert(word == words[words.len() - 1]);
        let text = wrap::text_of(word.chars);
        let fresh = wrap::broken(st);
        lemma_solid_takes_room(word.chars, cells, col_width);
        assert(wrapping::cells_in(Seq::<char>::empty(), cells) == 0);
        assert(Seq::<char>::empty() + text == text);
        if word.width > col_width {
            if st.width == 0 {
                lemma_broken_as_code(st.lines, word.chars, col_width);
                lemma_chars_count(st, word.chars, cells, col_width);
            } else {
                lemma_broken_as_code(fresh.lines, word.chars, col_width);
                lemma_chars_count(fresh, word.chars, cells, col_width);
            }
        } else if st.width > 0 && st.width + 1 + word.width <= col_width {
            assert(st.current.push(' ').drop_last() == st.current);
            wrapping::lemma_cells_in_concat(st.current.push(' '), text, cells);
        }
    }
}

/// A word more goes behind a space on the last line of a cell if it fits there, else
/// on a line of its own if it fits there, and else it is cut as code is.
pub proof fn law_next_cell_word(
    words: Seq<wrap::CellWordView>,
    word: wrap::CellWordView,
    cells: spec_fn(char) -> nat,
    col_width: nat,
)
    requires
        all_solid(words.push(word), cells, col_width),
        cells(' ') == 1,
        col_width > 0,
    ensures
        wrap::cell_word_lines(Seq::<wrap::CellWordView>::empty(), col_width) == seq![
            Seq::<char>::empty(),
        ],
        ({
            let text = Seq::new(word.chars.len(), |i: int| word.chars[i].0);
            let own = if word.width <= col_width {
                seq![text]
            } else {
                wrap::code_lines(word.chars, col_width)
            };
            let before = wrap::cell_word_lines(words, col_width);
            let after = wrap::cell_word_lines(words.push(word), col_width);
            &&& words.len() == 0 ==> after == own
            &&& words.len() > 0 ==> {
                let room = wrapping::cells_in(before.last(), cells) + 1 + word.width <= col_width;
                &&& before.len() > 0
                &&& room ==> after == before.drop_last().push(before.last() + seq![' '] + text)
                &&& !room ==> after == before + own
            }
        }),
{
    let all = words.push(word);
    assert(all.drop_last() == words);
    assert(all.last() == word);
    assert(all[words.len() as int] == word);
    assert forall|i: int| 0 <= i < words.len() implies {
        &&& is_solid((#[trigger] words[i]).chars, col_width)
        &&& wrapping::chars_measured_by(words[i].chars, cells)
        &&& words[i].width == wrapping::cells_in(wrap::text_of(words[i].chars), cells)
    } by {
        assert(all[i] == words[i]);
    }
    lemma_cell_counts(words, cells, col_width);
    lemma_cell_counts(all, cells, col_width);
    let st = wrap::with_words(words, col_width);
    let next = wrap::with_words(all, col_width);
    let text = wrap::text_of(word.chars);
    assert(text == Seq::new(word.chars.len(), |i: int| word.chars[i].0));
    let before = wrap::cell_word_lines(words, col_width);
    let after = wrap::cell_word_lines(all, col_width);
    let fresh = wrap::broken(st);
    assert(after == next.lines.push(next.current));
    assert(Seq::<char>::empty() + text == text);
    assert(wrap::with_words(Seq::<wrap::CellWordView>::empty(), col_width) == wrap::empty_cell());
    assert(wrap::cell_word_lines(Seq::<wrap::CellWordView>::empty(), col_width) == seq![
        Seq::<char>::empty(),
    ]);
    if words.len() == 0 {
        if word.width > col_width {
            lemma_broken_as_code(st.lines, word.chars, col_width);
            let own = wrap::code_lines(word.chars, col_width);
            assert(st.lines + own == own);
        } else {
            assert(after == seq![text]);
        }
    } else {
        assert(before == st.lines.push(st.current));
        assert(before.drop_last() == st.lines);
        if st.width + 1 + word.width <= col_width {
            assert(st.current.push(' ') + text == st.current + seq![' '] + text);
        } else if word.width > col_width {
            lemma_broken_as_code(fresh.lines, word.chars, col_width);
        } else {
            assert(after == before + seq![text]);
        }
    }
}

} // verus!
