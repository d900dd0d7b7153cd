//! Laws of the source syntax, said of the characters of the source: which lines are
//! fences, headings, list items, rules, table rows, blanks and paragraphs, and what
//! is taken from each.
use vstd::prelude::*;

use crate::block;
use crate::chars;
use crate::laws::parsing;
use crate::laws::pieces;
use crate::laws::tables;

verus! {

// ---------------------------------------------------------------------------
// Lines

/// Whether three backquotes stand at position `k` of a line, behind white space
/// alone.
pub open spec fn fence_at(line: Seq<char>, k: int) -> bool {
    &&& 0 <= k && k + 3 <= line.len()
    &&& pieces::is_white(line.take(k))
    &&& line[k] == '`' && line[k + 1] == '`' && line[k + 2] == '`'
}

/// Whether the first visible characters of a line are three backquotes.
pub open spec fn shows_fence(line: Seq<char>) -> bool {
    exists|k: int| fence_at(line, k)
}

/// A line is a fence if and only if its first visible characters are three
/// backquotes, however far it is indented and whatever follows.
pub proof fn law_fences(line: Seq<char>)
    ensures
        block::is_fence(line) <==> shows_fence(line),
{
    let t = chars::trimmed_start(line);
    let d = line.len() - t.len();
    let fence = seq!['`', '`', '`'];
    chars::lemma_trimmed_start(line);
    if block::is_fence(line) {
        assert(t.subrange(0, 3)[0] == '`' && t.subrange(0, 3)[1] == '`' && t.subrange(0, 3)[2]
            == '`');
        assert(t[0] == line[d] && t[1] == line[d + 1] && t[2] == line[d + 2]);
        assert forall|i: int| 0 <= i < line.take(d).len() implies chars::is_white_space(
            #[trigger] line.take(d)[i],
        ) by {
            assert(line.take(d)[i] == line[i]);
        }
        assert(fence_at(line, d));
    }
    if shows_fence(line) {
        let k = choose|k: int| fence_at(line, k);
        let u = line.skip(k);
        assert(line.take(k) + u == line);
        assert(u[0] == line[k] && u[1] == line[k + 1] && u[2] == line[k + 2]);
        pieces::law_trim_start(line.take(k), u);
        assert(fence == u.subrange(0, 3));
    }
}

/// A line with white space before a first visible character.
proof fn lemma_indented(w: Seq<char>, t: Seq<char>)
    requires
        pieces::is_white(w),
        t.len() > 0,
        !chars::is_white_space(t[0]),
    ensures
        chars::trimmed_start(w + t) == t,
        chars::trimmed_start(t) == t,
        (w + t).len() > 0,
        t[0] != '`' ==> !block::is_fence(w + t),
{
    pieces::law_trim_start(w, t);
    let none = Seq::<char>::empty();
    pieces::law_trim_start(none, t);
    assert(none + t == t);
    if seq!['`', '`', '`'].is_prefix_of(t) {
        assert(t.subrange(0, 3)[0] == '`');
    }
}

/// A source of one line that is no fence has the blocks of that line.
proof fn lemma_one_line(line: Seq<char>)
    requires
        line.len() > 0,
        !line.contains('\n'),
        !block::is_fence(line),
    ensures
        block::parsed(line) == block::blocks_of_line(line),
{
    pieces::law_last_line(line);
    lemma_blocks_of_one(line);
}

proof fn lemma_blocks_of_one(line: Seq<char>)
    requires
        !block::is_fence(line),
    ensures
        block::blocks_of(seq![line]) == block::blocks_of_line(line),
        !block::in_code(seq![line]),
{
    let one = seq![line];
    let none = Seq::<Seq<char>>::empty();
    assert(one.drop_last() == none);
    assert(block::blocks_of(none) == Seq::<block::BlockView>::empty());
    assert(!block::in_code(none));
    let blocks = block::blocks_of_line(line);
    assert(Seq::<block::BlockView>::empty() + blocks == blocks);
}

/// An empty source has no blocks.
pub proof fn law_empty_source()
    ensures
        block::parsed(Seq::<char>::empty()) == Seq::<block::BlockView>::empty(),
{
    pieces::law_last_line(Seq::<char>::empty());
}

/// A line that is no fence, outside code blocks, is parsed by itself, and so is
/// what follows it.
pub proof fn law_first_line(line: Seq<char>, rest: Seq<char>)
    requires
        !line.contains('\n'),
        line.len() == 0 || line.last() != '\r',
        !shows_fence(line),
    ensures
        line.len() > 0 ==> block::parsed(line + seq!['\n'] + rest) == block::parsed(line)
            + block::parsed(rest),
        line.len() > 0 ==> block::parsed(line + seq!['\r', '\n'] + rest) == block::parsed(line)
            + block::parsed(rest),
        line.len() == 0 ==> block::parsed(seq!['\n'] + rest) == seq![block::BlockView::Blank]
            + block::parsed(rest),
{
    law_fences(line);
    pieces::law_lines(line, rest);
    lemma_blocks_of_one(line);
    parsing::law_blocks_append(seq![line], chars::lines_of(rest));
    if line.len() > 0 {
        lemma_one_line(line);
    } else {
        assert(line + seq!['\n'] + rest == seq!['\n'] + rest);
        assert(chars::trimmed_start(line) == line);
        parsing::law_blank_lines(line);
    }
}

// ---------------------------------------------------------------------------
// Code blocks

/// Lines, each followed by a line break.
pub open spec fn terminated(lines: Seq<Seq<char>>) -> Seq<char>
    decreases lines.len(),
{
    if lines.len() == 0 {
        seq![]
    } else {
        lines[0] + seq!['\n'] + terminated(lines.skip(1))
    }
}

/// Whether a text can stand on one line of a source.
pub open spec fn is_one_line(s: Seq<char>) -> bool {
    !s.contains('\n') && (s.len() == 0 || s.last() != '\r')
}

proof fn lemma_terminated_lines(lines: Seq<Seq<char>>, rest: Seq<char>)
    requires
        forall|i: int| 0 <= i < lines.len() ==> is_one_line(#[trigger] lines[i]),
    ensures
        chars::lines_of(terminated(lines) + rest) == lines + chars::lines_of(rest),
    decreases lines.len(),
{
    if lines.len() == 0 {
        assert(terminated(lines) + rest == rest);
        assert(lines + chars::lines_of(rest) == chars::lines_of(rest));
    } else {
        let tail = lines.skip(1);
        assert(is_one_line(lines[0]));
        assert forall|i: int| 0 <= i < tail.len() implies is_one_line(#[trigger] tail[i]) by {
            assert(tail[i] == lines[i + 1]);
        }
        lemma_terminated_lines(tail, rest);
        pieces::law_lines(lines[0], terminated(tail) + rest);
        assert(lines[0] + seq!['\n'] + (terminated(tail) + rest) == terminated(lines) + rest);
        let after = chars::lines_of(rest);
        assert(seq![lines[0]] + (tail + after) == lines + after);
    }
}

proof fn lemma_fence_line(w: Seq<char>, info: Seq<char>)
    requires
        pieces::is_white(w),
    ensures
        block::is_fence(w + seq!['`', '`', '`'] + info),
{
    let line = w + seq!['`', '`', '`'] + info;
    assert(line.take(w.len() as int) == w);
    assert(fence_at(line, w.len() as int));
    law_fences(line);
}

proof fn lemma_no_fences(body: Seq<Seq<char>>)
    requires
        forall|i: int| 0 <= i < body.len() ==> !shows_fence(#[trigger] body[i]),
    ensures
        forall|i: int| 0 <= i < body.len() ==> !block::is_fence(#[trigger] body[i]),
{
    assert forall|i: int| 0 <= i < body.len() implies !block::is_fence(#[trigger] body[i]) by {
        law_fences(body[i]);
    }
}

/// A fenced code block: white space, three backquotes and anything on the line;
/// lines that do not show a fence; and such a line again. The lines between are
/// code, kept as they stand, and what follows is parsed by itself.
pub proof fn law_code_block(
    w: Seq<char>,
    info: Seq<char>,
    body: Seq<Seq<char>>,
    v: Seq<char>,
    tail: Seq<char>,
    rest: Seq<char>,
)
    requires
        pieces::is_white(w),
        pieces::is_white(v),
        is_one_line(w + seq!['`', '`', '`'] + info),
        is_one_line(v + seq!['`', '`', '`'] + tail),
        forall|i: int|
            0 <= i < body.len() ==> is_one_line(#[trigger] body[i]) && !shows_fence(body[i]),
    ensures
        ({
            let open = w + seq!['`', '`', '`'] + info;
            let close = v + seq!['`', '`', '`'] + tail;
            let source = open + seq!['\n'] + terminated(body) + close + seq!['\n'] + rest;
            let parsed = block::parsed(source);
            let after = block::parsed(rest);
            &&& parsed.len() == body.len() + after.len()
            &&& forall|i: int|
                0 <= i < body.len() ==> #[trigger] parsed[i] == (block::BlockView::Code {
                    line: body[i],
                })
            &&& parsed.skip(body.len() as int) == after
        }),
{
    let open = w + seq!['`', '`', '`'] + info;
    let close = v + seq!['`', '`', '`'] + tail;
    let source = open + seq!['\n'] + terminated(body) + close + seq!['\n'] + rest;
    let after = chars::lines_of(rest);
    lemma_fence_line(w, info);
    lemma_fence_line(v, tail);
    lemma_no_fences(body);
    pieces::law_lines(close, rest);
    lemma_terminated_lines(body, close + seq!['\n'] + rest);
    pieces::law_lines(open, terminated(body) + (close + seq!['\n'] + rest));
    assert(open + seq!['\n'] + (terminated(body) + (close + seq!['\n'] + rest)) == source);
    let none = Seq::<Seq<char>>::empty();
    assert(!block::in_code(none));
    parsing::law_fenced_code_block(none, open, body, close, after);
    assert((none.push(open) + body).push(close) + after == seq![open] + (body + (seq![close]
        + after)));
    let codes = parsing::code_blocks(body);
    assert(block::blocks_of(none) + codes == codes);
    let parsed = block::parsed(source);
    assert(parsed == codes + block::parsed(rest));
    assert(parsed.skip(body.len() as int) == block::parsed(rest));
}

/// A code block that is not closed runs to the end of the source.
pub proof fn law_open_code_block(w: Seq<char>, info: Seq<char>, body: Seq<Seq<char>>)
    requires
        pieces::is_white(w),
        is_one_line(w + seq!['`', '`', '`'] + info),
        forall|i: int|
            0 <= i < body.len() ==> is_one_line(#[trigger] body[i]) && !shows_fence(body[i]),
    ensures
        ({
            let source = w + seq!['`', '`', '`'] + info + seq!['\n'] + terminated(body);
            let parsed = block::parsed(source);
            &&& parsed.len() == body.len()
            &&& forall|i: int|
                0 <= i < body.len() ==> #[trigger] parsed[i] == (block::BlockView::Code {
                    line: body[i],
                })
        }),
{
    let open = w + seq!['`', '`', '`'] + info;
    let source = open + seq!['\n'] + terminated(body);
    let empty = Seq::<char>::empty();
    lemma_fence_line(w, info);
    lemma_no_fences(body);
    lemma_terminated_lines(body, empty);
    pieces::law_last_line(empty);
    pieces::law_lines(open, terminated(body) + empty);
    assert(open + seq!['\n'] + (terminated(body) + empty) == source);
    let none = Seq::<Seq<char>>::empty();
    assert(!block::in_code(none));
    parsing::law_unclosed_code_block(none, open, body);
    assert(none.push(open) + body == seq![open] + (body + none));
    let codes = parsing::code_blocks(body);
    assert(block::blocks_of(none) + codes == codes);
}

// ---------------------------------------------------------------------------
// Headings

proof fn lemma_hashes(hashes: Seq<char>, rest: Seq<char>)
    requires
        pieces::is_run(hashes, '#'),
        hashes.len() > 0,
        rest.len() > 0 ==> rest[0] != '#',
    ensures
        ({
            let t = hashes + rest;
            let text = chars::trimmed(rest);
            block::heading_of(t) == if hashes.len() <= 6 && text.len() > 0 {
                Some((hashes.len() as usize, text))
            } else {
                None
            }
        }),
        (hashes + rest)[0] == '#',
{
    let t = hashes + rest;
    assert(t[0] == hashes[0]);
    let none = Seq::<char>::empty();
    pieces::law_trim_start(none, t);
    assert(none + t == t);
    pieces::law_strip_start(hashes, rest, '#');
}

/// One to six `#` and a text make a heading of that level: white space around the
/// text does not belong to it, all the rest does, and a level-1 heading has a rule.
pub proof fn law_heading(
    w: Seq<char>,
    hashes: Seq<char>,
    gap: Seq<char>,
    text: Seq<char>,
    v: Seq<char>,
)
    requires
        pieces::is_white(w),
        pieces::is_run(hashes, '#'),
        1 <= hashes.len() <= 6,
        pieces::is_white(gap),
        pieces::is_white(v),
        text.len() > 0,
        !chars::is_white_space(text[0]),
        !chars::is_white_space(text.last()),
        gap.len() == 0 ==> text[0] != '#',
        !(w + (hashes + (gap + text + v))).contains('\n'),
    ensures
        ({
            let level = hashes.len() as usize;
            let heading = block::BlockView::Heading { level, text };
            block::parsed(w + (hashes + (gap + text + v))) == if level == 1 {
                seq![heading, block::BlockView::HeadingRule]
            } else {
                seq![heading]
            }
        }),
{
    let rest = gap + text + v;
    let t = hashes + rest;
    if gap.len() > 0 {
        assert(rest[0] == gap[0]);
        assert(chars::is_white_space(gap[0]));
    } else {
        assert(rest[0] == text[0]);
    }
    lemma_hashes(hashes, rest);
    pieces::law_trim(gap, text, v);
    lemma_indented(w, t);
    lemma_one_line(w + t);
}

/// More than six `#`, or `#` without a text, make no heading but a paragraph.
pub proof fn law_no_heading(w: Seq<char>, hashes: Seq<char>, rest: Seq<char>)
    requires
        pieces::is_white(w),
        pieces::is_run(hashes, '#'),
        hashes.len() > 0,
        rest.len() > 0 ==> rest[0] != '#',
        hashes.len() > 6 || pieces::is_white(rest),
        !(w + (hashes + rest)).contains('\n'),
    ensures
        block::parsed(w + (hashes + rest)) == seq![
            block::BlockView::Paragraph { text: hashes + rest },
        ],
{
    let t = hashes + rest;
    lemma_hashes(hashes, rest);
    if pieces::is_white(rest) {
        let none = Seq::<char>::empty();
        pieces::law_trim(rest, none, none);
        assert(rest + none + none == rest);
    }
    lemma_indented(w, t);
    lemma_one_line(w + t);
    lemma_not_listed(t);
    lemma_not_rule(t, 0);
}

/// A text that starts with neither a bullet nor a digit is no list item.
proof fn lemma_not_listed(t: Seq<char>)
    requires
        t.len() > 0,
        !chars::is_white_space(t[0]),
        t[0] != '-',
        t[0] != '*',
        !('0' <= t[0] <= '9'),
    ensures
        block::list_item_of(t) is None,
{
    let none = Seq::<char>::empty();
    pieces::law_trim_start(none, t);
    assert(none + t == t);
    if seq!['-', ' '].is_prefix_of(t) {
        assert(t.subrange(0, 2)[0] == '-');
    }
    if seq!['*', ' '].is_prefix_of(t) {
        assert(t.subrange(0, 2)[0] == '*');
    }
}

// ---------------------------------------------------------------------------
// List items

/// A dash or a star and a space make a list item with the bullet `-`: white space
/// around the text does not belong to it, all the rest does.
pub proof fn law_bullet_item(
    w: Seq<char>,
    mark: char,
    gap: Seq<char>,
    text: Seq<char>,
    v: Seq<char>,
)
    requires
        pieces::is_white(w),
        mark == '-' || mark == '*',
        pieces::is_white(gap),
        pieces::is_white(v),
        text.len() > 0 ==> !chars::is_white_space(text[0]) && !chars::is_white_space(text.last()),
        !(w + (seq![mark, ' '] + (gap + text + v))).contains('\n'),
    ensures
        block::parsed(w + (seq![mark, ' '] + (gap + text + v))) == seq![
            block::BlockView::ListItem { bullet: seq!['-'], text },
        ],
{
    let rest = gap + text + v;
    let t = seq![mark, ' '] + rest;
    assert(t[0] == mark && t[1] == ' ');
    lemma_indented(w, t);
    lemma_one_line(w + t);
    lemma_no_hash(t);
    assert(t.subrange(0, 2) == seq![mark, ' ']);
    assert(t.skip(2) == rest);
    pieces::law_trim(gap, text, v);
}

/// A text that does not start with `#` is no heading.
proof fn lemma_no_hash(t: Seq<char>)
    requires
        t.len() > 0,
        !chars::is_white_space(t[0]),
        t[0] != '#',
    ensures
        block::heading_of(t) is None,
{
    let none = Seq::<char>::empty();
    pieces::law_trim_start(none, t);
    assert(none + t == t);
    pieces::law_strip_start(none, t, '#');
}

proof fn lemma_digits(digits: Seq<char>, rest: Seq<char>)
    requires
        forall|i: int| 0 <= i < digits.len() ==> '0' <= #[trigger] digits[i] <= '9',
        rest.len() > 0 ==> !('0' <= rest[0] <= '9'),
    ensures
        block::digits_len(digits + rest) == digits.len(),
    decreases digits.len(),
{
    let s = digits + rest;
    if digits.len() == 0 {
        assert(s == rest);
    } else {
        assert(s[0] == digits[0]);
        assert(s.skip(1) == digits.skip(1) + rest);
        assert forall|i: int| 0 <= i < digits.skip(1).len() implies '0' <= #[trigger] digits.skip(
            1,
        )[i] <= '9' by {
            assert(digits.skip(1)[i] == digits[i + 1]);
        }
        lemma_digits(digits.skip(1), rest);
    }
}

/// A number, a full stop and a space make a list item whose bullet is the number
/// with the full stop: white space before the text does not belong to it, all the
/// rest does.
pub proof fn law_numbered_item(
    w: Seq<char>,
    digits: Seq<char>,
    gap: Seq<char>,
    text: Seq<char>,
)
    requires
        pieces::is_white(w),
        digits.len() > 0,
        forall|i: int| 0 <= i < digits.len() ==> '0' <= #[trigger] digits[i] <= '9',
        pieces::is_white(gap),
        text.len() > 0 ==> !chars::is_white_space(text[0]),
        !(w + (digits + (seq!['.', ' '] + (gap + text)))).contains('\n'),
    ensures
        block::parsed(w + (digits + (seq!['.', ' '] + (gap + text)))) == seq![
            block::BlockView::ListItem { bullet: digits + seq!['.'], text },
        ],
{
    let rest = seq!['.', ' '] + (gap + text);
    let t = digits + rest;
    let n = digits.len() as int;
    assert('0' <= digits[0] <= '9');
    assert(t[0] == digits[0]);
    lemma_indented(w, t);
    lemma_one_line(w + t);
    lemma_no_hash(t);
    assert(rest[0] == '.');
    lemma_digits(digits, rest);
    if seq!['-', ' '].is_prefix_of(t) {
        assert(t.subrange(0, 2)[0] == '-');
    }
    if seq!['*', ' '].is_prefix_of(t) {
        assert(t.subrange(0, 2)[0] == '*');
    }
    assert(t.skip(n) == rest);
    assert(rest.subrange(0, 2) == seq!['.', ' ']);
    assert(t.take(n).push('.') == digits + seq!['.']);
    let after = t.skip(n + 1);
    let space = seq![' '] + gap;
    assert(after == space + text);
    assert forall|i: int| 0 <= i < space.len() implies chars::is_white_space(
        #[trigger] space[i],
    ) by {
        if i > 0 {
            assert(space[i] == gap[i - 1]);
        }
    }
    pieces::law_trim_start(space, text);
}

/// Whether a text starts with `n` digits, a full stop and a space.
pub open spec fn number_at(t: Seq<char>, n: int) -> bool {
    &&& 1 <= n && n + 2 <= t.len()
    &&& forall|i: int| 0 <= i < n ==> '0' <= #[trigger] t[i] <= '9'
    &&& t[n] == '.' && t[n + 1] == ' '
}

/// Whether a text starts as a list item does.
pub open spec fn starts_item(t: Seq<char>) -> bool {
    ||| t.len() >= 2 && (t[0] == '-' || t[0] == '*') && t[1] == ' '
    ||| exists|n: int| number_at(t, n)
}

proof fn lemma_digits_are_digits(t: Seq<char>)
    ensures
        block::digits_len(t) <= t.len(),
        forall|i: int| 0 <= i < block::digits_len(t) ==> '0' <= #[trigger] t[i] <= '9',
    decreases t.len(),
{
    if t.len() > 0 && block::is_digit(t[0]) {
        lemma_digits_are_digits(t.skip(1));
        assert forall|i: int| 0 <= i < block::digits_len(t) implies '0' <= #[trigger] t[i]
            <= '9' by {
            if i > 0 {
                assert(t.skip(1)[i - 1] == t[i]);
            }
        }
    }
}

proof fn lemma_no_item(t: Seq<char>)
    requires
        t.len() > 0,
        !chars::is_white_space(t[0]),
        !starts_item(t),
    ensures
        block::list_item_of(t) is None,
{
    let none = Seq::<char>::empty();
    pieces::law_trim_start(none, t);
    assert(none + t == t);
    if seq!['-', ' '].is_prefix_of(t) || seq!['*', ' '].is_prefix_of(t) {
        assert(t.subrange(0, 2)[0] == t[0] && t.subrange(0, 2)[1] == t[1]);
    }
    let n = block::digits_len(t) as int;
    lemma_digits_are_digits(t);
    let rest = t.skip(n);
    if n > 0 && seq!['.', ' '].is_prefix_of(rest) {
        assert(rest.subrange(0, 2)[0] == '.' && rest.subrange(0, 2)[1] == ' ');
        assert(rest[0] == t[n] && rest[1] == t[n + 1]);
        assert(number_at(t, n));
    }
}

// ---------------------------------------------------------------------------
// Horizontal rules

/// Whether a text is three or more of the mark `m`, and white space.
pub open spec fn ruled_with(t: Seq<char>, m: char) -> bool {
    &&& forall|i: int| 0 <= i < t.len() ==> #[trigger] t[i] == m || chars::is_white_space(t[i])
    &&& tables::occurrences(t, m) >= 3
}

proof fn lemma_ruled(t: Seq<char>, m: char)
    requires
        !chars::is_white_space(m),
        forall|i: int| 0 <= i < t.len() ==> #[trigger] t[i] == m || chars::is_white_space(t[i]),
    ensures
        block::is_all(chars::visible(t), m),
        chars::visible(t).len() == tables::occurrences(t, m),
    decreases t.len(),
{
    if t.len() > 0 {
        let init = t.drop_last();
        assert forall|i: int| 0 <= i < init.len() implies #[trigger] init[i] == m
            || chars::is_white_space(init[i]) by {
            assert(init[i] == t[i]);
        }
        lemma_ruled(init, m);
        assert(t[t.len() - 1] == m || chars::is_white_space(t.last()));
    }
}

proof fn lemma_visible_has(t: Seq<char>, i: int)
    requires
        0 <= i < t.len(),
        !chars::is_white_space(t[i]),
    ensures
        chars::visible(t).contains(t[i]),
    decreases t.len(),
{
    let init = t.drop_last();
    let seen = chars::visible(init);
    if i == t.len() - 1 {
        assert(seen.push(t.last())[seen.len() as int] == t[i]);
    } else {
        lemma_visible_has(init, i);
        assert(init[i] == t[i]);
        let k = choose|k: int| 0 <= k < seen.len() && seen[k] == t[i];
        assert(chars::visible(t)[k] == t[i]);
    }
}

/// A rule is three or more of one of `-`, `*` and `_`, with white space between
/// them or around them, and nothing else.
pub proof fn law_rules(t: Seq<char>)
    ensures
        block::is_rule(t) <==> ruled_with(t, '-') || ruled_with(t, '*') || ruled_with(t, '_'),
{
    if ruled_with(t, '-') {
        lemma_ruled(t, '-');
    }
    if ruled_with(t, '*') {
        lemma_ruled(t, '*');
    }
    if ruled_with(t, '_') {
        lemma_ruled(t, '_');
    }
    if block::is_rule(t) {
        let m = if block::is_all(chars::visible(t), '-') {
            '-'
        } else if block::is_all(chars::visible(t), '*') {
            '*'
        } else {
            '_'
        };
        assert forall|i: int| 0 <= i < t.len() implies #[trigger] t[i] == m
            || chars::is_white_space(t[i]) by {
            if !chars::is_white_space(t[i]) {
                lemma_visible_has(t, i);
                let seen = chars::visible(t);
                let k = choose|k: int| 0 <= k < seen.len() && seen[k] == t[i];
                assert(seen[k] == m);
            }
        }
        lemma_ruled(t, m);
    }
}

proof fn lemma_not_rule(t: Seq<char>, i: int)
    requires
        0 <= i < t.len(),
        !chars::is_white_space(t[i]),
        t[i] != '-',
        t[i] != '*',
        t[i] != '_',
    ensures
        !block::is_rule(t),
{
    law_rules(t);
}

/// A line that is a rule, and does not start as a list item does, is a rule.
pub proof fn law_rule_line(w: Seq<char>, t: Seq<char>, m: char)
    requires
        pieces::is_white(w),
        m == '-' || m == '*' || m == '_',
        t.len() > 0,
        t[0] == m,
        ruled_with(t, m),
        !(t.len() >= 2 && m != '_' && t[1] == ' '),
        !(w + t).contains('\n'),
    ensures
        block::parsed(w + t) == seq![block::BlockView::HorizontalRule],
{
    lemma_indented(w, t);
    lemma_one_line(w + t);
    lemma_no_hash(t);
    assert(!starts_item(t)) by {
        if exists|n: int| number_at(t, n) {
            let n = choose|n: int| number_at(t, n);
            assert('0' <= t[0] <= '9');
        }
    }
    lemma_no_item(t);
    law_rules(t);
}

// ---------------------------------------------------------------------------
// Tables

/// Whether a cell is dashes, colons and spaces alone.
pub open spec fn is_dashed(cell: Seq<char>) -> bool {
    forall|i: int|
        0 <= i < cell.len() ==> #[trigger] cell[i] == '-' || cell[i] == ':' || cell[i] == ' '
}

proof fn lemma_joined_ends(pieces: Seq<Seq<char>>, c: char)
    requires
        pieces.len() > 0,
        pieces[0].len() > 0,
        pieces.last().len() > 0,
    ensures
        ({
            let s = pieces::joined_by(pieces, c);
            s.len() > 0 && s[0] == pieces[0][0] && s.last() == pieces.last().last()
        }),
{
    lemma_joined_last(pieces, c);
}

proof fn lemma_joined_last(pieces: Seq<Seq<char>>, c: char)
    requires
        pieces.len() > 0,
        pieces.last().len() > 0,
    ensures
        ({
            let s = pieces::joined_by(pieces, c);
            s.len() > 0 && s.last() == pieces.last().last()
        }),
    decreases pieces.len(),
{
    if pieces.len() > 1 {
        lemma_joined_last(pieces.skip(1), c);
        assert(pieces.skip(1).last() == pieces.last());
    }
}

/// The cells of a line of cells with bars between them and at its ends.
proof fn lemma_cells(bars: Seq<char>, cells: Seq<Seq<char>>, ends: Seq<char>)
    requires
        pieces::is_run(bars, '|'),
        bars.len() > 0,
        pieces::is_run(ends, '|'),
        cells.len() > 0,
        cells[0].len() > 0,
        cells.last().len() > 0,
        forall|i: int| 0 <= i < cells.len() ==> !(#[trigger] cells[i]).contains('|'),
    ensures
        ({
            let t = bars + pieces::joined_by(cells, '|') + ends;
            &&& t[0] == '|'
            &&& block::cells_of(t).len() == cells.len()
            &&& forall|i: int|
                0 <= i < cells.len() ==> #[trigger] block::cells_of(t)[i] == chars::trimmed(
                    cells[i],
                )
        }),
{
    let inner = pieces::joined_by(cells, '|');
    let t = bars + inner + ends;
    lemma_joined_ends(cells, '|');
    let first = cells[0];
    let last = cells.last();
    assert(!first.contains('|') && first.contains(first[0]));
    assert(!cells[cells.len() - 1].contains('|') && last.contains(last[last.len() - 1]));
    pieces::law_strip(bars, inner, ends, '|');
    pieces::law_split(cells, '|');
    assert(t[0] == bars[0]);
}

/// A table row: cells with bars between them, behind a bar, and with or without
/// bars at the end. Each cell is a cell of the row, trimmed, blank ones included, as
/// long as one of them has something other than dashes, colons and spaces in it.
pub proof fn law_table_row(w: Seq<char>, bars: Seq<char>, cells: Seq<Seq<char>>, ends: Seq<char>)
    requires
        pieces::is_white(w),
        pieces::is_run(bars, '|'),
        bars.len() > 0,
        pieces::is_run(ends, '|'),
        cells.len() > 0,
        cells[0].len() > 0,
        cells.last().len() > 0,
        forall|i: int| 0 <= i < cells.len() ==> !(#[trigger] cells[i]).contains('|'),
        !(w + (bars + pieces::joined_by(cells, '|') + ends)).contains('\n'),
    ensures
        ({
            let row = Seq::new(cells.len(), |i: int| chars::trimmed(cells[i]));
            let parsed = block::parsed(w + (bars + pieces::joined_by(cells, '|') + ends));
            &&& (exists|i: int| 0 <= i < row.len() && !is_dashed(#[trigger] row[i])) ==> parsed
                == seq![block::BlockView::TableRow(row)]
            &&& (forall|i: int| 0 <= i < row.len() ==> is_dashed(#[trigger] row[i])) ==> parsed
                == seq![block::BlockView::TableSeparator]
        }),
{
    let row = Seq::new(cells.len(), |i: int| chars::trimmed(cells[i]));
    let t = bars + pieces::joined_by(cells, '|') + ends;
    lemma_cells(bars, cells, ends);
    lemma_bar_line(w, t);
    assert(block::cells_of(t) == row);
    assert forall|i: int| 0 <= i < row.len() implies is_dashed(#[trigger] row[i])
        == block::is_separator_cell(block::cells_of(t)[i]) by {}
    if exists|i: int| 0 <= i < row.len() && !is_dashed(#[trigger] row[i]) {
        let i = choose|i: int| 0 <= i < row.len() && !is_dashed(#[trigger] row[i]);
        assert(!block::is_separator_cell(block::cells_of(t)[i]));
    }
    if forall|i: int| 0 <= i < row.len() ==> is_dashed(#[trigger] row[i]) {
        assert forall|i: int| 0 <= i < row.len() implies block::is_separator_cell(
            #[trigger] block::cells_of(t)[i],
        ) by {
            assert(is_dashed(row[i]));
        }
    }
}

/// A line of bars alone is a separator row.
pub proof fn law_bars_alone(w: Seq<char>, bars: Seq<char>)
    requires
        pieces::is_white(w),
        pieces::is_run(bars, '|'),
        bars.len() > 0,
        !(w + bars).contains('\n'),
    ensures
        block::parsed(w + bars) == seq![block::BlockView::TableSeparator],
{
    let none = Seq::<char>::empty();
    pieces::law_strip(bars, none, none, '|');
    assert(bars + none + none == bars);
    let one = seq![none];
    pieces::law_split(one, '|');
    assert(pieces::joined_by(one, '|') == none);
    assert(chars::trimmed_start(none) == none);
    assert(chars::trimmed(none) == none);
    assert(block::cells_of(bars) == one);
    lemma_bar_line(w, bars);
}

/// A line that starts with a bar is a table row or a separator row.
proof fn lemma_bar_line(w: Seq<char>, t: Seq<char>)
    requires
        pieces::is_white(w),
        t.len() > 0,
        t[0] == '|',
        !(w + t).contains('\n'),
    ensures
        block::parsed(w + t) == if block::table_row_of(t) is Some {
            seq![block::BlockView::TableRow(block::table_row_of(t)->0)]
        } else {
            seq![block::BlockView::TableSeparator]
        },
{
    lemma_indented(w, t);
    lemma_one_line(w + t);
    lemma_no_hash(t);
    lemma_not_listed(t);
    lemma_not_rule(t, 0);
}

// ---------------------------------------------------------------------------
// Blanks and paragraphs

/// A line of white space alone is a blank.
pub proof fn law_white_line(w: Seq<char>)
    requires
        pieces::is_white(w),
        w.len() > 0,
        !w.contains('\n'),
    ensures
        block::parsed(w) == seq![block::BlockView::Blank],
{
    let none = Seq::<char>::empty();
    pieces::law_trim_start(w, none);
    assert(w + none == w);
    law_fences(w);
    if shows_fence(w) {
        let k = choose|k: int| fence_at(w, k);
        assert(chars::is_white_space(w[k]));
    }
    lemma_one_line(w);
    parsing::law_blank_lines(w);
}

/// Whatever is nothing else is a paragraph: all of the line from its first visible
/// character on.
pub proof fn law_paragraph(w: Seq<char>, t: Seq<char>)
    requires
        pieces::is_white(w),
        t.len() > 0,
        !chars::is_white_space(t[0]),
        t[0] != '#',
        t[0] != '|',
        !(t.len() >= 3 && t[0] == '`' && t[1] == '`' && t[2] == '`'),
        !starts_item(t),
        !ruled_with(t, '-') && !ruled_with(t, '*') && !ruled_with(t, '_'),
        !(w + t).contains('\n'),
    ensures
        block::parsed(w + t) == seq![block::BlockView::Paragraph { text: t }],
{
    lemma_indented(w, t);
    assert(!block::is_fence(w + t)) by {
        if seq!['`', '`', '`'].is_prefix_of(t) {
            assert(t.subrange(0, 3)[0] == t[0] && t.subrange(0, 3)[1] == t[1] && t.subrange(0, 3)[2]
                == t[2]);
        }
    }
    lemma_one_line(w + t);
    lemma_no_hash(t);
    lemma_no_item(t);
    law_rules(t);
}

// ---------------------------------------------------------------------------
// Lines by themselves

/// White space before a line is nothing to those that recognise it.
proof fn lemma_white_before(w: Seq<char>, t: Seq<char>)
    requires
        pieces::is_white(w),
        t.len() > 0 ==> !chars::is_white_space(t[0]),
    ensures
        chars::trimmed_start(w + t) == t,
        chars::trimmed_start(t) == t,
{
    let none = Seq::<char>::empty();
    pieces::law_trim_start(w, t);
    pieces::law_trim_start(none, t);
    assert(none + t == t);
}

/// A heading is recognised behind any white space: its level is the number of its
/// `#`, and its text is what stands between the white space behind them and that at
/// the end.
pub proof fn law_heading_is_recognised(
    w: Seq<char>,
    hashes: Seq<char>,
    gap: Seq<char>,
    text: Seq<char>,
    v: Seq<char>,
)
    requires
        pieces::is_white(w),
        pieces::is_run(hashes, '#'),
        1 <= hashes.len() <= 6,
        pieces::is_white(gap),
        pieces::is_white(v),
        text.len() > 0,
        !chars::is_white_space(text[0]),
        !chars::is_white_space(text.last()),
        gap.len() == 0 ==> text[0] != '#',
    ensures
        block::heading_of(w + (hashes + (gap + text + v))) == Some(
            (hashes.len() as usize, text),
        ),
{
    let rest = gap + text + v;
    if gap.len() > 0 {
        assert(rest[0] == gap[0]);
        assert(chars::is_white_space(gap[0]));
    } else {
        assert(rest[0] == text[0]);
    }
    lemma_hashes(hashes, rest);
    pieces::law_trim(gap, text, v);
    lemma_white_before(w, hashes + rest);
}

/// A line is no heading if its first visible character is no `#`, if it has more
/// than six of them, or if nothing visible follows them.
pub proof fn law_other_lines_are_no_headings(w: Seq<char>, hashes: Seq<char>, rest: Seq<char>)
    requires
        pieces::is_white(w),
        pieces::is_run(hashes, '#'),
        rest.len() > 0 ==> rest[0] != '#',
        hashes.len() == 0 && rest.len() > 0 ==> !chars::is_white_space(rest[0]),
        hashes.len() == 0 || hashes.len() > 6 || pieces::is_white(rest),
    ensures
        block::heading_of(w + (hashes + rest)) is None,
{
    let t = hashes + rest;
    let none = Seq::<char>::empty();
    if hashes.len() > 0 {
        lemma_hashes(hashes, rest);
        if pieces::is_white(rest) {
            pieces::law_trim(rest, none, none);
            assert(rest + none + none == rest);
        }
    } else if rest.len() > 0 {
        assert(t == rest);
        lemma_no_hash(t);
    } else {
        assert(t == none);
    }
    lemma_white_before(w, t);
}

/// A dash or a star and a space are recognised behind any white space as a list
/// item with the bullet `-` and the text behind them, without the white space around
/// it.
pub proof fn law_bullet_is_recognised(
    w: Seq<char>,
    mark: char,
    gap: Seq<char>,
    text: Seq<char>,
    v: Seq<char>,
)
    requires
        pieces::is_white(w),
        mark == '-' || mark == '*',
        pieces::is_white(gap),
        pieces::is_white(v),
        text.len() > 0 ==> !chars::is_white_space(text[0]) && !chars::is_white_space(text.last()),
    ensures
        block::list_item_of(w + (seq![mark, ' '] + (gap + text + v))) == Some((seq!['-'], text)),
{
    let rest = gap + text + v;
    let t = seq![mark, ' '] + rest;
    assert(t[0] == mark && t[1] == ' ');
    lemma_white_before(w, t);
    assert(t.subrange(0, 2) == seq![mark, ' ']);
    assert(t.skip(2) == rest);
    pieces::law_trim(gap, text, v);
}

/// A number, a full stop and a space are recognised behind any white space as a list
/// item with the number and the full stop for its bullet, and the text behind them,
/// without the white space before it.
pub proof fn law_number_is_recognised(
    w: Seq<char>,
    digits: Seq<char>,
    gap: Seq<char>,
    text: Seq<char>,
)
    requires
        pieces::is_white(w),
        digits.len() > 0,
        forall|i: int| 0 <= i < digits.len() ==> '0' <= #[trigger] digits[i] <= '9',
        pieces::is_white(gap),
        text.len() > 0 ==> !chars::is_white_space(text[0]),
    ensures
        block::list_item_of(w + (digits + (seq!['.', ' '] + (gap + text)))) == Some(
            (digits + seq!['.'], text),
        ),
{
    let rest = seq!['.', ' '] + (gap + text);
    let t = digits + rest;
    let n = digits.len() as int;
    assert('0' <= digits[0] <= '9');
    assert(t[0] == digits[0]);
    lemma_white_before(w, t);
    assert(rest[0] == '.');
    lemma_digits(digits, rest);
    if seq!['-', ' '].is_prefix_of(t) {
        assert(t.subrange(0, 2)[0] == '-');
    }
    if seq!['*', ' '].is_prefix_of(t) {
        assert(t.subrange(0, 2)[0] == '*');
    }
    assert(t.skip(n) == rest);
    assert(rest.subrange(0, 2) == seq!['.', ' ']);
    assert(t.take(n).push('.') == digits + seq!['.']);
    let space = seq![' '] + gap;
    assert(t.skip(n + 1) == space + text);
    assert forall|i: int| 0 <= i < space.len() implies chars::is_white_space(
        #[trigger] space[i],
    ) by {
        if i > 0 {
            assert(space[i] == gap[i - 1]);
        }
    }
    pieces::law_trim_start(space, text);
}

/// A line whose visible part starts in no such way is no list item.
pub proof fn law_other_lines_are_no_items(w: Seq<char>, t: Seq<char>)
    requires
        pieces::is_white(w),
        t.len() > 0 ==> !chars::is_white_space(t[0]) && !starts_item(t),
    ensures
        block::list_item_of(w + t) is None,
{
    lemma_white_before(w, t);
    if t.len() > 0 {
        lemma_no_item(t);
    } else {
        if seq!['-', ' '].is_prefix_of(t) || seq!['*', ' '].is_prefix_of(t) {
            assert(t.len() >= 2);
        }
    }
}

/// A line of cells is recognised as a table row: every cell between the bars,
/// trimmed, the blank ones too, unless all of them are dashes, colons and spaces.
pub proof fn law_row_is_recognised(bars: Seq<char>, cells: Seq<Seq<char>>, ends: Seq<char>)
    requires
        pieces::is_run(bars, '|'),
        bars.len() > 0,
        pieces::is_run(ends, '|'),
        cells.len() > 0,
        cells[0].len() > 0,
        cells.last().len() > 0,
        forall|i: int| 0 <= i < cells.len() ==> !(#[trigger] cells[i]).contains('|'),
    ensures
        ({
            let row = Seq::new(cells.len(), |i: int| chars::trimmed(cells[i]));
            let found = block::table_row_of(bars + pieces::joined_by(cells, '|') + ends);
            &&& (exists|i: int| 0 <= i < row.len() && !is_dashed(#[trigger] row[i])) ==> found
                == Some(row)
            &&& (forall|i: int| 0 <= i < row.len() ==> is_dashed(#[trigger] row[i])) ==> found
                is None
        }),
{
    let row = Seq::new(cells.len(), |i: int| chars::trimmed(cells[i]));
    let t = bars + pieces::joined_by(cells, '|') + ends;
    lemma_cells(bars, cells, ends);
    assert(block::cells_of(t) == row);
    if exists|i: int| 0 <= i < row.len() && !is_dashed(#[trigger] row[i]) {
        let i = choose|i: int| 0 <= i < row.len() && !is_dashed(#[trigger] row[i]);
        assert(!block::is_separator_cell(block::cells_of(t)[i]));
    }
    if forall|i: int| 0 <= i < row.len() ==> is_dashed(#[trigger] row[i]) {
        assert forall|i: int| 0 <= i < row.len() implies block::is_separator_cell(
            #[trigger] block::cells_of(t)[i],
        ) by {
            assert(is_dashed(row[i]));
        }
    }
}

/// A line that does not start with a bar is no table row, nor is one of bars alone.
pub proof fn law_other_lines_are_no_rows(line: Seq<char>)
    requires
        line.len() == 0 || line[0] != '|' || pieces::is_run(line, '|'),
    ensures
        block::table_row_of(line) is None,
{
    if line.len() > 0 && line[0] == '|' {
        let none = Seq::<char>::empty();
        pieces::law_strip(line, none, none, '|');
        assert(line + none + none == line);
        let one = seq![none];
        pieces::law_split(one, '|');
        assert(pieces::joined_by(one, '|') == none);
        assert(chars::trimmed_start(none) == none);
        assert(chars::trimmed(none) == none);
        assert(block::cells_of(line) == one);
    }
}

} // verus!
