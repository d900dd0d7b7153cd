//! Laws of parsing.
use vstd::prelude::*;

use crate::block;
use crate::chars;

verus! {

// ---------------------------------------------------------------------------
// Sources put together

/// Two sources, the first of which ends with a line break, have the lines of the
/// one followed by the lines of the other.
pub proof fn law_lines_append(a: Seq<char>, b: Seq<char>)
    ensures
        chars::lines_of(a.push('\n') + b) == chars::lines_of(a.push('\n')) + chars::lines_of(b),
    decreases a.len(),
{
    let s = a.push('\n');
    let n = chars::first_index(s, '\n') as int;
    let m = chars::first_index(s + b, '\n') as int;
    chars::lemma_first_index(s, '\n');
    chars::lemma_first_index(s + b, '\n');
    assert(s[a.len() as int] == '\n');
    assert(n < s.len());
    assert((s + b)[n] == '\n');
    assert(m == n) by {
        if m < n {
            assert((s + b)[m] == s[m]);
        }
    }
    let rest = s.skip(n + 1);
    assert((s + b).take(n) == s.take(n));
    assert((s + b).skip(n + 1) == rest + b);
    let head = seq![chars::without_cr(s.take(n))];
    if n == a.len() {
        assert(rest == Seq::<char>::empty());
        assert(rest + b == b);
        assert(chars::lines_of(rest) == Seq::<Seq<char>>::empty());
        assert(head + Seq::<Seq<char>>::empty() + chars::lines_of(b) == head + chars::lines_of(b));
    } else {
        assert(rest == a.skip(n + 1).push('\n'));
        law_lines_append(a.skip(n + 1), b);
        assert(head + (chars::lines_of(rest) + chars::lines_of(b)) == head + chars::lines_of(rest)
            + chars::lines_of(b));
    }
}

/// Lines after which no code block is open parse to their blocks, whatever
/// follows; and what follows parses as it does by itself.
pub proof fn law_blocks_append(a: Seq<Seq<char>>, b: Seq<Seq<char>>)
    requires
        !block::in_code(a),
    ensures
        block::blocks_of(a + b) == block::blocks_of(a) + block::blocks_of(b),
        block::in_code(a + b) == block::in_code(b),
    decreases b.len(),
{
    if b.len() == 0 {
        assert(a + b == a);
        assert(block::blocks_of(a) + block::blocks_of(b) == block::blocks_of(a));
    } else {
        let init = b.drop_last();
        law_blocks_append(a, init);
        assert((a + b).drop_last() == a + init);
        assert((a + b).last() == b.last());
        let before = block::blocks_of(a);
        let rest = block::blocks_of(init);
        let part = block::blocks_of_line(b.last());
        let code = block::BlockView::Code { line: b.last() };
        assert((before + rest).push(code) == before + rest.push(code));
        assert(before + rest + part == before + (rest + part));
    }
}

/// A source that grows by whole lines, outside a code block, keeps the blocks
/// that it had: the new part can be parsed by itself.
pub proof fn law_parse_append(a: Seq<char>, b: Seq<char>)
    requires
        !block::in_code(chars::lines_of(a.push('\n'))),
    ensures
        block::parsed(a.push('\n') + b) == block::parsed(a.push('\n')) + block::parsed(b),
{
    law_lines_append(a, b);
    law_blocks_append(chars::lines_of(a.push('\n')), chars::lines_of(b));
}

// ---------------------------------------------------------------------------
// Code blocks

/// Lines as the lines of a code block.
pub open spec fn code_blocks(lines: Seq<Seq<char>>) -> Seq<block::BlockView> {
    Seq::new(lines.len(), |i: int| block::BlockView::Code { line: lines[i] })
}

/// Inside a code block every line that is not a fence is kept as it stands.
proof fn lemma_code_body(before: Seq<Seq<char>>, body: Seq<Seq<char>>)
    requires
        block::in_code(before),
        forall|i: int| 0 <= i < body.len() ==> !block::is_fence(#[trigger] body[i]),
    ensures
        block::in_code(before + body),
        block::blocks_of(before + body) == block::blocks_of(before) + code_blocks(body),
    decreases body.len(),
{
    if body.len() == 0 {
        assert(before + body == before);
        assert(block::blocks_of(before) + code_blocks(body) == block::blocks_of(before));
    } else {
        let init = body.drop_last();
        assert forall|i: int| 0 <= i < init.len() implies !block::is_fence(#[trigger] init[i]) by {
            assert(init[i] == body[i]);
        }
        lemma_code_body(before, init);
        assert((before + body).drop_last() == before + init);
        assert((before + body).last() == body[body.len() - 1]);
        assert(code_blocks(body) == code_blocks(init).push(
            block::BlockView::Code { line: body.last() },
        ));
    }
}

/// A fenced code block: its two fences are dropped, and every line between them
/// is a code line, kept as it stands.
pub proof fn law_fenced_code_block(
    before: Seq<Seq<char>>,
    open: Seq<char>,
    body: Seq<Seq<char>>,
    close: Seq<char>,
    after: Seq<Seq<char>>,
)
    requires
        !block::in_code(before),
        block::is_fence(open),
        block::is_fence(close),
        forall|i: int| 0 <= i < body.len() ==> !block::is_fence(#[trigger] body[i]),
    ensures
        block::blocks_of((before.push(open) + body).push(close) + after) == block::blocks_of(before)
            + code_blocks(body) + block::blocks_of(after),
{
    let opened = before.push(open);
    assert(opened.drop_last() == before);
    assert(block::in_code(opened));
    lemma_code_body(opened, body);
    let closed = (opened + body).push(close);
    assert(closed.drop_last() == opened + body);
    assert(!block::in_code(closed));
    law_blocks_append(closed, after);
}

/// A code block that is never closed runs to the end of the source.
pub proof fn law_unclosed_code_block(
    before: Seq<Seq<char>>,
    open: Seq<char>,
    body: Seq<Seq<char>>,
)
    requires
        !block::in_code(before),
        block::is_fence(open),
        forall|i: int| 0 <= i < body.len() ==> !block::is_fence(#[trigger] body[i]),
    ensures
        block::blocks_of(before.push(open) + body) == block::blocks_of(before) + code_blocks(body),
{
    let opened = before.push(open);
    assert(opened.drop_last() == before);
    assert(block::in_code(opened));
    lemma_code_body(opened, body);
}

// ---------------------------------------------------------------------------
// Blocks

/// Every block of a source is well-formed: a heading has a level from 1 to 6 and
/// a text, a table row has at least one cell, and a paragraph has a text.
pub proof fn law_blocks_are_well_formed(content: Seq<char>, i: int)
    requires
        0 <= i < block::parsed(content).len(),
    ensures
        block::is_parsed_block(block::parsed(content)[i]),
{
    lemma_blocks_well_formed(chars::lines_of(content), i);
}

proof fn lemma_blocks_well_formed(lines: Seq<Seq<char>>, i: int)
    requires
        0 <= i < block::blocks_of(lines).len(),
    ensures
        block::is_parsed_block(block::blocks_of(lines)[i]),
    decreases lines.len(),
{
    let before = block::blocks_of(lines.drop_last());
    if i < before.len() {
        lemma_blocks_well_formed(lines.drop_last(), i);
    }
}

/// Whether a block is a level-1 heading.
pub open spec fn is_title(b: block::BlockView) -> bool {
    b matches block::BlockView::Heading { level, text } && level == 1
}

/// Whether a heading rule stands below every level-1 heading, and nowhere else.
pub open spec fn is_ruled(blocks: Seq<block::BlockView>) -> bool {
    &&& forall|i: int|
        0 <= i < blocks.len() ==> ((#[trigger] blocks[i] is HeadingRule) <==> i > 0 && is_title(
            blocks[i - 1],
        ))
    &&& blocks.len() > 0 ==> !is_title(blocks.last())
}

/// A heading rule stands below every level-1 heading, and nowhere else.
pub proof fn law_heading_rules(content: Seq<char>)
    ensures
        is_ruled(block::parsed(content)),
{
    lemma_ruled(chars::lines_of(content));
}

proof fn lemma_ruled(lines: Seq<Seq<char>>)
    ensures
        is_ruled(block::blocks_of(lines)),
    decreases lines.len(),
{
    if lines.len() > 0 {
        let before = block::blocks_of(lines.drop_last());
        let line = lines.last();
        lemma_ruled(lines.drop_last());
        if block::is_fence(line) {
        } else if block::in_code(lines.drop_last()) {
            lemma_ruled_append(before, seq![block::BlockView::Code { line }]);
            assert(before.push(block::BlockView::Code { line }) == before + seq![
                block::BlockView::Code { line },
            ]);
        } else {
            lemma_ruled_append(before, block::blocks_of_line(line));
        }
    }
}

proof fn lemma_ruled_append(a: Seq<block::BlockView>, b: Seq<block::BlockView>)
    requires
        is_ruled(a),
        is_ruled(b),
    ensures
        is_ruled(a + b),
{
    let c = a + b;
    assert forall|i: int| 0 <= i < c.len() implies ((#[trigger] c[i] is HeadingRule) <==> i > 0
        && is_title(c[i - 1])) by {
        if i < a.len() {
            assert(c[i] == a[i]);
            if i > 0 {
                assert(c[i - 1] == a[i - 1]);
            }
        } else {
            let j = i - a.len();
            assert(c[i] == b[j]);
            if j > 0 {
                assert(c[i - 1] == b[j - 1]);
            } else if i > 0 {
                assert(c[i - 1] == a.last());
            }
        }
    }
}

/// A source line that is empty or white space alone is kept as a blank block, and
/// nothing else becomes one.
pub proof fn law_blank_lines(line: Seq<char>)
    ensures
        chars::trimmed_start(line).len() == 0 <==> block::blocks_of_line(line) == seq![
            block::BlockView::Blank,
        ],
{
    let t = chars::trimmed_start(line);
    if t.len() == 0 {
        assert(chars::trimmed_start(t) == t);
        assert(chars::stripped_start(t, '#') == t);
        assert(chars::visible(t) == t);
    } else {
        assert(block::blocks_of_line(line)[0] !is Blank);
    }
}

/// Outside code blocks a line is one block, or two if it is a level-1 heading.
pub proof fn law_one_block_per_line(line: Seq<char>)
    ensures
        block::blocks_of_line(line).len() == if is_title(block::blocks_of_line(line)[0]) {
            2nat
        } else {
            1nat
        },
{
}

} // verus!
