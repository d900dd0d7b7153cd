//! Parsing: markdown source to a width-independent sequence of blocks.
//!
//! All decisions that depend only on the source text (heading level, bullet
//! kind, whether a line is inside a fenced code block) are made here. Layout is
//! left to the renderer, which can run again at another width without parsing.
use vstd::prelude::*;

use crate::chars;
use crate::chars::{
    is_whitespace, slice_from, slice_to, split, split_lines, starts_with, to_chars, to_text, trim,
    trim_matches, trim_start, trim_start_matches,
};

verus! {

/// The deepest heading level.
pub const MAX_HEADING_LEVEL: usize = 6;

/// One classified line of markdown source, width-independent.
#[derive(Debug, PartialEq, Eq)]
pub enum Block {
    /// `# heading text`. Includes the heading level, from 1 to 6.
    Heading { level: usize, text: String },
    /// A horizontal rule emitted under a level-1 heading.
    HeadingRule,
    /// A standalone `---` / `***` / `___` horizontal rule.
    HorizontalRule,
    /// A bullet (`-`/`*`) or ordered (`1.`) list item with its prefix and body.
    ListItem { bullet: String, text: String },
    /// A line inside a fenced code block. Fences themselves are dropped.
    Code { line: String },
    /// A table row: cells split on `|`.
    TableRow(Vec<String>),
    /// A table separator row (`|---|---|`). Kept so the renderer can draw
    /// horizontal rules at the correct positions.
    TableSeparator,
    /// A non-empty paragraph line that may contain inline links.
    Paragraph { text: String },
    /// An empty source line, or one of white space alone, preserved so paragraph
    /// spacing survives.
    Blank,
}

/// What a `Block` stands for.
pub enum BlockView {
    Heading { level: usize, text: Seq<char> },
    HeadingRule,
    HorizontalRule,
    ListItem { bullet: Seq<char>, text: Seq<char> },
    Code { line: Seq<char> },
    TableRow(Seq<Seq<char>>),
    TableSeparator,
    Paragraph { text: Seq<char> },
    Blank,
}

impl View for Block {
    type V = BlockView;

    open spec fn view(&self) -> BlockView {
        match *self {
            Block::Heading { level, text } => BlockView::Heading { level, text: text@ },
            Block::HeadingRule => BlockView::HeadingRule,
            Block::HorizontalRule => BlockView::HorizontalRule,
            Block::ListItem { bullet, text } => BlockView::ListItem { bullet: bullet@, text: text@ },
            Block::Code { line } => BlockView::Code { line: line@ },
            Block::TableRow(cells) => BlockView::TableRow(chars::views(cells@)),
            Block::TableSeparator => BlockView::TableSeparator,
            Block::Paragraph { text } => BlockView::Paragraph { text: text@ },
            Block::Blank => BlockView::Blank,
        }
    }
}

/// Clones every string of a vector.
fn clone_strings(v: &Vec<String>) -> (r: Vec<String>)
    ensures
        chars::views(r@) == chars::views(v@),
{
    let mut out: Vec<String> = Vec::new();
    let mut i: usize = 0;
    while i < v.len()
        invariant
            i <= v@.len(),
            chars::views(out@) == chars::views(v@).take(i as int),
        decreases v@.len() - i,
    {
        let ghost before = chars::views(out@);
        out.push(v[i].clone());
        assert(chars::views(out@) == before.push(v@[i as int]@));
        i = i + 1;
    }
    assert(chars::views(out@) == chars::views(v@));
    out
}

impl Clone for Block {
    fn clone(&self) -> (r: Self)
        ensures
            r@ == self@,
    {
        match self {
            Block::Heading { level, text } => Block::Heading { level: *level, text: text.clone() },
            Block::HeadingRule => Block::HeadingRule,
            Block::HorizontalRule => Block::HorizontalRule,
            Block::ListItem { bullet, text } => {
                Block::ListItem { bullet: bullet.clone(), text: text.clone() }
            },
            Block::Code { line } => Block::Code { line: line.clone() },
            Block::TableRow(cells) => Block::TableRow(clone_strings(cells)),
            Block::TableSeparator => Block::TableSeparator,
            Block::Paragraph { text } => Block::Paragraph { text: text.clone() },
            Block::Blank => Block::Blank,
        }
    }
}

/// What parsing keeps of every block: a heading has a level from 1 to 6 and a
/// text, a table row has at least one cell, and a paragraph has a text.
pub open spec fn is_parsed_block(b: BlockView) -> bool {
    match b {
        BlockView::Heading { level, text } => 1 <= level <= MAX_HEADING_LEVEL && text.len() > 0,
        BlockView::TableRow(cells) => cells.len() > 0,
        BlockView::Paragraph { text } => text.len() > 0,
        _ => true,
    }
}

/// Width-independent parsed markdown.
#[derive(Debug, PartialEq, Eq)]
pub struct ParsedMarkdown {
    blocks: Vec<Block>,
}

impl View for ParsedMarkdown {
    type V = Seq<BlockView>;

    closed spec fn view(&self) -> Seq<BlockView> {
        chars::views(self.blocks@)
    }
}

impl ParsedMarkdown {
    #[verifier::type_invariant]
    closed spec fn parsed_blocks(self) -> bool {
        forall|i: int| 0 <= i < self.blocks@.len() ==> is_parsed_block(#[trigger] self.blocks@[i]@)
    }

    /// The blocks, in source order.
    pub fn blocks(&self) -> (r: &Vec<Block>)
        ensures
            chars::views(r@) == self@,
            forall|i: int| 0 <= i < self@.len() ==> is_parsed_block(#[trigger] self@[i]),
    {
        proof {
            use_type_invariant(self);
        }
        &self.blocks
    }
}

impl Clone for ParsedMarkdown {
    fn clone(&self) -> (r: Self)
        ensures
            r@ == self@,
    {
        proof {
            use_type_invariant(self);
        }
        let mut out: Vec<Block> = Vec::new();
        let mut i: usize = 0;
        while i < self.blocks.len()
            invariant
                i <= self.blocks@.len(),
                chars::views(out@) == chars::views(self.blocks@).take(i as int),
            decreases self.blocks@.len() - i,
        {
            let ghost before = chars::views(out@);
            out.push(self.blocks[i].clone());
            assert(chars::views(out@) == before.push(self.blocks@[i as int]@));
            i = i + 1;
        }
        assert(chars::views(out@) == chars::views(self.blocks@));
        assert forall|k: int| 0 <= k < out@.len() implies is_parsed_block(#[trigger] out@[k]@) by {
            assert(chars::views(out@)[k] == chars::views(self.blocks@)[k]);
            assert(is_parsed_block(self.blocks@[k]@));
        }
        ParsedMarkdown { blocks: out }
    }
}

// ---------------------------------------------------------------------------
// One line

/// The level and the text of a heading line: one to six `#`, then a text that
/// is not blank.
pub open spec fn heading_of(line: Seq<char>) -> Option<(usize, Seq<char>)> {
    let t = chars::trimmed_start(line);
    let rest = chars::stripped_start(t, '#');
    let level = t.len() - rest.len();
    let text = chars::trimmed(rest);
    if 1 <= level <= MAX_HEADING_LEVEL && text.len() > 0 {
        Some((level as usize, text))
    } else {
        None
    }
}

/// Recognises a heading line: its level and its text.
pub fn parse_heading(line: &[char]) -> (r: Option<(usize, &[char])>)
    ensures
        match r {
            Some((level, text)) => heading_of(line@) == Some((level, text@)),
            None => heading_of(line@) is None,
        },
{
    let trimmed = trim_start(line);
    let rest = trim_start_matches(trimmed, '#');
    let level: usize = trimmed.len() - rest.len();
    if level == 0 || level > MAX_HEADING_LEVEL {
        return None;
    }
    let text = trim(rest);
    if text.len() == 0 {
        None
    } else {
        Some((level, text))
    }
}

/// The ASCII digits.
pub open spec fn is_digit(c: char) -> bool {
    '0' <= c <= '9'
}

/// The number of digits that `s` starts with.
pub open spec fn digits_len(s: Seq<char>) -> nat
    decreases s.len(),
{
    if s.len() > 0 && is_digit(s[0]) {
        1 + digits_len(s.skip(1))
    } else {
        0
    }
}

/// The bullet and the text of a list item: `- ` or `* `, for which the bullet
/// is `-`, or a number, a full stop and a space.
pub open spec fn list_item_of(line: Seq<char>) -> Option<(Seq<char>, Seq<char>)> {
    let t = chars::trimmed_start(line);
    let n = digits_len(t) as int;
    if seq!['-', ' '].is_prefix_of(t) || seq!['*', ' '].is_prefix_of(t) {
        Some((seq!['-'], chars::trimmed(t.skip(2))))
    } else if n > 0 && seq!['.', ' '].is_prefix_of(t.skip(n)) {
        Some((t.take(n).push('.'), chars::trimmed_start(t.skip(n + 1))))
    } else {
        None
    }
}

/// Recognises a list item: its bullet and its text.
pub fn parse_list_item(line: &[char]) -> (r: Option<(String, &[char])>)
    ensures
        match r {
            Some((bullet, text)) => list_item_of(line@) == Some((bullet@, text@)),
            None => list_item_of(line@) is None,
        },
{
    let trimmed = trim_start(line);
    if starts_with(trimmed, &['-', ' ']) || starts_with(trimmed, &['*', ' ']) {
        return Some((to_text(&['-']), trim(slice_from(trimmed, 2))));
    }
    let mut n: usize = 0;
    assert(trimmed@.skip(0) == trimmed@);
    while n < trimmed.len() && '0' <= trimmed[n] && trimmed[n] <= '9'
        invariant
            n <= trimmed@.len(),
            digits_len(trimmed@) == n + digits_len(trimmed@.skip(n as int)),
        decreases trimmed@.len() - n,
    {
        assert(trimmed@.skip(n as int).skip(1) == trimmed@.skip(n + 1));
        n = n + 1;
    }
    if n == 0 || !starts_with(slice_from(trimmed, n), &['.', ' ']) {
        return None;
    }
    let mut bullet = to_text(slice_to(trimmed, n));
    bullet.push('.');
    Some((bullet, trim_start(slice_from(trimmed, n + 1))))
}

/// Whether `s` is made of the character `c` alone.
pub open spec fn is_all(s: Seq<char>, c: char) -> bool {
    forall|i: int| 0 <= i < s.len() ==> s[i] == c
}

/// A horizontal rule: three or more of one of `-`, `*` and `_`, and nothing
/// else but white space.
pub open spec fn is_rule(line: Seq<char>) -> bool {
    let marks = chars::visible(line);
    marks.len() >= 3 && (is_all(marks, '-') || is_all(marks, '*') || is_all(marks, '_'))
}

/// Whether a line is a horizontal rule.
pub fn is_horizontal_rule(line: &[char]) -> (r: bool)
    ensures
        r == is_rule(line@),
{
    let mut marks: usize = 0;
    let mut dashes = true;
    let mut stars = true;
    let mut underscores = true;
    let mut i: usize = 0;
    while i < line.len()
        invariant
            i <= line@.len(),
            marks <= i,
            marks == chars::visible(line@.take(i as int)).len(),
            dashes == is_all(chars::visible(line@.take(i as int)), '-'),
            stars == is_all(chars::visible(line@.take(i as int)), '*'),
            underscores == is_all(chars::visible(line@.take(i as int)), '_'),
        decreases line@.len() - i,
    {
        let c = line[i];
        let ghost seen = chars::visible(line@.take(i as int));
        assert(line@.take(i + 1).drop_last() == line@.take(i as int));
        if !is_whitespace(c) {
            proof {
                let next = seen.push(c);
                assert(chars::visible(line@.take(i + 1)) == next);
                assert(next[seen.len() as int] == c);
                assert forall|m: char| is_all(next, m) == (is_all(seen, m) && c == m) by {
                    if is_all(next, m) {
                        assert forall|j: int| 0 <= j < seen.len() implies seen[j] == m by {
                            assert(next[j] == seen[j]);
                        }
                    }
                }
            }
            marks = marks + 1;
            dashes = dashes && c == '-';
            stars = stars && c == '*';
            underscores = underscores && c == '_';
        }
        i = i + 1;
    }
    assert(line@.take(i as int) == line@);
    (dashes || stars || underscores) && marks >= 3
}

/// A cell of a separator row: dashes, colons and spaces, or nothing.
pub open spec fn is_separator_cell(cell: Seq<char>) -> bool {
    forall|i: int|
        0 <= i < cell.len() ==> (cell[i] == '-' || cell[i] == ':' || cell[i] == ' ')
}

/// Whether a cell is one of a separator row.
fn separates(cell: &[char]) -> (r: bool)
    ensures
        r == is_separator_cell(cell@),
{
    let mut i: usize = 0;
    while i < cell.len()
        invariant
            i <= cell@.len(),
            forall|j: int|
                0 <= j < i ==> (cell@[j] == '-' || cell@[j] == ':' || cell@[j] == ' '),
        decreases cell@.len() - i,
    {
        if cell[i] != '-' && cell[i] != ':' && cell[i] != ' ' {
            return false;
        }
        i = i + 1;
    }
    true
}

/// The cells of a line that starts with `|`: what stands between the bars,
/// trimmed.
pub open spec fn cells_of(line: Seq<char>) -> Seq<Seq<char>> {
    let pieces = chars::split_pieces(chars::stripped(line, '|'), '|');
    Seq::new(pieces.len(), |i: int| chars::trimmed(pieces[i]))
}

/// Whether a line starts with `|`.
pub open spec fn is_table_line(line: Seq<char>) -> bool {
    line.len() > 0 && line[0] == '|'
}

/// The cells of a table row. A line that does not start with `|` is no row, nor
/// is one whose cells are all those of a separator row.
pub open spec fn table_row_of(line: Seq<char>) -> Option<Seq<Seq<char>>> {
    let cells = cells_of(line);
    if is_table_line(line) && exists|i: int|
        0 <= i < cells.len() && !is_separator_cell(#[trigger] cells[i]) {
        Some(cells)
    } else {
        None
    }
}

/// Parses a table row like `| foo | bar |` into trimmed cells. Returns `None`
/// for separator rows (`|---|---|`).
pub fn parse_table_row(line: &[char]) -> (r: Option<Vec<String>>)
    ensures
        match r {
            Some(cells) => table_row_of(line@) == Some(chars::views(cells@)) && cells@.len() > 0,
            None => table_row_of(line@) is None,
        },
{
    if line.len() == 0 || line[0] != '|' {
        return None;
    }
    let pieces = split(trim_matches(line, '|'), '|');
    let ghost all = cells_of(line@);
    let mut cells: Vec<String> = Vec::new();
    let mut separator = true;
    let mut i: usize = 0;
    while i < pieces.len()
        invariant
            i <= pieces@.len(),
            all == cells_of(line@),
            chars::views(pieces@) == chars::split_pieces(chars::stripped(line@, '|'), '|'),
            chars::views(cells@) == all.take(i as int),
            separator == !exists|k: int| 0 <= k < i && !is_separator_cell(#[trigger] all[k]),
        decreases pieces@.len() - i,
    {
        let cell = trim(pieces[i]);
        assert(chars::views(pieces@)[i as int] == pieces@[i as int]@);
        assert(all[i as int] == cell@);
        if !separates(cell) {
            separator = false;
        }
        let ghost before = chars::views(cells@);
        cells.push(to_text(cell));
        assert(chars::views(cells@) == before.push(cell@));
        i = i + 1;
    }
    assert(chars::views(cells@) == all);
    if separator {
        return None;
    }
    Some(cells)
}

// ---------------------------------------------------------------------------
// The whole source

/// Whether a line opens or closes a fenced code block.
pub open spec fn is_fence(line: Seq<char>) -> bool {
    seq!['`', '`', '`'].is_prefix_of(chars::trimmed_start(line))
}

/// The blocks of one line outside code blocks. It is one block, but for a
/// level-1 heading, which brings its rule with it.
pub open spec fn blocks_of_line(line: Seq<char>) -> Seq<BlockView> {
    let t = chars::trimmed_start(line);
    if heading_of(t) is Some {
        let (level, text) = heading_of(t)->0;
        if level == 1 {
            seq![BlockView::Heading { level, text }, BlockView::HeadingRule]
        } else {
            seq![BlockView::Heading { level, text }]
        }
    } else if list_item_of(t) is Some {
        let (bullet, text) = list_item_of(t)->0;
        seq![BlockView::ListItem { bullet, text }]
    } else if is_rule(t) {
        seq![BlockView::HorizontalRule]
    } else if table_row_of(t) is Some {
        seq![BlockView::TableRow(table_row_of(t)->0)]
    } else if is_table_line(t) {
        seq![BlockView::TableSeparator]
    } else if t.len() == 0 {
        seq![BlockView::Blank]
    } else {
        seq![BlockView::Paragraph { text: t }]
    }
}

/// Whether the line after `lines` is inside a code block: whether an odd number
/// of fences comes before it.
pub open spec fn in_code(lines: Seq<Seq<char>>) -> bool
    decreases lines.len(),
{
    if lines.len() == 0 {
        false
    } else if is_fence(lines.last()) {
        !in_code(lines.drop_last())
    } else {
        in_code(lines.drop_last())
    }
}

/// The blocks of the lines of a source, in order.
pub open spec fn blocks_of(lines: Seq<Seq<char>>) -> Seq<BlockView>
    decreases lines.len(),
{
    if lines.len() == 0 {
        seq![]
    } else {
        let before = blocks_of(lines.drop_last());
        let line = lines.last();
        if is_fence(line) {
            before
        } else if in_code(lines.drop_last()) {
            before.push(BlockView::Code { line })
        } else {
            before + blocks_of_line(line)
        }
    }
}

/// The blocks of a markdown source.
pub open spec fn parsed(content: Seq<char>) -> Seq<BlockView> {
    blocks_of(chars::lines_of(content))
}

/// Appends the blocks of one line outside code blocks to `blocks`.
fn push_line(blocks: &mut Vec<Block>, line: &[char])
    requires
        forall|i: int| 0 <= i < old(blocks)@.len() ==> is_parsed_block(#[trigger] old(blocks)@[i]@),
    ensures
        chars::views(final(blocks)@) == chars::views(old(blocks)@) + blocks_of_line(line@),
        forall|i: int|
            0 <= i < final(blocks)@.len() ==> is_parsed_block(#[trigger] final(blocks)@[i]@),
{
    let ghost before = chars::views(blocks@);
    let trimmed = trim_start(line);
    if let Some((level, text)) = parse_heading(trimmed) {
        blocks.push(Block::Heading { level, text: to_text(text) });
        if level == 1 {
            blocks.push(Block::HeadingRule);
        }
    } else if let Some((bullet, text)) = parse_list_item(trimmed) {
        blocks.push(Block::ListItem { bullet, text: to_text(text) });
    } else if is_horizontal_rule(trimmed) {
        blocks.push(Block::HorizontalRule);
    } else if let Some(cells) = parse_table_row(trimmed) {
        blocks.push(Block::TableRow(cells));
    } else if trimmed.len() > 0 && trimmed[0] == '|' {
        blocks.push(Block::TableSeparator);
    } else if trimmed.len() == 0 {
        blocks.push(Block::Blank);
    } else {
        blocks.push(Block::Paragraph { text: to_text(trimmed) });
    }
    assert(chars::views(blocks@) == before + blocks_of_line(line@));
}

/// Parses markdown source into a width-independent sequence of blocks.
///
/// This is a small line-oriented parser: fenced code blocks, ATX headings,
/// dash/star/numbered list items, horizontal rules, tables, and plain paragraphs
/// with optional links. Whatever is not one of the others is a paragraph.
#[must_use]
pub fn parse(content: &str) -> (r: ParsedMarkdown)
    ensures
        r@ == parsed(content@),
{
    let content_chars = to_chars(content);
    let lines = split_lines(content_chars.as_slice());
    let ghost all = chars::views(lines@);
    let mut blocks: Vec<Block> = Vec::new();
    let mut in_code_block = false;
    let mut i: usize = 0;
    assert(chars::views(blocks@) == Seq::<BlockView>::empty());
    while i < lines.len()
        invariant
            all == chars::views(lines@),
            i <= lines@.len(),
            chars::views(blocks@) == blocks_of(all.take(i as int)),
            in_code_block == in_code(all.take(i as int)),
            forall|k: int| 0 <= k < blocks@.len() ==> is_parsed_block(#[trigger] blocks@[k]@),
        decreases lines@.len() - i,
    {
        let raw_line = lines[i];
        assert(all.take(i + 1).drop_last() == all.take(i as int));
        assert(all.take(i + 1).last() == raw_line@);
        if starts_with(trim_start(raw_line), &['`', '`', '`']) {
            in_code_block = !in_code_block;
        } else if in_code_block {
            let ghost before = chars::views(blocks@);
            blocks.push(Block::Code { line: to_text(raw_line) });
            assert(chars::views(blocks@) == before.push(BlockView::Code { line: raw_line@ }));
        } else {
            push_line(&mut blocks, raw_line);
        }
        i = i + 1;
    }
    assert(all.take(i as int) == all);
    ParsedMarkdown { blocks }
}

/// How often a source has been parsed since the count was last reset.
#[derive(Debug, Default)]
pub struct ParseInvocations {
    pub count: u64,
}

/// Parses markdown source and counts the invocation.
#[must_use]
pub fn parse_counted(content: &str, invocations: &mut ParseInvocations) -> (r: ParsedMarkdown)
    requires
        old(invocations).count < u64::MAX,
    ensures
        r@ == parsed(content@),
        final(invocations).count == old(invocations).count + 1,
{
    invocations.count = invocations.count + 1;
    parse(content)
}

/// How often a source has been parsed since the count was last reset.
#[must_use]
pub fn parse_invocation_count(invocations: &ParseInvocations) -> (r: u64)
    ensures
        r == invocations.count,
{
    invocations.count
}

/// Sets the count of parser invocations back to zero.
pub fn reset_parse_invocation_count(invocations: &mut ParseInvocations)
    ensures
        final(invocations).count == 0,
{
    invocations.count = 0;
}

} // verus!
