# markdown_render

Markdown rendering for terminal transcripts, verified with Verus.

`parse` turns markdown source into a width-independent sequence of blocks;
`render_parsed` turns those and a terminal width into styled lines. A change of
width renders again and does not parse again. `render_markdown` does both steps
in one call, and the `_tagged` functions keep, for every line, whether a code
block produced it.

## Layout

- `src/block.rs`: blocks, and the parser that classifies source lines
- `src/markup.rs`: inline markup, links and bare URLs
- `src/wrap.rs`: wrapping of code lines, prose and table cells
- `src/layout.rs`: paragraphs, list items, headings and code as styled lines
- `src/table.rs`: tables with box-drawing borders
- `src/render.rs`: whole documents
- `src/width.rs`: display widths, as the `unicode-width` crate measures them
- `src/chars.rs`, `src/style.rs`, `src/text.rs`: characters, styles, lines
- `src/laws/`: what holds of the library as a whole
- `tests/`: tests on concrete values
- `app/`: the library's lines as `ratatui` values

## What is proved

Every function has a contract that says exactly what it returns, over spec
functions on sequences of characters and spans. `src/laws/` proves what follows:
that wrapping loses no text, that lines fit, that another width shows the same
text (for tables, where their cells hold no markup), that tables are framed and
rows of plain text keep their bars in place, that code is shown as it stands, and
that nothing is drawn but what the source says and the renderer draws.

What is not proved is that `unicode-width` measures as `src/width.rs` states, and
that `String::push` appends.
