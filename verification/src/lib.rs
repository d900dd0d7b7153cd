//! Markdown rendering for terminal transcripts.
//!
//! [`parse`] turns markdown source into a [`ParsedMarkdown`]: a sequence of
//! width-independent blocks. [`render_parsed`] takes that and a width and
//! produces styled lines. A change of width renders again and does not parse
//! again; [`render_markdown`] does both steps in one call.
pub mod block;
pub mod chars;
pub mod laws;
pub mod layout;
pub mod markup;
pub mod render;
pub mod style;
pub mod table;
pub mod text;
pub mod width;
pub mod wrap;

pub use block::{
    parse, parse_counted, parse_invocation_count, reset_parse_invocation_count, Block,
    ParseInvocations, ParsedMarkdown,
};
pub use render::{render_markdown, render_markdown_tagged, render_parsed, render_parsed_tagged};
pub use style::{Color, Palette, RenderOptions, Style};
pub use text::{Line, RenderedMarkdownLine, Span};
