//! Streaming Markdown-to-terminal rendering: argument parsing, text layout,
//! Markdown event rendering and the terminal redraw plan.

pub mod width;
pub mod text;
pub mod style;
pub mod wrap;
pub mod wrap_laws;
pub mod coalesce_laws;
pub mod encode_laws;
pub mod markdown;
pub mod themes;
pub mod table;
pub mod render_spec;
pub mod renderer;
pub mod render_laws;
pub mod cli;
pub mod terminal;
pub mod app;
pub mod plain_law;
pub mod decode;
