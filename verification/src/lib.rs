pub mod append_buffer;
pub mod document;
pub mod metadata;
pub mod position;
pub mod row;
pub mod strutil;
pub mod wrap;
pub mod unicode;

pub use append_buffer::AppendBuffer;
pub use document::{append_newline, render, Counts, Document, SaveType};
pub use metadata::{Extension, Metadata};
pub use position::Position;
pub use row::DisplayRow;
pub use wrap::to_display_rows;
