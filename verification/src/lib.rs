//! An index over one UTF-8 text that translates between byte offsets,
//! lines and character columns, and tab-expanded display columns.

pub mod bom;
pub mod determined;
pub mod encoding;
pub mod laws;
pub mod lemmas;
pub mod model;
pub mod text_lines;
pub mod unicode;
pub mod walk;

pub use model::{LineAndColumnDisplay, LineAndColumnIndex, LineView, MultiByteCharInfo, TextLinesView};
pub use text_lines::TextLines;
