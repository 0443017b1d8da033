//! ZhuQian core: semantic labels, headings, templates, statistics and
//! highlight spans for structural writing in Markdown.

pub mod text;
pub mod label;
pub mod label_laws;
pub mod doc;
pub mod template;
pub mod spans;
pub mod theme;
pub mod export;
pub mod blocks;
pub mod workspace;
pub mod assist;
pub mod navigate;
pub mod fonts;
pub mod classic;
pub mod utf16;
pub mod validation_laws;
