//! Meeting-minutes library: a document model for structured protocols, a
//! Markdown codec that round-trips the model through a fixed text grammar,
//! and a layout model that paginates the document for PDF export.

pub mod ablauf;
pub mod codec;
pub mod datum;
pub mod layout;
pub mod modell;
pub mod text;
