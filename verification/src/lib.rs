//! The storage family of a tile-pyramid benchmark: what is measured, how the
//! evidence is sealed, and when a document may be filed.

pub mod command_laws;
pub mod options;
pub mod sha256;
pub mod storage;
pub mod text;
pub mod version_id;
pub mod version_laws;
pub mod version_matrix;
pub mod words;
pub mod words_laws;
