//! The storage benchmark family.

pub mod admission_laws;
pub mod aggregate;
pub mod archive;
pub mod archive_laws;
pub mod artefacts;
pub mod attest;
pub mod brink;
pub mod brink_laws;
pub mod canonical;
pub mod canonical_laws;
pub mod cells;
pub mod document;
pub mod document_laws;
pub mod filing_laws;
pub mod grammar_laws;
pub mod heap;
pub mod integrity;
pub mod integrity_laws;
pub mod json;
pub mod json_laws;
pub mod model;
pub mod normal_form;
pub mod normal_laws;
pub mod plan;
pub mod plan_laws;
pub mod pretty;
pub mod raster;
pub mod raster_laws;
pub mod refusal_laws;
pub mod scenarios;
pub mod shape_laws;
pub mod splitmix;
pub mod stats;
pub mod sweep;
pub mod sweep_laws;
pub mod tamper_laws;
pub mod tile_id;
pub mod tile_laws;
pub mod walk;
pub mod walk_laws;
pub mod wire;
