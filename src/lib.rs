//! Change-aware desktop snapshots: parsing of window listings and text
//! recognition output, content fingerprints, persisted fingerprint state,
//! snapshot assembly, calendar arithmetic and grid references.
pub mod date;
pub mod fingerprint;
pub mod grid;
pub mod ocr;
pub mod snapshot;
pub mod state;
pub mod text;
pub mod windows;
