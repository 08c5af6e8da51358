//! Code transformations: symbol tables for renaming, extraction
//! boundaries, and patches with dry runs and rollback.
pub mod rename;
pub mod safety;
pub mod transform;
