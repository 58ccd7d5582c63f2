//! Chunked append-only measurement-collection ingestion.
//!
//! Measurements sampled by a serial-connected device are packed into
//! size-capped chunks, persisted as immutable content-addressed collection
//! records, and indexed under their owning device by links.  The ledger
//! holding those records is modelled here as an append-only store keyed by
//! record content, with an explicit edge table for the link indices.

pub mod app_id;
pub mod bpv_device;
pub mod chunk;
pub mod external_resistors;
pub mod ledger;
pub mod measurement_collection;
pub mod migration;
pub mod validation;
