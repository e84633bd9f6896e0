//! Core of a small image-gallery service: an ordered, disk-backed list of
//! image metadata records, the decoding rules for multipart uploads, and the
//! credential gate in front of the mutating operations.
//!
//! The pieces an HTTP front end needs are all here as plain functions on plain
//! values: the front end decodes a request into [`upload::UploadPart`]s, lets
//! [`upload::plan_upload`] decide what to store, and mirrors every mutation of
//! [`store::ImageStore`] to the backing file with the JSON text the store
//! hands back.

pub mod gate;
pub mod json;
pub mod record;
pub mod store;
pub mod text;
pub mod upload;
