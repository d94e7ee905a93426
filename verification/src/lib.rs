//! Verified core of the Gaia GMN meteor-capture station: FTP frame
//! compression, the FF/FS file formats, configuration parsing, service
//! discovery naming, capture-night bookkeeping and dashboard formatting.

pub mod text;
pub mod ff;
pub mod compression;
pub mod config;
pub mod model;
pub mod discovery;
pub mod files;
pub mod capture;
