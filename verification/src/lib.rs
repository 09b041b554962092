//! Activity statistics for the representatives of a national assembly:
//! normalisation of open-data records, aggregation over time windows, the
//! co-signature network, bill and group linkage, and the layout of the
//! published artefacts.

pub mod aggregator;
pub mod cosign;
pub mod counting;
pub mod dates;
pub mod dossiers;
pub mod downloader;
pub mod exporter;
pub mod group_ppl_v1;
pub mod id_audit;
pub mod json;
pub mod models;
pub mod numbers;
pub mod parser;
pub mod site;
pub mod sorting;
pub mod text;
pub mod windows;
