//! Verified core of a Mario Kart Wii KMP course editor: the byte layout of
//! saved files, lossless field-only patching, editor ordering, path-graph
//! editing and traversal, rebuild planning and raw record encodings.
pub mod error;
pub mod layout;
pub mod json;
pub mod patch;
pub mod graph;
pub mod traverse;
pub mod ordering;
pub mod document;
pub mod rebuild;
pub mod records;
pub mod routes;
pub mod export;
pub mod edit;
pub mod path_links;
pub mod snapshot;
pub mod grouping;
pub mod field_save;
