//! A document-indexing core: text normalization, weighted keyword storage
//! with ranked multi-term search, edit-distance spelling correction, and a
//! two-phase query protocol that falls back to the corrected query when the
//! original one matches nothing.

pub mod fileparse;
pub mod kwparser;
pub mod models;
pub mod server;
pub mod store;
pub mod spelling;
pub mod text;
