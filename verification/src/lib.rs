//! A time-series storage engine: compact column encodings (zigzag, varint,
//! delta-of-delta timestamps, XOR-compressed float bit patterns), the on-disk
//! write-ahead-log and block formats, the in-memory active block, and the
//! alerting rules with their evaluation state machine.
pub mod text;
pub mod assoc;
pub mod series_key;
pub mod line_protocol;
pub mod engine;
pub mod alert;
pub mod model;
pub mod config;
pub mod api;
