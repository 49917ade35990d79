//! Verified parsers for two formats: the box structure of MP4 (ISO base media)
//! files and a JSON dialect.

pub mod iresult;
pub mod endian;
pub mod mp4;
pub mod mp4_laws;
pub mod json_value;
pub mod json_spec;
pub mod json_parse;
pub mod json_laws;
