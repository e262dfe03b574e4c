pub mod text;
pub mod song_norm;
pub mod digest;
pub mod bms_parse;
pub mod dedupe;
pub mod json;
pub mod db;
pub mod commands;

pub mod tables;
pub mod scan;
