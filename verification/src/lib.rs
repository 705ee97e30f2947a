//! The logic of a command-line video cutter: reading timestamps, naming
//! output files, planning splits, deciding which packets a stream copy
//! writes and with which timestamps, cropping pictures to portrait format,
//! rendering transcripts (plain text, SRT subtitles, and the condensed
//! listing given to a language model), and reading the model's answer.
pub mod frame;
pub mod models;
pub mod naming;
pub mod plan;
pub mod remux;
pub mod sections;
pub mod text;
pub mod timestamp;
pub mod transcript;
pub mod validation;
