//! Direct-I/O pipeline: sorted input streams and the aligned block writer.

pub mod output_file;
pub mod sorted_file;
