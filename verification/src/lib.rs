//! Verified core of a file-integrity tool: hashing files into a text
//! database, reading that database back, and comparing it with the
//! files found on disk.

pub mod text;
pub mod hasher;
pub mod paths;
pub mod clock;
pub mod csv_out;
pub mod database;
pub mod sort;
pub mod index;
pub mod compare;
pub mod scanner;
pub mod presentation;
