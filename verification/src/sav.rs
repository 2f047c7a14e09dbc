//! SPSS .sav file format reader/writer.
pub mod bytes;
pub mod command_law;
pub mod reader;
pub mod writer;
pub mod data_law;
pub mod row_law;
pub mod dictionary_law;
pub mod roundtrip;
pub mod file_law;
pub mod plain_law;
pub mod foreign_law;
pub mod written_law;
