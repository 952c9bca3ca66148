pub mod archive;
pub mod central_directory;
pub mod codec;
pub mod complex_data;
pub mod error;
pub mod file_record;
pub mod header;
pub mod integrity;
pub mod kpdb_reader;
pub mod kpdb_writer;
pub mod metadata;
