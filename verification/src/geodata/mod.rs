pub mod bytes;
pub mod format;
pub mod importer;
pub mod le;
pub mod multipolygons;
pub mod reader;
pub mod ref_set;
pub mod roundtrip;
pub mod saver;
pub mod tile_refs;
