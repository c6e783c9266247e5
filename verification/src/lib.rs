//! Reading and writing of WAD archives: a header, a table of directory
//! entries, and the lumps of raw bytes that the entries address.

pub mod archive;
pub mod directory;
pub mod error;
pub mod header;
pub mod le;
pub mod lump;
pub mod round_trip;
pub mod wad_de;

pub use archive::build_name_index;
pub use archive::materialize_lumps;
pub use archive::parse_directory;
pub use archive::serialize;
pub use archive::Wad;
pub use directory::Directory;
pub use directory::DirectoryEntry;
pub use directory::DirectoryIter;
pub use error::IoCause;
pub use error::WadError;
pub use header::WadHeader;
pub use lump::Lump;
pub use wad_de::from_bytes;
pub use wad_de::Decode;
pub use wad_de::WadDeserializer;
