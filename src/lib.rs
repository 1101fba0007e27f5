//! BGZF (blocked gzip): the block codec, the streaming reader and writer, virtual
//! offsets and the `.gzi` index, and the tabix binning index.

pub mod batch;
pub mod csi;
pub mod deflate;
pub mod error;
pub mod header;
pub mod index;
pub mod read;
pub mod roundtrip;
pub mod tabix;
pub mod tbi;
pub mod thread;
pub mod write;

pub use deflate::Compression;
pub use error::BGZFError;
pub use read::{BGZFReader, EOF_MARKER};
pub use write::BGZFWriter;
