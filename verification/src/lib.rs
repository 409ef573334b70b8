//! Assets by logical name: a catalog that resolves names to concrete paths,
//! an archive cache that keeps the members taken out of archives, and an
//! asset manager that loads, unloads and hands out assets through both,
//! with hooks that may step in.
//!
//! The library never touches a disk or a network. Whatever has to be read
//! is asked for, and handed in by the caller; whatever has to be written or
//! deleted is handed back:
//!
//! - `manager::AssetsManager::load` says what is to be read for a name, and
//!   `finish_load` takes the bytes in;
//! - `decompression_manager::DecompressionManager::cache` hands a member's
//!   bytes out for its cache file, `reload_path` names the file to read back,
//!   and the accessors take what was read;
//! - `remove` hands back the cache files that nothing refers to any more.
//!
//! Paths are texts in which both `/` and `\` part the components.
pub mod archive;
pub mod archive_path;
pub mod decompression_manager;
pub mod dependencie_manager;
pub mod disk;
pub mod document;
pub mod downloader;
pub mod error;
pub mod index;
pub mod manager;
pub mod pattern;
pub mod process_pass;
pub mod rows;
pub mod store;
pub mod table;
pub mod text;
pub mod unpack;
