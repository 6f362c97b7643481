//! Files embedded into a program at build time, looked up by path key at run
//! time.

mod codec;
mod collect;
mod items;
mod keys;
mod laws;
mod table;

pub use codec::Compression;
pub use codec::FilesError;
pub use codec::decode_spec;
pub use codec::entry_encodes;
pub use codec::gunzip_of;
pub use collect::CollectorModel;
pub use collect::DirEntry;
pub use collect::DirEntryModel;
pub use collect::IncludeDir;
pub use collect::add_spec;
pub use collect::build_spec;
pub use collect::last_walked_file;
pub use collect::start;
pub use collect::walked_entry_holds;
pub use collect::walked_keys;
pub use items::ItemModel;
pub use keys::as_key;
pub use keys::excluded;
pub use keys::is_absolute;
pub use keys::is_suffix_of;
pub use keys::lemma_norm_key_idempotent;
pub use keys::norm_key;
pub use keys::resolved_location;
pub use laws::lemma_available_after_build;
pub use laws::lemma_gzip_round_trip;
pub use laws::lemma_normalized_lookup;
pub use laws::lemma_plain_round_trip;
pub use table::FileNames;
pub use table::FileRead;
pub use table::Files;
pub use table::chunk_of;
pub use table::entry_view;
pub use table::entry_views;
pub use table::get_raw_spec;
pub use table::get_spec;
pub use table::table_of;
