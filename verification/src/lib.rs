//! Codec for a flat game-asset archive: a little-endian header, a table of
//! entries with obfuscated names and big-endian sizes, and a contiguous data
//! block whose members may be LZSS-compressed.

pub mod cipher;
pub mod cli;
pub mod codec;
pub mod compress;
pub mod error;
pub mod pack;
pub mod round_trip;
pub mod unpack;

pub use cipher::{cipher_decrypt, cipher_encrypt, decrypt_name, encrypt_name};
pub use codec::{read_metadata, FileEntry};
pub use compress::{choose_payload, compress_payload, inflate};
pub use pack::{
    build_archive, handle_pack, host_relative_path, layout, normalize_separators, pack_data,
    pack_file, pack_name, Layout, PackFileInfo, SourceFile,
};
pub use unpack::{extract_entry, handle_unpack, UnpackedFile};
