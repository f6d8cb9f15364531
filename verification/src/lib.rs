//! Decoder for the common variant of the Unix `ar` archive format.
//!
//! An archive is an 8-byte signature followed by entries. Each entry is a
//! 60-byte header of fixed-width ASCII fields, the payload whose length the
//! header declares, and any number of newline bytes of padding.
//!
//! Every decoder takes the bytes still to be read and returns the bytes that
//! are left together with the decoded value. Its contract equates that result
//! with a specification function over `Seq<u8>`.

pub mod archive;
pub mod combinators;
pub mod entry;
pub mod error;
pub mod header;
pub mod layout;
pub mod number;

pub use archive::{parse_file_signature, parser};
pub use entry::{parse_entry, parse_entry_data, parse_newline_padding, Entry};
pub use error::{ParseError, ParseErrorKind};
pub use header::{
    parse_entry_header, parse_entry_header_terminator, parse_gid, parse_identifier, parse_mode,
    parse_mtime, parse_size, parse_uid, EntryHeader,
};
pub use number::{byte_slice_to_number, parse_number};
