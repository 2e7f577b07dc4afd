//! Verified editing of the load-command table of a Mach object file.
//!
//! The library parses the fixed header and the variable-length load-command
//! records of an in-memory Mach object buffer, builds a correctly padded
//! `LC_RPATH` record for a caller-supplied path, and splices that record in
//! after the last existing record while patching the header's record count
//! and total record bytes.  Every function is specified against a
//! mathematical model of the byte layout, so byte-order handling, bounds
//! checks and the alignment arithmetic are all proved.
//!
//! Reading the buffer from a file and writing it back are the caller's
//! business; the library works on plain byte vectors.

pub mod insert;
pub mod model;
pub mod order;
pub mod parse;

pub use insert::{add_rpath, build_rpath_record};
pub use model::{ByteOrder, LoadCommand, LoadCommandView, MachError, MachHeader, WordSize};
pub use parse::{detect_format, parse_macho, parse_table, read_header};
