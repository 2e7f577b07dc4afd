//! Data model: the container header, load-command records, format tags and
//! the error taxonomy, together with the layout constants.

use vstd::prelude::*;

verus! {

/// 32-bit container, bytes in the order the reader expects.
pub const MH_MAGIC: u32 = 0xfeedface;

/// 32-bit container, bytes swapped.
pub const MH_CIGAM: u32 = 0xcefaedfe;

/// 64-bit container, bytes in the order the reader expects.
pub const MH_MAGIC_64: u32 = 0xfeedfacf;

/// 64-bit container, bytes swapped.
pub const MH_CIGAM_64: u32 = 0xcffaedfe;

/// Tag of the record variant this library inserts: a run-path record.
pub const LC_RPATH: u32 = 0x8000001c;

/// Size in bytes of the fixed header of a 32-bit container.
pub const HEADER_SIZE_32: usize = 28;

/// Size in bytes of the fixed header of a 64-bit container.
pub const HEADER_SIZE_64: usize = 32;

/// Offset of the path string inside a run-path record: the 8-byte tag/size
/// prefix plus the 4-byte offset field itself, rounded to the fixed layout.
pub const RPATH_PATH_OFFSET: u32 = 16;

/// Why an edit was refused.  All three are fatal: no partial result is
/// produced and the input buffer is handed back unchanged.
#[derive(Clone, Copy, Debug, PartialEq, Eq, Structural)]
pub enum MachError {
    /// The leading magic value matches none of the four known variants.
    UnrecognizedFormat,
    /// The buffer is shorter than a declared structure requires.
    TruncatedInput,
    /// A record declares a size below the 8-byte tag/size frame.
    SizeUnderflow,
}

/// Word size of the container, resolved from the magic value.
#[derive(Clone, Copy, Debug, PartialEq, Eq, Structural)]
pub enum WordSize {
    W32,
    W64,
}

/// Byte order of the container's multi-byte fields, resolved from the
/// magic value.
#[derive(Clone, Copy, Debug, PartialEq, Eq, Structural)]
pub enum ByteOrder {
    Big,
    Little,
}

/// The fixed header at the start of the container.  `reserved` is only
/// present on disk in the 64-bit variant; for a 32-bit container it is 0.
#[derive(Clone, Copy, Debug, PartialEq, Eq, Structural)]
pub struct MachHeader {
    pub magic: u32,
    pub cputype: i32,
    pub cpusubtype: i32,
    pub filetype: u32,
    pub ncmds: u32,
    pub sizeofcmds: u32,
    pub flags: u32,
    pub reserved: u32,
}

/// One load-command record: a 4-byte tag, the record's total size in bytes
/// (tag and size included), and the `cmdsize - 8` payload bytes, kept
/// opaque so unknown record types round-trip unchanged.
#[derive(Clone, Debug, PartialEq, Eq)]
pub struct LoadCommand {
    pub cmd: u32,
    pub cmdsize: u32,
    pub data: Vec<u8>,
}

/// Mathematical view of a [`LoadCommand`]: the payload as a byte sequence.
pub struct LoadCommandView {
    pub cmd: u32,
    pub cmdsize: u32,
    pub data: Seq<u8>,
}

impl View for LoadCommand {
    type V = LoadCommandView;

    open spec fn view(&self) -> LoadCommandView {
        LoadCommandView { cmd: self.cmd, cmdsize: self.cmdsize, data: self.data@ }
    }
}

/// Size in bytes of the fixed header for the given word size.
pub open spec fn spec_header_size(w: WordSize) -> int {
    match w {
        WordSize::W32 => 28,
        WordSize::W64 => 32,
    }
}

/// Executable counterpart of [`spec_header_size`].
pub fn header_size(w: WordSize) -> (n: usize)
    ensures
        n == spec_header_size(w),
{
    match w {
        WordSize::W32 => HEADER_SIZE_32,
        WordSize::W64 => HEADER_SIZE_64,
    }
}

} // verus!
