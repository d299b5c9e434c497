use vstd::prelude::*;

verus! {

/// First eight bytes of a term index, read as a little-endian number.
pub const TERM_INDEX_MAGIC_NUMBER: u64 = 0x5844_4e49_4d52_4554;

/// First eight bytes of a term dictionary, read as a little-endian number.
pub const TERM_DICT_MAGIC_NUMBER: u64 = 0x5443_4944_4d52_4554;

/// Version of the layout of both files.
pub const VERSION: u8 = 1;

/// What the name of a term index ends with.
pub const TERM_INDEX_FILE_SUFFIX: &'static str = ".term_index";

/// What the name of a term dictionary ends with.
pub const TERM_DICT_FILE_SUFFIX: &'static str = ".term_dict";

} // verus!
