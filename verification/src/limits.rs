//! The bounds that keep a hostile peer from exhausting memory or the stack.

use vstd::prelude::*;

verus! {

/// The deepest nesting of arrays accepted by default.
pub const DEFAULT_MAX_DEPTH: usize = 64;

/// The largest element count that an array may declare by default.
pub const DEFAULT_MAX_ARRAY_LEN: usize = 1_048_576;

/// The largest bulk payload, in bytes, accepted by default.
pub const DEFAULT_MAX_BULK_LEN: usize = 536_870_912;

/// The largest encoded frame, in bytes, accepted by default.
pub const DEFAULT_MAX_FRAME_LEN: usize = 1_073_741_824;

/// The bounds under which a decoder works.
#[derive(Debug, Clone, Copy, PartialEq, Eq)]
pub struct Limits {
    /// How deeply arrays may nest: `0` admits no array at all, `1` admits
    /// arrays whose elements are not arrays, and so on.
    pub max_depth: usize,
    /// The largest element count that an array may declare.
    pub max_array_len: usize,
    /// The largest length, in bytes, that a bulk string may declare.
    pub max_bulk_len: usize,
    /// The largest number of bytes that one encoded frame may take up, and
    /// so the most that is buffered while a frame is incomplete.
    pub max_frame_len: usize,
}

impl Limits {
    /// The default bounds, as a value for contracts.
    pub open spec fn standard() -> Limits {
        Limits {
            max_depth: DEFAULT_MAX_DEPTH,
            max_array_len: DEFAULT_MAX_ARRAY_LEN,
            max_bulk_len: DEFAULT_MAX_BULK_LEN,
            max_frame_len: DEFAULT_MAX_FRAME_LEN,
        }
    }
}

impl Default for Limits {
    fn default() -> (r: Limits)
        ensures
            r == Limits::standard(),
    {
        Limits {
            max_depth: DEFAULT_MAX_DEPTH,
            max_array_len: DEFAULT_MAX_ARRAY_LEN,
            max_bulk_len: DEFAULT_MAX_BULK_LEN,
            max_frame_len: DEFAULT_MAX_FRAME_LEN,
        }
    }
}

} // verus!
