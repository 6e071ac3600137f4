//! The error kinds shared by every component.

use vstd::prelude::*;

verus! {

/// Why a construction, a size computation or a decode did not succeed.
#[derive(Debug, Clone, Copy, PartialEq, Eq, Structural)]
pub enum Error {
    /// A construction-time parameter is unusable: a zero average size, or
    /// sizes and counts whose product cannot be represented.
    InvalidConfiguration,
    /// Two children of a format that is not a union claim overlapping bytes.
    /// `first` and `second` are the positions of the two children, in
    /// insertion order.
    LayoutConflict { first: usize, second: usize },
    /// A decode needs bytes beyond the end of the data. The data ran out at
    /// `offset`; `missing` more bytes would have been needed.
    TruncatedData { offset: usize, missing: usize },
    /// A length read from the data at `offset` cannot be the length of
    /// anything: the size it implies is not representable.
    MalformedDynamicSize { offset: usize },
}

} // verus!
