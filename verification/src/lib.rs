//! A binary-format description and exploration engine.
//!
//! A [`Format`] binds byte offsets to types: primitives, structs and slices,
//! of a size that follows from their declaration or that depends on the
//! data. A [`View`] applies a format to a byte buffer and decodes the fields
//! inside a requested byte range. A scroll [`Container`] computes which
//! window of a long item list has to be materialised for a viewport.

pub mod context;
pub mod decode;
pub mod dynamic_decode;
pub mod dynamic_size;
pub mod error;
pub mod fixed_size;
pub mod format;
pub mod primitives;
pub mod property;
pub mod scroll;
pub mod view;

pub use context::{Context, ContextView};
pub use dynamic_size::{
    DynamicField, DynamicSizeSlice, DynamicSizeStruct, DynamicSizeType, Type,
};
pub use error::Error;
pub use fixed_size::{FixedSizeSlice, FixedSizeStruct, FixedSizeType, StructField};
pub use format::{Format, FormatChild};
pub use primitives::{FixedSize, FixedSizePrimitive, U32};
pub use property::{Hierarchy, Property, PropertyView};
pub use scroll::{rounding_div, Container, ContainerView, LayoutUpdate};
pub use view::{QueryResult, View};
