//! Dense n-dimensional arrays over a flat buffer: shapes and strides, strided
//! views, traversal in logical order, and numeric reductions over whole
//! arrays and along single axes.

pub mod algebra;
pub mod array;
pub mod dimension;
pub mod extremes;
pub mod invariance;
pub mod iter;
pub mod layout;
pub mod numeric;
pub mod scalar;

pub use crate::array::ArrayBase;
pub use crate::array::Storage;
pub use crate::dimension::Axis;
pub use crate::dimension::Dimension;
pub use crate::dimension::ShapeError;
pub use crate::extremes::Extreme;
pub use crate::iter::AxisChunksIter;
pub use crate::iter::AxisIter;
pub use crate::iter::IndexedIter;
pub use crate::iter::Iter;
pub use crate::iter::Offsets;
pub use crate::numeric::Monoid;
pub use crate::scalar::Numeric;
pub use crate::scalar::Real;
