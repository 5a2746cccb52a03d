//! Zero-copy views over little-endian byte buffers: values in fixed-size
//! slots, arrays of values, arrays of fixed-size objects, and arrays of
//! variable-size objects indexed by an offset table.

pub mod array;
pub mod generate;
pub mod internal;
pub mod object;
pub mod rt;
pub mod value;

pub use array::ArrayI;
pub use array::ArrayO;
pub use array::ArrayV;
pub use object::Object;
pub use object::SizedObject;
pub use value::Value;
