//! Bitfields of 32x32x32 bits, filled by comparing packed arrays of small
//! unsigned elements against a value, combined with bitwise operations, and
//! transposed along their axes; with a variant that tracks which rows and
//! slices hold any set bit.
pub mod bits;
pub mod loader;
pub mod lane_groups;
pub mod transposes;
pub mod bitfield;
pub mod tracked_bitfield;
pub mod util;

pub use bitfield::Bitfield;
pub use loader::{
    CmpFlag, SetFlag, CMP_EQ, CMP_GT, CMP_LT, CMP_NE, SET_AND, SET_ASSIGN, SET_OR, SET_XOR,
};
pub use tracked_bitfield::{ActiveBitIter, TrackedBitfield};
