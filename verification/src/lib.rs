//! Path arithmetic over segment sequences: absolutization with
//! home-directory expansion, the deepest common ancestor of two paths, and
//! the relative path leading from one location to another.

pub mod absolutize;
pub mod calc;
pub mod codec;
pub mod normalize;
pub mod segment;

pub use calc::CalcError;
pub use calc::CalcPath;
pub use segment::Segment;
