//! Parts that platforms share.
pub mod confined;
pub mod runs;
pub mod userspace_pointers;
