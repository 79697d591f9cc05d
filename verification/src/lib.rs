//! The bookkeeping core of a guest sandbox: the mapping tables of guest address spaces, the
//! custody of guest address ranges, the procfs tree, and the small state machines around them.
pub mod fs;
pub mod id_map;
pub mod ids;
pub mod mm;
pub mod net;
pub mod platform;
pub mod range_map;
pub mod range_table;
pub mod shim;
