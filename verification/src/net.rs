//! The guest's network interface.
pub mod phy;
