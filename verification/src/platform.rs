//! The platform underneath.
pub mod backing;
pub mod common_providers;
pub mod page_mgmt;
