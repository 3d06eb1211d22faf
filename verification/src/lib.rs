//! Readings for a small system-status dashboard: parsers for the kernel's
//! text interfaces and for service-manager output, JSON assembly, and the
//! bookkeeping of the sample history.

pub mod text;
pub mod util;
pub mod services;
pub mod metrics;
pub mod history;
pub mod server;
