//! Writers of solver input formats.

pub mod lp_format;
