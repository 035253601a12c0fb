//! The Unix flavour of the listing command: classification of arguments,
//! option settings, entry ordering and output rendering.

pub mod config;
