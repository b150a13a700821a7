//! Diagnostic utilities for embedded targets: I2C bus scanning, command
//! dependency exploration, hexadecimal formatting and error reporting.

pub mod cmd_debug;
pub mod compat;
pub mod error;
pub mod explore;
pub mod explorer;
pub mod logger;
pub mod scanner;
