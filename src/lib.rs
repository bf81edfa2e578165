//! Forwarding of monitoring check-plugin invocations to a PowerShell REST
//! daemon: lexing, parsing and binding of PowerShell-style plugin arguments,
//! and the formatting of the daemon's verdict.

pub mod binder;
pub mod cli;
pub mod client;
pub mod icinga;
pub mod lexer;
pub mod number;
pub mod parser;
pub mod render;
pub mod restapiv1;
pub mod text;
