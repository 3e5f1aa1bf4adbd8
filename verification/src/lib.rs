//! The verified core of the adapter between an editor that speaks the Language
//! Server Protocol over standard input and output, and the `tool4d` language
//! server, which speaks it over TCP.
#![allow(unused_imports)]

pub mod bytes;
pub mod json;
pub mod text;
pub mod error;
pub mod header;
pub mod frame;
pub mod round_trip;
pub mod reading;
pub mod diagnostics;
pub mod relay;
pub mod extension;
pub mod install;
pub mod search;
pub mod project;
pub mod launch;
pub mod process;
