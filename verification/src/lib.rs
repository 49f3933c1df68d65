//! Split-DNS service library: local A/AAAA overrides for registered internal
//! names, with every other query left for an upstream resolver.
//!
//! - `dns`: the one-question parser and the locally answered responses.
//! - `config`: records, their validation and error messages.
//! - `ini_file`, `ini_config`: the INI configuration file, read and written.
//! - `ordering`: the byte order in which host sections are written.
//! - `read_back`: what reading a written configuration gives back.
//! - `control`: the record-management protocol and its decisions.
//! - `cli`: the command line.
//! - `address`, `text`, `service`: addresses, text helpers, run outcome.

pub mod address;
pub mod cli;
pub mod config;
pub mod control;
pub mod dns;
pub mod ini_config;
pub mod ini_file;
pub mod ordering;
pub mod read_back;
pub mod service;
pub mod text;
