//! A command-line HTTP client driven by `.rest` files: the verified core.
//!
//! Requests are read from the text of a `.rest` file ([`parser`]), their
//! `{{name}}` placeholders filled from environment files ([`env`]), turned
//! into what is sent ([`requests`]), and shown in an interactive view ([`tui`]).
pub mod text;
pub mod json;
pub mod arg_parser;
pub mod parser;
pub mod env;
pub mod requests;
pub mod tui;
