//! The options of the command line, and which files it accepts.
use vstd::prelude::*;
use crate::text::{chars_of, contains, contains_chars};

verus! {

/// The options the program runs with.
pub struct Args {
    /// The `.rest` or `.http` file to run.
    pub filename: String,
    /// Show errors in full.
    pub verbose: bool,
    /// Run the interactive terminal view.
    pub tui: bool,
    /// The environment of `http-client.env.json` to use.
    pub env: String,
    /// Also load `http-client.private.env.json`.
    pub private: bool,
}

/// Whether a file name is one of a request file: it holds `.rest` or `.http`.
pub fn is_request_file(filename: &str) -> (b: bool)
    ensures
        b == (contains(filename@, ".rest"@) || contains(filename@, ".http"@)),
{
    let f = chars_of(filename);
    contains_chars(&f, &chars_of(".rest")) || contains_chars(&f, &chars_of(".http"))
}

} // verus!
