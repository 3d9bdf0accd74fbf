//! Pretty-printing JSON text with the `formatjson` crate.
use vstd::prelude::*;

verus! {

/// What `formatjson::format_json` gives for a text: the formatted text, or
/// nothing when the text is not JSON that it accepts.
pub uninterp spec fn json_pretty(text: Seq<char>) -> Option<Seq<char>>;

/// Formats JSON text with `formatjson::format_json`. Claimed: the result is
/// [`json_pretty`] of the text, a function of the text alone; what the
/// formatted text looks like is left unsaid.
#[verifier::external_body]
fn format_json(text: &str) -> (r: Option<String>)
    ensures
        match r {
            Some(s) => json_pretty(text@) == Some(s@),
            None => json_pretty(text@) is None,
        },
{
    match formatjson::format_json(text) {
        Ok(s) => Some(s),
        Err(_) => None,
    }
}

/// The text as it is shown: formatted when it is JSON, as it is otherwise.
pub open spec fn shown_text(text: Seq<char>) -> Seq<char> {
    match json_pretty(text) {
        Some(s) => s,
        None => text,
    }
}

/// `text` formatted as JSON where `formatjson` accepts it, unchanged otherwise.
pub fn pretty_or_raw(text: &str) -> (r: String)
    ensures
        r@ == shown_text(text@),
{
    match format_json(text) {
        Some(s) => s,
        None => text.to_owned(),
    }
}


/// What is printed for the outcome of one request: the response text, or the
/// error in its short form (`display`) or, when `verbose`, its full form
/// (`debug`); formatted as JSON where it is JSON.
pub fn report_text(outcome: &Result<String, (String, String)>, verbose: bool) -> (r: String)
    ensures
        r@ == shown_text(
            match outcome {
                Ok(c) => c@,
                Err((display, debug)) => if verbose {
                    debug@
                } else {
                    display@
                },
            },
        ),
{
    match outcome {
        Ok(c) => pretty_or_raw(c.as_str()),
        Err((display, debug)) => if verbose {
            pretty_or_raw(debug.as_str())
        } else {
            pretty_or_raw(display.as_str())
        },
    }
}

} // verus!
