# req

A command-line HTTP client driven by `.rest` files, with a verified core.

- `src/` is the library, verified with Verus:
  - `text.rs`: whitespace, trimming, words, lines, byte lengths of text;
  - `parser.rs`: tokens of a `.rest` file, requests separated by `###` lines;
  - `env.rs`: environment files (parsed through `serde_json`), private
    variables over base ones, and `{{name}}` substitution (matching through
    the `regex` crate);
  - `requests.rs`: what a request sends (method, URL, headers, body) and what
    its response gives;
  - `json.rs`: JSON formatting through the `formatjson` crate;
  - `tui.rs`: the state of the interactive view and how keys and responses
    change it;
  - `arg_parser.rs`: the command-line options.
- `app/` is the program around it: command line (`clap`), reading files, HTTP
  (`reqwest`, `tokio`), and drawing
  the terminal view (`ratatui`, `crossterm`).
- `tests/` exercises the library.
