use req::arg_parser::is_request_file;
use req::env::{resolve_placeholder, EnvFile, EnvVars};
use req::json::{pretty_or_raw, report_text};
use req::parser::{
    load_env_vars, method_and_url, substitute, tokenize, tokenize_lines, HeaderTable, Token,
    TokenType,
};
use req::requests::{
    get_content_and_headers, is_success, parse_method, parts_for, prepare_request,
    response_result, HttpMethod, PrepareError,
};
use req::text::{chars_of, split_lines, split_words, string_of, trim_chars};
use req::tui::{
    method_to_color, scrollbar_extent, status_color, App, Command, Key, LineKind, MethodColor,
    Panel, RequestTab, StatusColor,
};

fn t(token_type: TokenType, value: &str) -> Token {
    Token {
        token_type,
        value: value.to_string(),
    }
}

fn s(v: &[char]) -> String {
    v.iter().collect()
}

// --- text ---

#[test]
fn trim_removes_unicode_whitespace() {
    let v = chars_of("\u{3000}\t key \u{a0}\n");
    assert_eq!(s(&trim_chars(&v)), "key");
    assert_eq!(s(&trim_chars(&chars_of("   "))), "");
}

#[test]
fn lines_split_at_newlines_and_drop_carriage_returns() {
    let ls = split_lines(&chars_of("a\r\nb\n\nc\r"));
    let got: Vec<String> = ls.iter().map(|l| s(l)).collect();
    assert_eq!(got, vec!["a", "b", "", "c\r"]);
    assert!(split_lines(&chars_of("")).is_empty());
    assert_eq!(split_lines(&chars_of("x\n")).len(), 1);
}

#[test]
fn words_split_at_whitespace_runs() {
    let ws = split_words(&chars_of("  GET \t http://a  "));
    let got: Vec<String> = ws.iter().map(|w| s(w)).collect();
    assert_eq!(got, vec!["GET", "http://a"]);
}

#[test]
fn string_of_keeps_every_character() {
    assert_eq!(string_of(&chars_of("héllo wörld")), "héllo wörld");
}

// --- tokenizing ---

#[test]
fn patch_line_gives_a_method_token() {
    let requests = tokenize("PATCH https://example.com/a\n");
    assert_eq!(requests.len(), 1);
    assert!(matches!(requests[0][0].token_type, TokenType::Method));
    assert_eq!(requests[0][0].value, "PATCH");
    assert!(matches!(requests[0][1].token_type, TokenType::URL));
}

#[test]
fn crlf_lines_tokenize_like_lf_lines() {
    let a = tokenize("POST http://x\r\nAccept: */*\r\n\r\n{}\r\n");
    let b = tokenize("POST http://x\nAccept: */*\n\n{}\n");
    assert_eq!(a.len(), 1);
    assert_eq!(a[0].len(), b[0].len());
    for (x, y) in a[0].iter().zip(b[0].iter()) {
        assert_eq!(x.token_type, y.token_type);
        assert_eq!(x.value, y.value);
    }
}

#[test]
fn unknown_header_line_is_read_as_words() {
    let requests = tokenize("GET http://x\nX-Custom: http://other\n");
    let tokens = &requests[0];
    assert_eq!(tokens.len(), 3);
    assert!(matches!(tokens[2].token_type, TokenType::URL));
    assert_eq!(tokens[2].value, "http://other");
}

#[test]
fn only_whole_method_names_are_methods() {
    let requests = tokenize("GET http://example.com/PUT\n");
    assert_eq!(requests.len(), 1);
    assert_eq!(requests[0].len(), 2);
    assert!(matches!(requests[0][0].token_type, TokenType::Method));
    assert_eq!(requests[0][0].value, "GET");
    assert!(matches!(requests[0][1].token_type, TokenType::URL));
    assert_eq!(requests[0][1].value, "http://example.com/PUT");
    let requests = tokenize("TARGET http://x\n");
    assert_eq!(requests[0].len(), 1);
    assert!(matches!(requests[0][0].token_type, TokenType::URL));
}

#[test]
fn body_lines_are_trimmed_and_joined_by_spaces() {
    let requests = tokenize("POST http://x\n\n  a  \n\n b\n");
    let body = requests[0].last().unwrap();
    assert!(matches!(body.token_type, TokenType::Body));
    assert_eq!(body.value, "a  b");
}

#[test]
fn blank_first_line_makes_the_rest_a_body() {
    let requests = tokenize("\nGET http://x\n");
    assert_eq!(requests.len(), 1);
    assert_eq!(requests[0].len(), 1);
    assert!(matches!(requests[0][0].token_type, TokenType::Body));
    assert_eq!(requests[0][0].value, "GET http://x");
}

#[test]
fn separator_with_comment_and_empty_requests() {
    let requests = tokenize("###\n### first\nGET http://a\n  ### second\n\n###\nPUT http://b");
    assert_eq!(requests.len(), 2);
    assert_eq!(requests[0][1].value, "http://a");
    assert_eq!(requests[1][0].value, "PUT");
}

#[test]
fn tokenize_lines_matches_tokenize() {
    let lines = vec!["GET http://a".to_string(), "Host: h".to_string()];
    let r = tokenize_lines(&lines);
    assert_eq!(r.len(), 1);
    assert_eq!(r[0].len(), 4);
    assert_eq!(r[0][3].value, "h");
}

#[test]
fn every_header_token_is_followed_by_its_value() {
    let requests = tokenize(
        "POST http://a\nHost: x\nAccept: y\nbogus words\n\nbody\n###\nGET http://b\nCache-Control: no\n",
    );
    for r in &requests {
        assert!(!r.is_empty());
        for (i, tok) in r.iter().enumerate() {
            if tok.token_type == TokenType::Header {
                assert_eq!(r[i + 1].token_type, TokenType::HeaderValue);
            }
            if tok.token_type == TokenType::Body {
                assert_eq!(i, r.len() - 1);
            }
        }
    }
}

#[test]
fn method_and_url_take_the_last_ones() {
    let tokens = vec![
        t(TokenType::Method, "GET"),
        t(TokenType::URL, "http://a"),
        t(TokenType::Method, "POST"),
        t(TokenType::URL, "http://b"),
    ];
    let (m, u) = method_and_url(&tokens);
    assert_eq!(m, "POST");
    assert_eq!(u, "http://b");
    let (m, u) = method_and_url(&vec![]);
    assert_eq!(m, "");
    assert_eq!(u, "");
}

#[test]
fn header_table_lookup() {
    let table = HeaderTable::known();
    assert_eq!(table.entries.len(), 12);
    assert_eq!(table.lookup(&chars_of("User-Agent")), Some("user-agent".to_string()));
    assert_eq!(table.lookup(&chars_of("user-agent")), None);
}

// --- variables ---

#[test]
fn insert_then_get_and_override() {
    let mut vars = EnvVars::new();
    assert!(vars.is_empty());
    vars.insert("a".to_string(), "1".to_string());
    vars.insert("a".to_string(), "2".to_string());
    assert_eq!(vars.get("a").unwrap(), "2");
    assert!(vars.get("b").is_none());
    assert!(!vars.is_empty());
}

#[test]
fn extend_prefers_the_added_variables() {
    let mut base = EnvVars::new();
    base.insert("a".to_string(), "1".to_string());
    base.insert("b".to_string(), "2".to_string());
    let mut more = EnvVars::new();
    more.insert("b".to_string(), "3".to_string());
    base.extend(&more);
    assert_eq!(base.get("a").unwrap(), "1");
    assert_eq!(base.get("b").unwrap(), "3");
}

#[test]
fn later_environment_of_the_same_name_wins() {
    let file = EnvFile {
        environments: vec![
            ("dev".to_string(), vec![("h".to_string(), "one".to_string())]),
            ("dev".to_string(), vec![("h".to_string(), "two".to_string())]),
        ],
    };
    assert_eq!(file.select("dev").get("h").unwrap(), "two");
    assert!(file.select("prod").is_empty());
}

#[test]
fn private_file_only_counts_with_the_flag() {
    let private = r#"{ "dev": { "p": "s" } }"#;
    assert!(load_env_vars(None, Some(private), "dev", false).is_empty());
    assert_eq!(load_env_vars(None, Some(private), "dev", true).get("p").unwrap(), "s");
}

#[test]
fn substitute_edge_cases() {
    let mut vars = EnvVars::new();
    vars.insert("host".to_string(), "h".to_string());
    vars.insert("hôte".to_string(), "u".to_string());
    assert_eq!(substitute("{{{host}}}", &vars), "{h}");
    assert_eq!(substitute("{{host", &vars), "{{host");
    assert_eq!(substitute("{{}}", &vars), "{{}}");
    assert_eq!(substitute("{{hôte}}", &vars), "u");
    assert_eq!(substitute("a{{host}}{{host}}b", &vars), "ahhb");
    assert_eq!(substitute("{{ho st}}", &vars), "{{ho st}}");
    assert_eq!(substitute("", &vars), "");
}

#[test]
fn resolve_placeholder_uses_trimmed_name() {
    let mut vars = EnvVars::new();
    vars.insert("x".to_string(), "v".to_string());
    assert_eq!(
        resolve_placeholder(&"{{ x }}".to_string(), &" x ".to_string(), &vars),
        "v"
    );
    assert_eq!(
        resolve_placeholder(&"{{y}}".to_string(), &"y".to_string(), &vars),
        "{{y}}"
    );
}

// --- requests ---

#[test]
fn headers_and_body_from_tokens() {
    let tokens = vec![
        t(TokenType::Method, "POST"),
        t(TokenType::URL, "http://a"),
        t(TokenType::Header, "User-Agent"),
        t(TokenType::HeaderValue, "test-agent"),
        t(TokenType::Header, "X-Unknown"),
        t(TokenType::HeaderValue, "ignored"),
        t(TokenType::Body, "first"),
        t(TokenType::Body, "second"),
    ];
    let parts = get_content_and_headers(&tokens, &HeaderTable::known()).ok().unwrap();
    assert_eq!(
        parts.headers,
        vec![("user-agent".to_string(), "test-agent".to_string())]
    );
    assert_eq!(parts.body, "second");
}

#[test]
fn each_header_setting_is_kept_in_order() {
    let tokens = vec![
        t(TokenType::Header, "Accept"),
        t(TokenType::HeaderValue, "a"),
        t(TokenType::HeaderValue, "no header picked"),
        t(TokenType::Header, "Accept"),
        t(TokenType::HeaderValue, "b"),
    ];
    let parts = get_content_and_headers(&tokens, &HeaderTable::known()).ok().unwrap();
    assert_eq!(
        parts.headers,
        vec![
            ("accept".to_string(), "a".to_string()),
            ("accept".to_string(), "b".to_string())
        ]
    );
    assert_eq!(parts.body, "");
}

#[test]
fn invalid_header_value_is_an_error() {
    let tokens = vec![
        t(TokenType::Header, "Accept"),
        t(TokenType::HeaderValue, "bad\u{7f}value"),
    ];
    let r = get_content_and_headers(&tokens, &HeaderTable::known());
    assert_eq!(r.err(), Some(PrepareError::InvalidHeaderValue));
    assert_eq!(
        PrepareError::InvalidHeaderValue.message(),
        "failed to parse header value"
    );
    let ok = vec![
        t(TokenType::Header, "Accept"),
        t(TokenType::HeaderValue, "tab\there ünïcode"),
    ];
    assert!(get_content_and_headers(&ok, &HeaderTable::known()).is_ok());
}

#[test]
fn delete_with_two_tokens_sends_nothing_more() {
    let tokens = vec![t(TokenType::Method, "DELETE"), t(TokenType::URL, "http://a")];
    let parts = parts_for(HttpMethod::Delete, &tokens, &HeaderTable::known()).ok().unwrap();
    assert!(parts.headers.is_empty());
    assert_eq!(parts.body, "");
}

#[test]
fn get_sends_headers_and_body() {
    let tokens = vec![
        t(TokenType::Method, "GET"),
        t(TokenType::URL, "http://a"),
        t(TokenType::Header, "Content-Type"),
        t(TokenType::HeaderValue, "application/json"),
        t(TokenType::Body, "b"),
    ];
    let out = prepare_request(&tokens).ok().unwrap();
    assert_eq!(out.method, HttpMethod::Get);
    assert_eq!(out.url, "http://a");
    assert_eq!(
        out.parts.headers,
        vec![("content-type".to_string(), "application/json".to_string())]
    );
    assert_eq!(out.parts.body, "b");
}

#[test]
fn prepare_patch_request() {
    let tokens = vec![
        t(TokenType::Method, "PATCH"),
        t(TokenType::URL, "http://a/1"),
        t(TokenType::Body, "{\"n\": 1}"),
    ];
    let out = prepare_request(&tokens).ok().unwrap();
    assert_eq!(out.method, HttpMethod::Patch);
    assert_eq!(out.parts.body, "{\"n\": 1}");
}

#[test]
fn unsupported_method_message_names_the_method() {
    let tokens = vec![t(TokenType::Method, "HEAD")];
    let e = prepare_request(&tokens).err().unwrap();
    assert_eq!(e, PrepareError::UnsupportedMethod("HEAD".to_string()));
    assert_eq!(e.message(), "unsupported method: HEAD");
    assert_eq!(parse_method(&"get".to_string()), None);
    assert_eq!(parse_method(&"DELETE".to_string()), Some(HttpMethod::Delete));
}

#[test]
fn responses_by_status() {
    assert!(is_success(200));
    assert!(is_success(299));
    assert!(!is_success(300));
    assert!(!is_success(199));
    assert_eq!(
        response_result(HttpMethod::Get, 404, "404 Not Found", "nope".to_string()),
        Ok("nope".to_string())
    );
    assert_eq!(
        response_result(HttpMethod::Post, 201, "201 Created", "made".to_string()),
        Ok("made".to_string())
    );
    assert_eq!(
        response_result(
            HttpMethod::Post,
            500,
            "500 Internal Server Error",
            "internal server error".to_string()
        ),
        Err("Status code 500 Internal Server Error: internal server error".to_string())
    );
}

// --- JSON ---

#[test]
fn json_is_formatted_and_other_text_kept() {
    assert_eq!(pretty_or_raw("{\"a\":1}"), "{\n  \"a\": 1\n}\n");
    assert_eq!(pretty_or_raw("not json"), "not json");
    assert_eq!(pretty_or_raw("world"), "world");
}

#[test]
fn report_text_picks_the_error_form() {
    let ok: Result<String, (String, String)> = Ok("[1,2]".to_string());
    assert_eq!(report_text(&ok, false), "[\n  1,\n  2\n]\n");
    let err: Result<String, (String, String)> =
        Err(("short".to_string(), "\"long\"".to_string()));
    assert_eq!(report_text(&err, false), "short");
    assert_eq!(report_text(&err, true), "\"long\"\n");
}

// --- terminal view ---

#[test]
fn new_tab_waits_for_enter() {
    let tab = RequestTab::new(vec![t(TokenType::Method, "GET")]);
    assert_eq!(tab.response_text, "Press Enter to send request");
    assert_eq!(tab.status_info, "");
    assert!(!tab.is_loading);
    assert_eq!(tab.request_scroll, 0);
    assert_eq!(tab.response_scroll, 0);
}

#[test]
fn labels_drop_the_scheme_and_cut_long_urls() {
    let tab = RequestTab::new(vec![
        t(TokenType::Method, "GET"),
        t(TokenType::URL, "https://example.com/api"),
    ]);
    assert!(tab.label_fits());
    assert_eq!(tab.label(), "GET example.com/api");

    let long = RequestTab::new(vec![
        t(TokenType::Method, "POST"),
        t(TokenType::URL, "http://http://abcdefghijklmnopqrstuvwxyz0123456789"),
    ]);
    assert_eq!(long.label(), "POST abcdefghijklmnopqrstuvwxyz0123");

    let split = RequestTab::new(vec![
        t(TokenType::Method, "GET"),
        t(TokenType::URL, "http://aaaaaaaaaaaaaaaaaaaaaaaaaaaaaéb"),
    ]);
    assert!(!split.label_fits());
}

#[test]
fn request_panel_lines() {
    let tab = RequestTab::new(vec![
        t(TokenType::Method, "POST"),
        t(TokenType::URL, "http://a"),
        t(TokenType::Header, "Accept"),
        t(TokenType::HeaderValue, "x"),
        t(TokenType::Header, "Host"),
        t(TokenType::Body, "{\"k\":2}"),
    ]);
    let lines = tab.request_lines();
    let kinds: Vec<LineKind> = lines.iter().map(|l| l.kind).collect();
    assert_eq!(
        kinds,
        vec![
            LineKind::Title,
            LineKind::Blank,
            LineKind::Header,
            LineKind::Header,
            LineKind::Blank,
            LineKind::Text,
            LineKind::Text,
            LineKind::Text,
        ]
    );
    assert_eq!(lines[0].left, "POST");
    assert_eq!(lines[0].right, "http://a");
    assert_eq!(lines[2].right, "x");
    assert_eq!(lines[3].left, "Host");
    assert_eq!(lines[3].right, "");
    assert_eq!(lines[6].left, "  \"k\": 2");
}

#[test]
fn response_lines_are_the_lines_of_the_text() {
    let mut tab = RequestTab::new(vec![]);
    tab.response_text = "a\nb\r\n".to_string();
    assert_eq!(tab.response_lines(), vec!["a".to_string(), "b".to_string()]);
}

#[test]
fn colours() {
    assert_eq!(method_to_color("GET"), MethodColor::Green);
    assert_eq!(method_to_color("POST"), MethodColor::Yellow);
    assert_eq!(method_to_color("PUT"), MethodColor::Blue);
    assert_eq!(method_to_color("PATCH"), MethodColor::Magenta);
    assert_eq!(method_to_color("DELETE"), MethodColor::Red);
    assert_eq!(method_to_color("HEAD"), MethodColor::White);
    assert_eq!(status_color(" 200 OK  |  3ms"), StatusColor::Green);
    assert_eq!(status_color(" 204 No Content  |  3ms"), StatusColor::Green);
    assert_eq!(status_color(" ERROR  |  3ms"), StatusColor::Red);
    assert_eq!(status_color(" 404 Not Found  |  3ms"), StatusColor::Yellow);
}

#[test]
fn scrollbar_only_when_lines_overflow() {
    assert_eq!(scrollbar_extent(10, 12), None);
    assert_eq!(scrollbar_extent(10, 5), Some(7));
    assert_eq!(scrollbar_extent(3, 1), Some(3));
    assert_eq!(scrollbar_extent(0, 0), None);
}

fn two_tab_app() -> App {
    App::new(vec![
        vec![t(TokenType::Method, "GET"), t(TokenType::URL, "http://a")],
        vec![t(TokenType::Method, "POST"), t(TokenType::URL, "http://b")],
    ])
}

#[test]
fn keys_move_focus_tabs_and_scroll() {
    let mut app = two_tab_app();
    assert_eq!(app.active_tab, 0);
    assert_eq!(app.active_panel, Panel::Request);
    assert_eq!(app.handle_key(Key::Tab), Command::Nothing);
    assert_eq!(app.active_panel, Panel::Response);
    app.handle_key(Key::Tab);
    assert_eq!(app.active_panel, Panel::Request);

    app.handle_key(Key::Char('2'));
    assert_eq!(app.active_tab, 1);
    app.handle_key(Key::Char('3'));
    assert_eq!(app.active_tab, 1);
    app.handle_key(Key::Char('0'));
    assert_eq!(app.active_tab, 1);
    app.handle_key(Key::Char('1'));
    assert_eq!(app.active_tab, 0);

    app.handle_key(Key::Up);
    assert_eq!(app.tabs[0].request_scroll, 0);
    app.handle_key(Key::Char('j'));
    app.handle_key(Key::Down);
    assert_eq!(app.tabs[0].request_scroll, 2);
    app.handle_key(Key::Char('k'));
    assert_eq!(app.tabs[0].request_scroll, 1);
    assert_eq!(app.tabs[0].response_scroll, 0);
    assert!(app.shows_tab_hint());

    app.handle_key(Key::Other);
    assert!(!app.should_quit);
    app.handle_key(Key::Char('q'));
    assert!(app.should_quit);
}

#[test]
fn enter_sends_once_until_the_response_comes() {
    let mut app = two_tab_app();
    assert_eq!(app.handle_key(Key::Enter), Command::Send);
    assert!(app.tabs[0].is_loading);
    assert_eq!(app.tabs[0].response_text, "Sending request...");
    assert_eq!(app.handle_key(Key::Enter), Command::Nothing);
    app.finish_request(Ok("{\"id\":1}".to_string()), "12ms");
    assert!(!app.tabs[0].is_loading);
    assert_eq!(app.tabs[0].status_info, " 200 OK  |  12ms");
    assert_eq!(app.tabs[0].response_text, "{\n  \"id\": 1\n}\n");
    assert_eq!(app.active_panel, Panel::Response);
    assert_eq!(app.handle_key(Key::Enter), Command::Send);
}

#[test]
fn errors_are_shown_with_their_status() {
    let mut app = two_tab_app();
    app.handle_key(Key::Enter);
    app.tabs[0].response_scroll = 4;
    app.finish_request(
        Err("Status code 404 Not Found: not found".to_string()),
        "3ms",
    );
    assert_eq!(app.tabs[0].status_info, " 404 Not Found  |  3ms");
    assert_eq!(app.tabs[0].response_text, "not found");
    assert_eq!(app.tabs[0].response_scroll, 0);

    app.handle_key(Key::Enter);
    app.finish_request(Err("error sending request".to_string()), "1s");
    assert_eq!(app.tabs[0].status_info, " ERROR  |  1s");
    assert_eq!(app.tabs[0].response_text, "error sending request");

    app.handle_key(Key::Enter);
    app.finish_request(Err("Status code 500 Internal Server Error".to_string()), "2ms");
    assert_eq!(app.tabs[0].status_info, " 500 Internal Server Error  |  2ms");
    assert_eq!(app.tabs[0].response_text, "Status code 500 Internal Server Error");
}

#[test]
fn one_tab_view_has_no_tab_hint() {
    let app = App::new(vec![vec![t(TokenType::Method, "GET")]]);
    assert!(!app.shows_tab_hint());
    assert_eq!(app.current_tab().tokens.len(), 1);
}

// --- command line ---

#[test]
fn request_file_names() {
    assert!(is_request_file("api.rest"));
    assert!(is_request_file("dir/api.http"));
    assert!(!is_request_file("api.txt"));
}

#[test]
fn invalid_value_matters_only_after_a_known_header() {
    let after_unknown = vec![
        t(TokenType::Header, "X-Unknown"),
        t(TokenType::HeaderValue, "bad\nvalue"),
        t(TokenType::HeaderValue, "also\u{7f}bad"),
    ];
    assert!(get_content_and_headers(&after_unknown, &HeaderTable::known()).is_ok());
    let later_bad = vec![
        t(TokenType::Header, "Accept"),
        t(TokenType::HeaderValue, "ok"),
        t(TokenType::Header, "Host"),
        t(TokenType::HeaderValue, "bad\nvalue"),
        t(TokenType::Body, "b"),
    ];
    assert_eq!(
        get_content_and_headers(&later_bad, &HeaderTable::known()).err(),
        Some(PrepareError::InvalidHeaderValue)
    );
    assert!(get_content_and_headers(&later_bad[..3].to_vec(), &HeaderTable::known()).is_ok());
    let mut post = vec![t(TokenType::Method, "POST"), t(TokenType::URL, "http://a")];
    post.extend(later_bad);
    assert_eq!(prepare_request(&post).err(), Some(PrepareError::InvalidHeaderValue));
}

#[test]
fn request_without_body_has_a_line_per_header() {
    let tab = RequestTab::new(vec![
        t(TokenType::Method, "GET"),
        t(TokenType::URL, "http://a"),
        t(TokenType::Header, "Accept"),
        t(TokenType::HeaderValue, "x"),
        t(TokenType::HeaderValue, "stray"),
        t(TokenType::Header, "Host"),
        t(TokenType::Header, "X-Other"),
        t(TokenType::HeaderValue, "y"),
    ]);
    let lines = tab.request_lines();
    assert_eq!(lines.len(), 2 + 3);
    assert_eq!((lines[2].left.as_str(), lines[2].right.as_str()), ("Accept", "x"));
    assert_eq!((lines[3].left.as_str(), lines[3].right.as_str()), ("Host", ""));
    assert_eq!((lines[4].left.as_str(), lines[4].right.as_str()), ("X-Other", "y"));
}

#[test]
fn digit_then_enter_sends_the_chosen_tab() {
    let mut app = two_tab_app();
    assert_eq!(app.handle_key(Key::Char('2')), Command::Nothing);
    assert_eq!(app.handle_key(Key::Enter), Command::Send);
    assert_eq!(app.active_tab, 1);
    assert_eq!(app.tabs[1].tokens[0].value, "POST");
    assert!(app.tabs[1].is_loading);
    app.tabs[1].response_scroll = 7;
    app.finish_request(Ok("done".to_string()), "3ms");
    assert!(!app.tabs[1].is_loading);
    assert_eq!(app.tabs[1].response_scroll, 0);
    assert_eq!(app.active_panel, Panel::Response);
    assert!(app.tabs.iter().all(|tab| !tab.is_loading));

    let mut app = two_tab_app();
    app.handle_key(Key::Char('9'));
    assert_eq!(app.handle_key(Key::Enter), Command::Send);
    assert_eq!(app.active_tab, 0);
    assert!(app.tabs[0].is_loading);
}
