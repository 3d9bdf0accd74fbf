//! What a request sends, decided from its tokens, and what its response gives.
use vstd::prelude::*;
use crate::parser::{
    known_headers, last_value, method_and_url, table_lookup, token_views, HeaderTable, Token,
    TokenType, TokenView,
};
use crate::text::{chars_eq, chars_of};

verus! {

/// The HTTP methods that requests may use.
#[derive(Clone, Copy, Debug, PartialEq, Eq, Structural)]
pub enum HttpMethod {
    Get,
    Post,
    Put,
    Delete,
    Patch,
}

/// Why a request cannot be sent.
#[derive(Clone, Debug, PartialEq, Eq)]
pub enum PrepareError {
    /// The method is none of `GET`, `POST`, `PUT`, `DELETE`, `PATCH`; holds the method text.
    UnsupportedMethod(String),
    /// A header value holds a character that a header may not carry.
    InvalidHeaderValue,
}

/// The headers and body that a request's tokens give.
pub struct RequestParts {
    /// Header settings in the order made; a later one replaces an earlier one of the same name.
    pub headers: Vec<(String, String)>,
    pub body: String,
}

/// A request ready to be sent.
pub struct Outgoing {
    pub method: HttpMethod,
    pub url: String,
    pub parts: RequestParts,
}

/// A character that `HeaderValue::from_str` accepts: a tab, or any character
/// from the space on but DEL (every byte of a non-ASCII character is >= 0x80).
pub open spec fn header_value_char(c: char) -> bool {
    c == '\t' || (32 <= c as u32 && c as u32 != 127)
}

pub open spec fn valid_header_value(v: Seq<char>) -> bool {
    forall|i: int| 0 <= i < v.len() ==> header_value_char(#[trigger] v[i])
}

/// Scanning tokens for headers and body: the header settings made, the body,
/// and the header whose value comes next; an error on an invalid value.
pub open spec fn scan_parts(ts: Seq<TokenView>, table: Seq<(Seq<char>, Seq<char>)>) -> Result<
    (Seq<(Seq<char>, Seq<char>)>, Seq<char>, Option<Seq<char>>),
    (),
>
    decreases ts.len(),
{
    if ts.len() == 0 {
        Ok((seq![], seq![], None))
    } else {
        match scan_parts(ts.drop_last(), table) {
            Err(e) => Err(e),
            Ok((hs, body, current)) => {
                let t = ts.last();
                match t.token_type {
                    TokenType::Header => Ok((hs, body, table_lookup(table, t.value))),
                    TokenType::HeaderValue => match current {
                        Some(name) => if valid_header_value(t.value) {
                            Ok((hs.push((name, t.value)), body, None))
                        } else {
                            Err(())
                        },
                        None => Ok((hs, body, None)),
                    },
                    TokenType::Body => Ok((hs, t.value, current)),
                    _ => Ok((hs, body, current)),
                }
            },
        }
    }
}

pub proof fn lemma_scan_err_extends(ts: Seq<TokenView>, table: Seq<(Seq<char>, Seq<char>)>, i: int)
    requires
        0 <= i <= ts.len(),
        scan_parts(ts.take(i), table) is Err,
    ensures
        scan_parts(ts, table) is Err,
    decreases ts.len(),
{
    if ts.len() == i {
        assert(ts.take(i) =~= ts);
    } else {
        assert(ts.drop_last().take(i) =~= ts.take(i));
        lemma_scan_err_extends(ts.drop_last(), table, i);
    }
}

/// The header that the next `HeaderValue` token after `ts` sets: the one that
/// the last `Header` token names (by `table`), unless a `HeaderValue` token
/// came after it.
pub open spec fn pending_header(ts: Seq<TokenView>, table: Seq<(Seq<char>, Seq<char>)>) -> Option<
    Seq<char>,
>
    decreases ts.len(),
{
    if ts.len() == 0 {
        None
    } else {
        let t = ts.last();
        match t.token_type {
            TokenType::Header => table_lookup(table, t.value),
            TokenType::HeaderValue => None,
            _ => pending_header(ts.drop_last(), table),
        }
    }
}

/// Token `i` of `ts` is a `HeaderValue` that sets a known header.
pub open spec fn sets_header(ts: Seq<TokenView>, table: Seq<(Seq<char>, Seq<char>)>, i: int) -> bool {
    &&& 0 <= i < ts.len()
    &&& ts[i].token_type == TokenType::HeaderValue
    &&& pending_header(ts.take(i), table) is Some
}

/// Every value that sets a known header is one that a header may carry.
pub open spec fn header_values_valid(ts: Seq<TokenView>, table: Seq<(Seq<char>, Seq<char>)>) -> bool {
    forall|i: int| #[trigger] sets_header(ts, table, i) ==> valid_header_value(ts[i].value)
}

/// Scanning succeeds exactly when every value that sets a known header is
/// valid; a value after an unknown header, or after no header, is never
/// looked at. On success the header awaiting a value is [`pending_header`].
pub proof fn lemma_scan_ok_iff_values_valid(ts: Seq<TokenView>, table: Seq<(Seq<char>, Seq<char>)>)
    ensures
        (scan_parts(ts, table) is Ok) <==> header_values_valid(ts, table),
        scan_parts(ts, table) matches Ok((_, _, current)) ==> current == pending_header(ts, table),
    decreases ts.len(),
{
    if ts.len() > 0 {
        let n = ts.len() - 1;
        let prev = ts.drop_last();
        lemma_scan_ok_iff_values_valid(prev, table);
        assert(ts.take(n) =~= prev);
        assert forall|i: int| 0 <= i < n implies sets_header(ts, table, i) == sets_header(prev, table, i) by {
            assert(ts.take(i) =~= prev.take(i));
        }
        if header_values_valid(ts, table) {
            assert forall|i: int| #[trigger] sets_header(prev, table, i) implies valid_header_value(
                prev[i].value,
            ) by {
                assert(sets_header(ts, table, i));
            }
            if sets_header(ts, table, n) {
                assert(valid_header_value(ts[n].value));
            }
        } else {
            let i = choose|i: int| #[trigger] sets_header(ts, table, i) && !valid_header_value(ts[i].value);
            if i < n {
                assert(sets_header(prev, table, i));
            }
        }
        if header_values_valid(prev, table) && scan_parts(ts, table) is Err {
            assert(sets_header(ts, table, n));
        }
    }
}

/// At the first value that sets a known header and is invalid, scanning fails
/// from that token on, and every token before it scans without error: no
/// setting at or after that value is made.
pub proof fn lemma_first_invalid_value_stops_scan(
    ts: Seq<TokenView>,
    table: Seq<(Seq<char>, Seq<char>)>,
    i: int,
)
    requires
        sets_header(ts, table, i),
        !valid_header_value(ts[i].value),
        forall|k: int| 0 <= k < i && #[trigger] sets_header(ts, table, k) ==> valid_header_value(ts[k].value),
    ensures
        scan_parts(ts.take(i), table) is Ok,
        forall|j: int| i < j <= ts.len() ==> #[trigger] scan_parts(ts.take(j), table) is Err,
        scan_parts(ts, table) is Err,
{
    let before = ts.take(i);
    assert forall|k: int| #[trigger] sets_header(before, table, k) implies valid_header_value(before[k].value) by {
        assert(before.take(k) =~= ts.take(k));
        assert(sets_header(ts, table, k));
    }
    lemma_scan_ok_iff_values_valid(before, table);
    assert forall|j: int| i < j <= ts.len() implies #[trigger] scan_parts(ts.take(j), table) is Err by {
        let upto = ts.take(j);
        assert(upto.take(i) =~= ts.take(i));
        assert(sets_header(upto, table, i));
        lemma_scan_ok_iff_values_valid(upto, table);
    }
    assert(ts.take(ts.len() as int) =~= ts);
}

pub open spec fn parts_view(p: RequestParts) -> (Seq<(Seq<char>, Seq<char>)>, Seq<char>) {
    (p.headers@.map_values(|h: (String, String)| (h.0@, h.1@)), p.body@)
}

fn valid_header_value_exec(v: &String) -> (b: bool)
    ensures
        b == valid_header_value(v@),
{
    let cs = chars_of(v.as_str());
    let mut i: usize = 0;
    while i < cs.len()
        invariant
            i <= cs.len(),
            cs@ == v@,
            forall|k: int| 0 <= k < i ==> header_value_char(#[trigger] cs@[k]),
        decreases cs.len() - i,
    {
        let c = cs[i];
        let u: u32 = c as u32;
        if !(c == '\t' || (32 <= u && u != 127)) {
            return false;
        }
        i += 1;
    }
    true
}

/// The headers and body that `tokens` set: a `Header` token picks the header
/// (by `table`) that the next `HeaderValue` token sets, unknown names setting
/// nothing, and the last `Body` token gives the body.
pub fn get_content_and_headers(tokens: &Vec<Token>, table: &HeaderTable) -> (r: Result<
    RequestParts,
    PrepareError,
>)
    ensures
        match r {
            Ok(p) => scan_parts(token_views(tokens@), table@) matches Ok((hs, body, _))
                && parts_view(p) == (hs, body),
            Err(e) => scan_parts(token_views(tokens@), table@) is Err && e
                == PrepareError::InvalidHeaderValue,
        },
{
    let ghost ts = token_views(tokens@);
    let mut headers: Vec<(String, String)> = Vec::new();
    let mut body = String::new();
    let mut current: Option<String> = None;
    let mut i: usize = 0;
    assert(ts.take(0) =~= Seq::<TokenView>::empty());
    while i < tokens.len()
        invariant
            i <= tokens.len(),
            ts == token_views(tokens@),
            scan_parts(ts.take(i as int), table@) matches Ok((hs, b, cur)) && hs
                == headers@.map_values(|h: (String, String)| (h.0@, h.1@)) && b == body@ && cur
                == (match current {
                Some(c) => Some(c@),
                None => None,
            }),
        decreases tokens.len() - i,
    {
        assert(ts.take(i + 1).drop_last() =~= ts.take(i as int));
        assert(ts.take(i + 1).last() == tokens@[i as int]@);
        let t = &tokens[i];
        match t.token_type {
            TokenType::Header => {
                let name = chars_of(t.value.as_str());
                current = table.lookup(&name);
            },
            TokenType::HeaderValue => {
                match current {
                    Some(name) => {
                        if !valid_header_value_exec(&t.value) {
                            proof {
                                lemma_scan_err_extends(ts, table@, i + 1);
                            }
                            return Err(PrepareError::InvalidHeaderValue);
                        }
                        let ghost before = headers@;
                        headers.push((name, t.value.clone()));
                        assert(headers@.map_values(|h: (String, String)| (h.0@, h.1@))
                            =~= before.map_values(|h: (String, String)| (h.0@, h.1@)).push(
                            (name@, t.value@),
                        ));
                        current = None;
                    },
                    None => {},
                }
            },
            TokenType::Body => {
                body = t.value.clone();
            },
            _ => {},
        }
        i += 1;
    }
    assert(ts.take(tokens.len() as int) =~= ts);
    Ok(RequestParts { headers, body })
}

/// The method that a method text names, if it is one of the supported ones.
pub open spec fn method_of(m: Seq<char>) -> Option<HttpMethod> {
    if m == "GET"@ {
        Some(HttpMethod::Get)
    } else if m == "POST"@ {
        Some(HttpMethod::Post)
    } else if m == "PUT"@ {
        Some(HttpMethod::Put)
    } else if m == "DELETE"@ {
        Some(HttpMethod::Delete)
    } else if m == "PATCH"@ {
        Some(HttpMethod::Patch)
    } else {
        None
    }
}

/// The text that names each method in a request.
pub open spec fn method_text(h: HttpMethod) -> Seq<char> {
    match h {
        HttpMethod::Get => "GET"@,
        HttpMethod::Post => "POST"@,
        HttpMethod::Put => "PUT"@,
        HttpMethod::Delete => "DELETE"@,
        HttpMethod::Patch => "PATCH"@,
    }
}

/// Each method's name gives that method and no other: a text names a method
/// exactly when it is that method's name, so no two method names give the
/// same method and a request is sent with the method its text names.
pub proof fn lemma_method_of_names(m: Seq<char>, h: HttpMethod)
    ensures
        method_of(method_text(h)) == Some(h),
        method_of(m) == Some(h) <==> m == method_text(h),
        method_of(m) is None <==> (forall|g: HttpMethod| m != #[trigger] method_text(g)),
{
    reveal_strlit("GET");
    reveal_strlit("POST");
    reveal_strlit("PUT");
    reveal_strlit("DELETE");
    reveal_strlit("PATCH");
    assert("GET"@[0] != "PUT"@[0]);
    assert("POST"@[1] != "PATCH"@[1]);
    assert("GET"@.len() == 3 && "PUT"@.len() == 3 && "POST"@.len() == 4);
    assert("PATCH"@.len() == 5 && "DELETE"@.len() == 6);
    if method_of(m) is None {
        assert forall|g: HttpMethod| m != #[trigger] method_text(g) by {
            match g {
                HttpMethod::Get => {},
                HttpMethod::Post => {},
                HttpMethod::Put => {},
                HttpMethod::Delete => {},
                HttpMethod::Patch => {},
            }
        }
    } else {
        let g = method_of(m)->0;
        assert(m == method_text(g));
    }
}

pub fn parse_method(m: &String) -> (r: Option<HttpMethod>)
    ensures
        r == method_of(m@),
{
    let cs = chars_of(m.as_str());
    if chars_eq(&cs, &chars_of("GET")) {
        Some(HttpMethod::Get)
    } else if chars_eq(&cs, &chars_of("POST")) {
        Some(HttpMethod::Post)
    } else if chars_eq(&cs, &chars_of("PUT")) {
        Some(HttpMethod::Put)
    } else if chars_eq(&cs, &chars_of("DELETE")) {
        Some(HttpMethod::Delete)
    } else if chars_eq(&cs, &chars_of("PATCH")) {
        Some(HttpMethod::Patch)
    } else {
        None
    }
}

/// Whether the headers and body are read from the tokens for this method:
/// for `DELETE` only when there are more than two tokens, always for the others.
pub open spec fn reads_parts(method: HttpMethod, n_tokens: nat) -> bool {
    match method {
        HttpMethod::Delete => n_tokens > 2,
        _ => true,
    }
}

/// The headers and body that a request with this method sends.
pub fn parts_for(method: HttpMethod, tokens: &Vec<Token>, table: &HeaderTable) -> (r: Result<
    RequestParts,
    PrepareError,
>)
    ensures
        reads_parts(method, tokens@.len()) ==> match r {
            Ok(p) => scan_parts(token_views(tokens@), table@) matches Ok((hs, body, _))
                && parts_view(p) == (hs, body),
            Err(e) => scan_parts(token_views(tokens@), table@) is Err && e
                == PrepareError::InvalidHeaderValue,
        },
        !reads_parts(method, tokens@.len()) ==> (r matches Ok(p) && parts_view(p) == (
            Seq::<(Seq<char>, Seq<char>)>::empty(),
            Seq::<char>::empty(),
        )),
{
    let reads = match method {
        HttpMethod::Delete => tokens.len() > 2,
        _ => true,
    };
    if reads {
        get_content_and_headers(tokens, table)
    } else {
        let p = RequestParts { headers: Vec::new(), body: String::new() };
        assert(parts_view(p).0 =~= Seq::<(Seq<char>, Seq<char>)>::empty());
        Ok(p)
    }
}

/// Decides what a request sends: its method (the text of its last `Method`
/// token, which must name a supported method), its URL (its last `URL` token)
/// and, by [`parts_for`], its headers and body.
pub fn prepare_request(tokens: &Vec<Token>) -> (r: Result<Outgoing, PrepareError>)
    ensures
        ({
            let ts = token_views(tokens@);
            let m = last_value(ts, TokenType::Method);
            match method_of(m) {
                None => r matches Err(PrepareError::UnsupportedMethod(t)) && t@ == m,
                Some(method) => {
                    if reads_parts(method, tokens@.len()) {
                        match scan_parts(ts, known_headers()) {
                            Err(_) => r == Err::<Outgoing, PrepareError>(
                                PrepareError::InvalidHeaderValue,
                            ),
                            Ok((hs, body, _)) => r matches Ok(o) && o.method == method && o.url@
                                == last_value(ts, TokenType::URL) && parts_view(o.parts) == (
                                hs,
                                body,
                            ),
                        }
                    } else {
                        r matches Ok(o) && o.method == method && o.url@ == last_value(
                            ts,
                            TokenType::URL,
                        ) && parts_view(o.parts) == (
                            Seq::<(Seq<char>, Seq<char>)>::empty(),
                            Seq::<char>::empty(),
                        )
                    }
                },
            }
        }),
{
    let (method_text, url) = method_and_url(tokens);
    match parse_method(&method_text) {
        None => Err(PrepareError::UnsupportedMethod(method_text)),
        Some(method) => {
            let table = HeaderTable::known();
            match parts_for(method, tokens, &table) {
                Ok(parts) => Ok(Outgoing { method, url, parts }),
                Err(e) => Err(e),
            }
        },
    }
}

/// Whether a status code is a success (`StatusCode::is_success`: 200 to 299).
pub open spec fn success(status: u16) -> bool {
    200 <= status < 300
}

pub fn is_success(status: u16) -> (b: bool)
    ensures
        b == success(status),
{
    200 <= status && status < 300
}

/// The message of a response whose status is not a success.
pub open spec fn status_message(status_text: Seq<char>, body: Seq<char>) -> Seq<char> {
    "Status code "@ + status_text + ": "@ + body
}

/// What a request gives once its response has come: the response text, except
/// that a non-`GET` request whose status is not a success gives an error
/// carrying the status (as `status_text` shows it) and the text.
pub fn response_result(method: HttpMethod, status: u16, status_text: &str, text: String) -> (r:
    Result<String, String>)
    ensures
        (method == HttpMethod::Get || success(status)) ==> r == Ok::<String, String>(text),
        !(method == HttpMethod::Get || success(status)) ==> (r matches Err(m) && m@
            == status_message(status_text@, text@)),
{
    if method == HttpMethod::Get || is_success(status) {
        Ok(text)
    } else {
        let mut m = String::from_str("Status code ");
        m.append(status_text);
        m.append(": ");
        m.append(text.as_str());
        Err(m)
    }
}

impl PrepareError {
    /// The message the error is shown with.
    pub fn message(&self) -> (m: String)
        ensures
            match self {
                PrepareError::UnsupportedMethod(t) => m@ == "unsupported method: "@ + t@,
                PrepareError::InvalidHeaderValue => m@ == "failed to parse header value"@,
            },
    {
        match self {
            PrepareError::UnsupportedMethod(t) => {
                let mut m = String::from_str("unsupported method: ");
                m.append(t.as_str());
                m
            },
            PrepareError::InvalidHeaderValue => String::from_str("failed to parse header value"),
        }
    }
}


/// A `Header` token whose name the table does not know sets nothing: the
/// `HeaderValue` token after it is ignored.
pub proof fn lemma_unknown_header_ignored(
    ts: Seq<TokenView>,
    table: Seq<(Seq<char>, Seq<char>)>,
    name: Seq<char>,
    value: Seq<char>,
)
    requires
        table_lookup(table, name) is None,
        scan_parts(ts, table) is Ok,
    ensures
        ({
            let (hs, body, _) = scan_parts(ts, table)->Ok_0;
            scan_parts(
                ts + seq![
                    TokenView { token_type: TokenType::Header, value: name },
                    TokenView { token_type: TokenType::HeaderValue, value: value },
                ],
                table,
            ) == Ok::<_, ()>((hs, body, None::<Seq<char>>))
        }),
{
    let h = TokenView { token_type: TokenType::Header, value: name };
    let v = TokenView { token_type: TokenType::HeaderValue, value: value };
    let t1 = ts + seq![h];
    let t2 = ts + seq![h, v];
    assert(t1.drop_last() =~= ts);
    assert(t2.drop_last() =~= t1);
    assert(t1.last() == h);
    assert(t2.last() == v);
    let (hs, body, cur) = scan_parts(ts, table)->Ok_0;
    assert(scan_parts(t1, table) == Ok::<_, ()>((hs, body, None::<Seq<char>>)));
    assert(scan_parts(t2, table) == Ok::<_, ()>((hs, body, None::<Seq<char>>)));
}

/// A later setting of a header replaces an earlier one: the headers sent are
/// the map that the settings make in order.
pub proof fn lemma_later_header_wins(
    hs: Seq<(Seq<char>, Seq<char>)>,
    name: Seq<char>,
    value: Seq<char>,
)
    ensures
        crate::env::pairs_map(hs.push((name, value)))[name] == value,
{
    assert(hs.push((name, value)).drop_last() =~= hs);
}

} // verus!
