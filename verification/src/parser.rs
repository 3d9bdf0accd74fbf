//! Turning the text of a `.rest` file into requests made of tokens.
use vstd::prelude::*;
pub use crate::env::{load_env_vars, substitute};
use crate::text::{
    char_pred, chars_eq, chars_of, find_from, lemma_find_from,
    lemma_find_from_bounds, lines, slice_chars, split_lines, split_words, starts_with, starts_with_chars, string_of,
    trim, trim_chars, views, words, is_ws, lemma_trim_padded,
};

verus! {

/// What a token of a request stands for.
#[derive(Clone, Copy, Debug, PartialEq, Eq, Structural)]
pub enum TokenType {
    Method,
    URL,
    Header,
    HeaderValue,
    Body,
}

/// One token of a request: its kind and its text.
#[derive(Clone, Debug)]
pub struct Token {
    pub token_type: TokenType,
    pub value: String,
}

/// A token as the specifications see it.
pub struct TokenView {
    pub token_type: TokenType,
    pub value: Seq<char>,
}

impl View for Token {
    type V = TokenView;

    open spec fn view(&self) -> TokenView {
        TokenView { token_type: self.token_type, value: self.value@ }
    }
}

pub open spec fn tok(t: TokenType, v: Seq<char>) -> TokenView {
    TokenView { token_type: t, value: v }
}

pub open spec fn token_views(v: Seq<Token>) -> Seq<TokenView> {
    v.map_values(|t: Token| t@)
}

pub open spec fn request_views(v: Seq<Vec<Token>>) -> Seq<Seq<TokenView>> {
    v.map_values(|r: Vec<Token>| token_views(r@))
}

/// The header names that a request line may carry, paired with the
/// lower-case name under which they are sent.
pub open spec fn known_headers() -> Seq<(Seq<char>, Seq<char>)> {
    seq![
        ("Host"@, "host"@),
        ("User-Agent"@, "user-agent"@),
        ("Accept"@, "accept"@),
        ("Accept-Language"@, "accept-language"@),
        ("Accept-Encoding"@, "accept-encoding"@),
        ("Referer"@, "referer"@),
        ("Connection"@, "connection"@),
        ("Upgrade-Insecure-Requests"@, "upgrade-insecure-requests"@),
        ("If-Modified-Since"@, "if-modified-since"@),
        ("If-None-Match"@, "if-none-match"@),
        ("Cache-Control"@, "cache-control"@),
        ("Content-Type"@, "content-type"@),
    ]
}

pub open spec fn is_known_header(name: Seq<char>) -> bool {
    exists|i: int| 0 <= i < known_headers().len() && #[trigger] known_headers()[i].0 == name
}

/// A line that starts (after whitespace) with `###` separates two requests.
pub open spec fn is_separator(line: Seq<char>) -> bool {
    starts_with(trim(line), "###"@)
}

/// A line of whitespace only; the first one ends the header part of a request.
pub open spec fn is_blank(line: Seq<char>) -> bool {
    trim(line).len() == 0
}

pub open spec fn separator_pred() -> spec_fn(Seq<char>) -> bool {
    |l: Seq<char>| is_separator(l)
}

pub open spec fn blank_pred() -> spec_fn(Seq<char>) -> bool {
    |l: Seq<char>| is_blank(l)
}

/// The two tokens of a `Name: value` line whose name is a known header.
pub open spec fn header_tokens(line: Seq<char>) -> Option<Seq<TokenView>> {
    let i = find_from(line, char_pred(':'), 0);
    if i < line.len() && is_known_header(trim(line.take(i))) {
        Some(
            seq![
                tok(TokenType::Header, trim(line.take(i))),
                tok(TokenType::HeaderValue, trim(line.skip(i + 1))),
            ],
        )
    } else {
        None
    }
}

/// A word is a method exactly when it is one of the five method names.
pub open spec fn is_method_word(w: Seq<char>) -> bool {
    ||| w == "GET"@
    ||| w == "POST"@
    ||| w == "PUT"@
    ||| w == "DELETE"@
    ||| w == "PATCH"@
}

pub open spec fn is_url_word(w: Seq<char>) -> bool {
    starts_with(w, "http://"@) || starts_with(w, "https://"@)
}

pub open spec fn word_token(w: Seq<char>) -> Seq<TokenView> {
    if is_method_word(w) {
        seq![tok(TokenType::Method, w)]
    } else if is_url_word(w) {
        seq![tok(TokenType::URL, w)]
    } else {
        seq![]
    }
}

pub open spec fn word_tokens(ws: Seq<Seq<char>>) -> Seq<TokenView>
    decreases ws.len(),
{
    if ws.len() == 0 {
        seq![]
    } else {
        word_tokens(ws.drop_last()) + word_token(ws.last())
    }
}

/// The tokens of one line of the header part of a request.
pub open spec fn line_tokens(line: Seq<char>) -> Seq<TokenView> {
    match header_tokens(line) {
        Some(t) => t,
        None => word_tokens(words(line)),
    }
}



/// A line that names a known header keeps the whole of its value: for a line
/// made of a known header name and then `:` and a value, each with any
/// whitespace around it, the tokens are the header name and the value with
/// that surrounding whitespace removed, whatever spaces, `:` or other
/// characters the value holds inside.
pub proof fn lemma_header_line_keeps_whole_value(
    lead: Seq<char>,
    name: Seq<char>,
    trail: Seq<char>,
    pre: Seq<char>,
    value: Seq<char>,
    post: Seq<char>,
)
    requires
        is_known_header(name),
        forall|k: int| 0 <= k < name.len() ==> #[trigger] name[k] != ':',
        name.len() > 0 ==> !is_ws(name[0]) && !is_ws(name.last()),
        forall|k: int| 0 <= k < lead.len() ==> is_ws(#[trigger] lead[k]),
        forall|k: int| 0 <= k < trail.len() ==> is_ws(#[trigger] trail[k]),
        forall|k: int| 0 <= k < pre.len() ==> is_ws(#[trigger] pre[k]),
        forall|k: int| 0 <= k < post.len() ==> is_ws(#[trigger] post[k]),
        value.len() > 0 ==> !is_ws(value[0]) && !is_ws(value.last()),
    ensures
        line_tokens(lead + name + trail + ":"@ + pre + value + post) == seq![
            tok(TokenType::Header, name),
            tok(TokenType::HeaderValue, value),
        ],
{
    reveal_strlit(":");
    let head = lead + name + trail;
    let tail = pre + value + post;
    let line = head + ":"@ + tail;
    assert(line =~= lead + name + trail + ":"@ + pre + value + post);
    let i = head.len() as int;
    assert forall|k: int| 0 <= k < i implies !char_pred(':')(#[trigger] line[k]) by {
        assert(line[k] == head[k]);
        if k < lead.len() {
            assert(is_ws(lead[k]));
        } else if k < lead.len() + name.len() {
            assert(head[k] == name[k - lead.len()]);
        } else {
            assert(is_ws(trail[k - lead.len() - name.len()]));
        }
    }
    assert(line[i] == ':');
    lemma_find_from(line, char_pred(':'), 0, i);
    assert(line.take(i) =~= head);
    assert(line.skip(i + 1) =~= tail);
    lemma_trim_padded(lead, name, trail);
    lemma_trim_padded(pre, value, post);
}

/// The tokens of the header part of a request: the lines before the first blank one.
pub open spec fn head_tokens(lines: Seq<Seq<char>>) -> Seq<TokenView>
    decreases lines.len(),
{
    if lines.len() == 0 {
        seq![]
    } else {
        head_tokens(lines.drop_last()) + line_tokens(lines.last())
    }
}

/// The body of a request: its lines, each trimmed, joined by single spaces.
pub open spec fn body_text(lines: Seq<Seq<char>>) -> Seq<char>
    decreases lines.len(),
{
    if lines.len() == 0 {
        seq![]
    } else {
        let b = body_text(lines.drop_last());
        if b.len() == 0 {
            trim(lines.last())
        } else {
            b.push(' ') + trim(lines.last())
        }
    }
}

pub open spec fn body_tokens(b: Seq<char>) -> Seq<TokenView> {
    if b.len() > 0 {
        seq![tok(TokenType::Body, b)]
    } else {
        seq![]
    }
}

/// The tokens of one request, given its lines.
pub open spec fn request_tokens(block: Seq<Seq<char>>) -> Seq<TokenView> {
    let k = find_from(block, blank_pred(), 0);
    if k < block.len() {
        head_tokens(block.take(k)) + body_tokens(body_text(block.skip(k + 1)))
    } else {
        head_tokens(block)
    }
}

pub open spec fn keep(r: Seq<TokenView>) -> Seq<Seq<TokenView>> {
    if r.len() > 0 {
        seq![r]
    } else {
        seq![]
    }
}

/// The requests of a file given as lines: the stretches between separator
/// lines, each tokenized, those without tokens left out.
pub open spec fn requests_of(lines: Seq<Seq<char>>) -> Seq<Seq<TokenView>>
    decreases lines.len(),
{
    if lines.len() == 0 {
        seq![]
    } else {
        let j = find_from(lines, separator_pred(), 0);
        if j >= lines.len() {
            keep(request_tokens(lines))
        } else {
            proof {
                lemma_find_from_bounds(lines, separator_pred(), 0);
            }
            keep(request_tokens(lines.take(j))) + requests_of(lines.skip(j + 1))
        }
    }
}


/// The shape every request has: a `Header` token is always followed by its
/// `HeaderValue` and names a known header, a `HeaderValue` always follows a
/// `Header`, and a `Body` token can only be the last one.
pub open spec fn well_formed_request(ts: Seq<TokenView>) -> bool {
    forall|i: int| 0 <= i < ts.len() ==> #[trigger] token_fits(ts, i)
}

/// The token at `i` stands where [`well_formed_request`] allows it.
pub open spec fn token_fits(ts: Seq<TokenView>, i: int) -> bool {
    &&& ts[i].token_type == TokenType::Header ==> i + 1 < ts.len() && ts[i + 1].token_type
        == TokenType::HeaderValue && is_known_header(ts[i].value)
    &&& ts[i].token_type == TokenType::HeaderValue ==> i > 0 && ts[i - 1].token_type
        == TokenType::Header
    &&& ts[i].token_type == TokenType::Body ==> i == ts.len() - 1
}

/// The part of [`well_formed_request`] that holds of the header part alone.
pub open spec fn well_formed_head(ts: Seq<TokenView>) -> bool {
    &&& well_formed_request(ts)
    &&& forall|i: int| 0 <= i < ts.len() ==> #[trigger] ts[i].token_type != TokenType::Body
}

pub proof fn lemma_head_concat(a: Seq<TokenView>, b: Seq<TokenView>)
    requires
        well_formed_head(a),
        well_formed_head(b),
    ensures
        well_formed_head(a + b),
{
    let c = a + b;
    assert forall|i: int| 0 <= i < c.len() implies #[trigger] token_fits(c, i) by {
        if i < a.len() {
            assert(token_fits(a, i));
            assert(c[i] == a[i]);
            if i + 1 < a.len() {
                assert(c[i + 1] == a[i + 1]);
            }
            if i > 0 {
                assert(c[i - 1] == a[i - 1]);
            }
        } else {
            let j = i - a.len();
            assert(token_fits(b, j));
            assert(c[i] == b[j]);
            if j + 1 < b.len() {
                assert(c[i + 1] == b[j + 1]);
            }
            if j > 0 {
                assert(c[i - 1] == b[j - 1]);
            }
        }
    }
    assert forall|i: int| 0 <= i < c.len() implies #[trigger] c[i].token_type != TokenType::Body by {
        if i < a.len() {
            assert(a[i].token_type != TokenType::Body);
        } else {
            assert(b[i - a.len()].token_type != TokenType::Body);
        }
    }
}

pub proof fn lemma_word_tokens_head(ws: Seq<Seq<char>>)
    ensures
        well_formed_head(word_tokens(ws)),
        forall|i: int|
            0 <= i < word_tokens(ws).len() ==> (#[trigger] word_tokens(ws)[i].token_type
                == TokenType::Method || word_tokens(ws)[i].token_type == TokenType::URL),
    decreases ws.len(),
{
    if ws.len() > 0 {
        lemma_word_tokens_head(ws.drop_last());
        let a = word_tokens(ws.drop_last());
        let b = word_token(ws.last());
        assert(word_tokens(ws) == a + b);
        assert forall|i: int| 0 <= i < (a + b).len() implies (#[trigger] (a + b)[i].token_type
            == TokenType::Method || (a + b)[i].token_type == TokenType::URL) by {
            if i < a.len() {
                assert((a + b)[i] == a[i]);
            }
        }
        assert forall|i: int| 0 <= i < (a + b).len() implies #[trigger] token_fits(a + b, i) by {
            if i < a.len() {
                assert((a + b)[i] == a[i]);
            }
        }
    }
}

pub proof fn lemma_line_tokens_head(line: Seq<char>)
    ensures
        well_formed_head(line_tokens(line)),
{
    match header_tokens(line) {
        Some(t) => {
            let i = find_from(line, char_pred(':'), 0);
            assert(is_known_header(trim(line.take(i))));
            assert(t[0].value == trim(line.take(i)));
            assert(token_fits(t, 0));
            assert(token_fits(t, 1));
        },
        None => {
            lemma_word_tokens_head(words(line));
        },
    }
}

pub proof fn lemma_head_tokens_head(lines: Seq<Seq<char>>)
    ensures
        well_formed_head(head_tokens(lines)),
    decreases lines.len(),
{
    if lines.len() > 0 {
        lemma_head_tokens_head(lines.drop_last());
        lemma_line_tokens_head(lines.last());
        lemma_head_concat(head_tokens(lines.drop_last()), line_tokens(lines.last()));
    }
}

pub proof fn lemma_request_tokens_well_formed(block: Seq<Seq<char>>)
    ensures
        well_formed_request(request_tokens(block)),
{
    let k = find_from(block, blank_pred(), 0);
    if k < block.len() {
        lemma_head_tokens_head(block.take(k));
        let h = head_tokens(block.take(k));
        let b = body_tokens(body_text(block.skip(k + 1)));
        let c = h + b;
        assert forall|i: int| 0 <= i < c.len() implies #[trigger] token_fits(c, i) by {
            if i < h.len() {
                assert(token_fits(h, i));
                assert(c[i] == h[i]);
                if i + 1 < h.len() {
                    assert(c[i + 1] == h[i + 1]);
                }
                if i > 0 {
                    assert(c[i - 1] == h[i - 1]);
                }
                assert(h[i].token_type != TokenType::Body);
                if h[i].token_type == TokenType::Header {
                    assert(i + 1 < h.len());
                }
            }
        }
    } else {
        lemma_head_tokens_head(block);
    }
}

/// Every request that tokenizing gives has at least one token and the shape
/// of [`well_formed_request`].
pub proof fn lemma_requests_well_formed(lines: Seq<Seq<char>>)
    ensures
        forall|i: int|
            0 <= i < requests_of(lines).len() ==> (#[trigger] requests_of(lines)[i]).len() > 0
                && well_formed_request(requests_of(lines)[i]),
    decreases lines.len(),
{
    if lines.len() > 0 {
        let j = find_from(lines, separator_pred(), 0);
        lemma_find_from_bounds(lines, separator_pred(), 0);
        if j >= lines.len() {
            lemma_request_tokens_well_formed(lines);
        } else {
            lemma_request_tokens_well_formed(lines.take(j));
            lemma_requests_well_formed(lines.skip(j + 1));
            let a = keep(request_tokens(lines.take(j)));
            let b = requests_of(lines.skip(j + 1));
            assert forall|i: int| 0 <= i < (a + b).len() implies (#[trigger] (a + b)[i]).len() > 0
                && well_formed_request((a + b)[i]) by {
                if i >= a.len() {
                    assert((a + b)[i] == b[i - a.len()]);
                }
            }
        }
    }
}

/// Requests on either side of a separator line are tokenized independently
/// of each other.
pub proof fn lemma_requests_split(a: Seq<Seq<char>>, sep: Seq<char>, b: Seq<Seq<char>>)
    requires
        is_separator(sep),
        forall|i: int| 0 <= i < a.len() ==> !is_separator(#[trigger] a[i]),
    ensures
        requests_of(a + seq![sep] + b) == requests_of(a) + requests_of(b),
{
    let l = a + seq![sep] + b;
    assert forall|m: int| 0 <= m < a.len() implies !(separator_pred())(#[trigger] l[m]) by {
        assert(l[m] == a[m]);
    }
    assert(l[a.len() as int] == sep);
    lemma_find_from(l, separator_pred(), 0, a.len() as int);
    assert(l.take(a.len() as int) =~= a);
    assert(l.skip(a.len() as int + 1) =~= b);
    if a.len() > 0 {
        lemma_find_from(a, separator_pred(), 0, a.len() as int);
    } else {
        lemma_find_from(a, blank_pred(), 0, 0);
        assert(request_tokens(a) =~= seq![]);
        assert(keep(request_tokens(a)) =~= seq![]);
        assert(requests_of(a) =~= seq![]);
    }
}

/// A file without separator lines gives at most one request.
pub proof fn lemma_single_request(lines: Seq<Seq<char>>)
    requires
        forall|i: int| 0 <= i < lines.len() ==> !is_separator(#[trigger] lines[i]),
    ensures
        requests_of(lines).len() <= 1,
{
    if lines.len() > 0 {
        lemma_find_from(lines, separator_pred(), 0, lines.len() as int);
    }
}

/// A table from the header names written in a request to the names sent.
pub struct HeaderTable {
    pub entries: Vec<(String, String)>,
}

pub open spec fn pair_views(v: Seq<(String, String)>) -> Seq<(Seq<char>, Seq<char>)> {
    v.map_values(|p: (String, String)| (p.0@, p.1@))
}

impl View for HeaderTable {
    type V = Seq<(Seq<char>, Seq<char>)>;

    open spec fn view(&self) -> Seq<(Seq<char>, Seq<char>)> {
        pair_views(self.entries@)
    }
}

pub open spec fn name_pred(name: Seq<char>) -> spec_fn((Seq<char>, Seq<char>)) -> bool {
    |e: (Seq<char>, Seq<char>)| e.0 == name
}

/// The sent name of the first entry of `t` written as `name`.
pub open spec fn table_lookup(t: Seq<(Seq<char>, Seq<char>)>, name: Seq<char>) -> Option<Seq<char>> {
    let i = find_from(t, name_pred(name), 0);
    if i < t.len() {
        Some(t[i].1)
    } else {
        None
    }
}

fn str_pair(a: &str, b: &str) -> (p: (String, String))
    ensures
        p.0@ == a@,
        p.1@ == b@,
{
    (a.to_owned(), b.to_owned())
}

impl HeaderTable {
    /// The headers that `.rest` files may set.
    pub fn known() -> (t: HeaderTable)
        ensures
            t@ == known_headers(),
    {
        let mut entries: Vec<(String, String)> = Vec::new();
        entries.push(str_pair("Host", "host"));
        entries.push(str_pair("User-Agent", "user-agent"));
        entries.push(str_pair("Accept", "accept"));
        entries.push(str_pair("Accept-Language", "accept-language"));
        entries.push(str_pair("Accept-Encoding", "accept-encoding"));
        entries.push(str_pair("Referer", "referer"));
        entries.push(str_pair("Connection", "connection"));
        entries.push(str_pair("Upgrade-Insecure-Requests", "upgrade-insecure-requests"));
        entries.push(str_pair("If-Modified-Since", "if-modified-since"));
        entries.push(str_pair("If-None-Match", "if-none-match"));
        entries.push(str_pair("Cache-Control", "cache-control"));
        entries.push(str_pair("Content-Type", "content-type"));
        let t = HeaderTable { entries };
        assert(t@ =~= known_headers());
        t
    }

    /// The sent name for a header written as `name`, if the table has it.
    pub fn lookup(&self, name: &Vec<char>) -> (r: Option<String>)
        ensures
            match r {
                Some(s) => table_lookup(self@, name@) == Some(s@),
                None => table_lookup(self@, name@) is None,
            },
    {
        let mut i: usize = 0;
        while i < self.entries.len()
            invariant
                i <= self.entries.len(),
                forall|k: int| 0 <= k < i ==> !(name_pred(name@))(#[trigger] self@[k]),
            decreases self.entries.len() - i,
        {
            let written = chars_of(self.entries[i].0.as_str());
            if chars_eq(&written, name) {
                proof {
                    lemma_find_from(self@, name_pred(name@), 0, i as int);
                }
                return Some(self.entries[i].1.clone());
            }
            i += 1;
        }
        proof {
            lemma_find_from(self@, name_pred(name@), 0, i as int);
        }
        None
    }
}

pub proof fn lemma_known_lookup(name: Seq<char>)
    ensures
        is_known_header(name) <==> table_lookup(known_headers(), name) is Some,
{
    let t = known_headers();
    lemma_find_from_bounds(t, name_pred(name), 0);
    if is_known_header(name) {
        let i = choose|i: int| 0 <= i < t.len() && #[trigger] t[i].0 == name;
        assert(!(find_from(t, name_pred(name), 0) > i)) by {
            if find_from(t, name_pred(name), 0) > i {
                assert(!(name_pred(name))(t[i]));
            }
        }
    }
    if table_lookup(t, name) is Some {
        let i = find_from(t, name_pred(name), 0);
        assert((name_pred(name))(t[i]));
        assert(t[i].0 == name);
    }
}

fn token(t: TokenType, v: &Vec<char>) -> (r: Token)
    ensures
        r@ == tok(t, v@),
{
    Token { token_type: t, value: string_of(v) }
}

fn is_method_word_exec(w: &Vec<char>) -> (b: bool)
    ensures
        b == is_method_word(w@),
{
    chars_eq(w, &chars_of("GET")) || chars_eq(w, &chars_of("POST")) || chars_eq(w, &chars_of("PUT"))
        || chars_eq(w, &chars_of("DELETE")) || chars_eq(w, &chars_of("PATCH"))
}

fn is_url_word_exec(w: &Vec<char>) -> (b: bool)
    ensures
        b == is_url_word(w@),
{
    starts_with_chars(w, &chars_of("http://")) || starts_with_chars(w, &chars_of("https://"))
}

/// The tokens of one line of the header part of a request (see [`line_tokens`]).
pub fn tokenize_line(line: &Vec<char>, known: &HeaderTable) -> (r: Vec<Token>)
    requires
        known@ == known_headers(),
    ensures
        token_views(r@) == line_tokens(line@),
{
    let mut i: usize = 0;
    while i < line.len() && line[i] != ':'
        invariant
            i <= line.len(),
            forall|k: int| 0 <= k < i ==> line@[k] != ':',
        decreases line.len() - i,
    {
        i += 1;
    }
    proof {
        lemma_find_from(line@, char_pred(':'), 0, i as int);
    }
    if i < line.len() {
        let key = trim_chars(&slice_chars(line, 0, i));
        assert(line@.subrange(0, i as int) =~= line@.take(i as int));
        proof {
            lemma_known_lookup(key@);
        }
        if known.lookup(&key).is_some() {
            let value = trim_chars(&slice_chars(line, i + 1, line.len()));
            assert(line@.subrange(i + 1, line@.len() as int) =~= line@.skip(i + 1));
            let mut r: Vec<Token> = Vec::new();
            r.push(token(TokenType::Header, &key));
            r.push(token(TokenType::HeaderValue, &value));
            assert(token_views(r@) =~= line_tokens(line@));
            return r;
        }
    }
    let ws = split_words(line);
    let mut r: Vec<Token> = Vec::new();
    let mut j: usize = 0;
    assert(views(ws@).take(0) =~= Seq::<Seq<char>>::empty());
    while j < ws.len()
        invariant
            j <= ws.len(),
            views(ws@) == words(line@),
            token_views(r@) == word_tokens(views(ws@).take(j as int)),
        decreases ws.len() - j,
    {
        let ghost before = token_views(r@);
        let w = &ws[j];
        assert(views(ws@).take(j + 1).drop_last() =~= views(ws@).take(j as int));
        assert(views(ws@).take(j + 1).last() == w@);
        if is_method_word_exec(w) {
            r.push(token(TokenType::Method, w));
            assert(token_views(r@) =~= before + word_token(w@));
        } else if is_url_word_exec(w) {
            r.push(token(TokenType::URL, w));
            assert(token_views(r@) =~= before + word_token(w@));
        } else {
            assert(token_views(r@) =~= before + word_token(w@));
        }
        j += 1;
    }
    assert(views(ws@).take(ws.len() as int) =~= views(ws@));
    r
}


fn is_separator_exec(line: &Vec<char>) -> (b: bool)
    ensures
        b == is_separator(line@),
{
    starts_with_chars(&trim_chars(line), &chars_of("###"))
}

fn is_blank_exec(line: &Vec<char>) -> (b: bool)
    ensures
        b == is_blank(line@),
{
    trim_chars(line).len() == 0
}

fn append_tokens(r: &mut Vec<Token>, t: Vec<Token>)
    ensures
        token_views(final(r)@) == token_views(old(r)@) + token_views(t@),
{
    let mut t = t;
    let ghost tv = t@;
    r.append(&mut t);
    assert(token_views(r@) =~= token_views(old(r)@) + token_views(tv));
}

/// The tokens of the request made of `lines[lo..hi]` (see [`request_tokens`]).
fn tokenize_request(lines: &Vec<Vec<char>>, lo: usize, hi: usize, known: &HeaderTable) -> (r: Vec<
    Token,
>)
    requires
        lo <= hi <= lines.len(),
        known@ == known_headers(),
    ensures
        token_views(r@) == request_tokens(views(lines@).subrange(lo as int, hi as int)),
{
    let ghost block = views(lines@).subrange(lo as int, hi as int);
    let mut k: usize = lo;
    while k < hi && !is_blank_exec(&lines[k])
        invariant
            lo <= k <= hi <= lines.len(),
            forall|m: int| lo <= m < k ==> !is_blank(#[trigger] lines@[m]@),
        decreases hi - k,
    {
        k += 1;
    }
    proof {
        assert forall|m: int| 0 <= m < k - lo implies !(blank_pred())(#[trigger] block[m]) by {
            assert(block[m] == lines@[lo + m]@);
        }
        if k < hi {
            assert(block[k - lo] == lines@[k as int]@);
        }
        lemma_find_from(block, blank_pred(), 0, k - lo);
    }
    let mut r: Vec<Token> = Vec::new();
    let mut i: usize = lo;
    assert(views(lines@).subrange(lo as int, lo as int) =~= Seq::<Seq<char>>::empty());
    while i < k
        invariant
            lo <= i <= k <= hi <= lines.len(),
            known@ == known_headers(),
            token_views(r@) == head_tokens(views(lines@).subrange(lo as int, i as int)),
        decreases k - i,
    {
        let t = tokenize_line(&lines[i], known);
        append_tokens(&mut r, t);
        assert(views(lines@).subrange(lo as int, i + 1).drop_last() =~= views(lines@).subrange(
            lo as int,
            i as int,
        ));
        i += 1;
    }
    assert(views(lines@).subrange(lo as int, k as int) =~= block.take(k - lo));
    if k < hi {
        let mut body: Vec<char> = Vec::new();
        let mut j: usize = k + 1;
        assert(views(lines@).subrange(k + 1, k + 1) =~= Seq::<Seq<char>>::empty());
        while j < hi
            invariant
                k < j <= hi <= lines.len(),
                body@ == body_text(views(lines@).subrange(k + 1, j as int)),
            decreases hi - j,
        {
            let ghost before = body@;
            let t = trim_chars(&lines[j]);
            assert(views(lines@).subrange(k + 1, j + 1).drop_last() =~= views(lines@).subrange(
                k + 1,
                j as int,
            ));
            if body.len() > 0 {
                body.push(' ');
            }
            let mut t2 = t;
            body.append(&mut t2);
            assert(body@ =~= body_text(views(lines@).subrange(k + 1, j + 1)));
            j += 1;
        }
        assert(views(lines@).subrange(k + 1, hi as int) =~= block.skip(k - lo + 1));
        if body.len() > 0 {
            r.push(token(TokenType::Body, &body));
        }
        assert(token_views(r@) =~= request_tokens(block));
    } else {
        assert(block.take(k - lo) =~= block);
    }
    r
}

/// The requests of a file given as lines of characters (see [`requests_of`]).
pub fn tokenize_chars(lines: &Vec<Vec<char>>) -> (r: Vec<Vec<Token>>)
    ensures
        request_views(r@) == requests_of(views(lines@)),
{
    let known = HeaderTable::known();
    let ghost all = views(lines@);
    let mut r: Vec<Vec<Token>> = Vec::new();
    let mut start: usize = 0;
    assert(all.skip(0) =~= all);
    assert(request_views(r@) + requests_of(all) =~= requests_of(all));
    while start < lines.len()
        invariant
            start <= lines.len(),
            all == views(lines@),
            known@ == known_headers(),
            requests_of(all) == request_views(r@) + requests_of(all.skip(start as int)),
        decreases lines.len() - start,
    {
        let ghost rest = all.skip(start as int);
        let ghost before = request_views(r@);
        let mut j: usize = start;
        while j < lines.len() && !is_separator_exec(&lines[j])
            invariant
                start <= j <= lines.len(),
                forall|m: int| start <= m < j ==> !is_separator(#[trigger] lines@[m]@),
            decreases lines.len() - j,
        {
            j += 1;
        }
        proof {
            assert forall|m: int| 0 <= m < j - start implies !(separator_pred())(
                #[trigger] rest[m],
            ) by {
                assert(rest[m] == lines@[start + m]@);
            }
            if j < lines.len() {
                assert(rest[j - start] == lines@[j as int]@);
            }
            lemma_find_from(rest, separator_pred(), 0, j - start);
        }
        let req = tokenize_request(lines, start, j, &known);
        let ghost rv = token_views(req@);
        if req.len() > 0 {
            r.push(req);
            assert(request_views(r@) =~= before + keep(rv));
        } else {
            assert(request_views(r@) =~= before + keep(rv));
        }
        if j == lines.len() {
            assert(rest =~= all.subrange(start as int, j as int));
            start = lines.len();
            assert(all.skip(start as int) =~= Seq::<Seq<char>>::empty());
            assert(requests_of(all) =~= request_views(r@) + requests_of(all.skip(start as int)));
        } else {
            assert(rest.take(j - start) =~= all.subrange(start as int, j as int));
            assert(rest.skip(j - start + 1) =~= all.skip(j + 1));
            start = j + 1;
            assert(requests_of(all) =~= request_views(r@) + requests_of(all.skip(start as int)));
        }
    }
    assert(all.skip(start as int) =~= Seq::<Seq<char>>::empty());
    assert(request_views(r@) + seq![] =~= request_views(r@));
    r
}


/// The requests of the text of a `.rest` file: its lines are split into
/// requests at lines starting with `###`, and each request is tokenized.
pub fn tokenize(content: &str) -> (r: Vec<Vec<Token>>)
    ensures
        request_views(r@) == requests_of(lines(content@)),
        forall|i: int|
            0 <= i < r@.len() ==> (#[trigger] r@[i])@.len() > 0 && well_formed_request(
                token_views(r@[i]@),
            ),
{
    let chars = chars_of(content);
    let ls = split_lines(&chars);
    let r = tokenize_chars(&ls);
    proof {
        lemma_requests_well_formed(lines(content@));
        assert forall|i: int| 0 <= i < r@.len() implies (#[trigger] r@[i])@.len() > 0
            && well_formed_request(token_views(r@[i]@)) by {
            assert(request_views(r@)[i] == token_views(r@[i]@));
        }
    }
    r
}

pub open spec fn string_views(v: Seq<String>) -> Seq<Seq<char>> {
    v.map_values(|l: String| l@)
}

/// The requests of a file that was read as lines (see [`tokenize`]).
pub fn tokenize_lines(file_lines: &Vec<String>) -> (r: Vec<Vec<Token>>)
    ensures
        request_views(r@) == requests_of(string_views(file_lines@)),
{
    let mut ls: Vec<Vec<char>> = Vec::new();
    for i in 0..file_lines.len()
        invariant
            views(ls@) == string_views(file_lines@).take(i as int),
    {
        let c = chars_of(file_lines[i].as_str());
        let ghost before = ls@;
        ls.push(c);
        assert(ls@ == before.push(c));
        assert(views(ls@) =~= views(before).push(c@));
        assert(string_views(file_lines@).take(i + 1) =~= string_views(file_lines@).take(i as int).push(
            file_lines@[i as int]@,
        ));
    }
    assert(string_views(file_lines@).take(file_lines.len() as int)
        =~= string_views(file_lines@));
    tokenize_chars(&ls)
}


/// The value of the last token of kind `t`, or nothing when there is none.
pub open spec fn last_value(ts: Seq<TokenView>, t: TokenType) -> Seq<char>
    decreases ts.len(),
{
    if ts.len() == 0 {
        seq![]
    } else if ts.last().token_type == t {
        ts.last().value
    } else {
        last_value(ts.drop_last(), t)
    }
}

/// The method and the URL of a request: the values of its last `Method` and
/// last `URL` tokens, each empty when there is none.
pub fn method_and_url(tokens: &Vec<Token>) -> (r: (String, String))
    ensures
        r.0@ == last_value(token_views(tokens@), TokenType::Method),
        r.1@ == last_value(token_views(tokens@), TokenType::URL),
{
    let ghost ts = token_views(tokens@);
    let mut method = String::new();
    let mut url = String::new();
    let mut i: usize = 0;
    assert(ts.take(0) =~= Seq::<TokenView>::empty());
    while i < tokens.len()
        invariant
            i <= tokens.len(),
            ts == token_views(tokens@),
            method@ == last_value(ts.take(i as int), TokenType::Method),
            url@ == last_value(ts.take(i as int), TokenType::URL),
        decreases tokens.len() - i,
    {
        assert(ts.take(i + 1).drop_last() =~= ts.take(i as int));
        assert(ts.take(i + 1).last() == tokens@[i as int]@);
        match tokens[i].token_type {
            TokenType::Method => method = tokens[i].value.clone(),
            TokenType::URL => url = tokens[i].value.clone(),
            _ => {},
        }
        i += 1;
    }
    assert(ts.take(tokens.len() as int) =~= ts);
    (method, url)
}

} // verus!
