//! The state and the decisions of the interactive terminal view: tabs of
//! requests, what their panels show, and how keys and responses change them.
use vstd::prelude::*;
use crate::json::{pretty_or_raw, shown_text};
use crate::parser::{
    last_value, method_and_url, string_views, token_views, Token, TokenType, TokenView,
};
use crate::text::{
    byte_len, char_pred, chars_eq, chars_of, contains, contains_chars, cut_point, find_from,
    find_pattern, find_pattern_exec, is_boundary, lemma_find_from, lines, remove_all,
    remove_all_chars, slice_chars, split_lines, starts_with, starts_with_chars, string_of,
    strip_prefixes, strip_prefixes_chars, take_bytes, views, lemma_find_pattern_at,
    lemma_remove_all_absent,
};

verus! {

/// The panel that has the focus.
#[derive(Clone, Copy, Debug, PartialEq, Eq, Structural)]
pub enum Panel {
    Request,
    Response,
}

/// One request with what its panels show.
pub struct RequestTab {
    pub tokens: Vec<Token>,
    pub response_text: String,
    pub status_info: String,
    pub is_loading: bool,
    pub request_scroll: u16,
    pub response_scroll: u16,
}

/// The kind of a line of the request panel.
#[derive(Clone, Copy, Debug, PartialEq, Eq, Structural)]
pub enum LineKind {
    /// The method (`left`) and the URL (`right`).
    Title,
    Blank,
    /// A header name (`left`) and its value (`right`).
    Header,
    /// A line of the body (`left`).
    Text,
}

/// A line of the request panel.
pub struct PanelLine {
    pub kind: LineKind,
    pub left: String,
    pub right: String,
}

impl View for PanelLine {
    type V = (LineKind, Seq<char>, Seq<char>);

    open spec fn view(&self) -> (LineKind, Seq<char>, Seq<char>) {
        (self.kind, self.left@, self.right@)
    }
}

pub open spec fn panel_views(v: Seq<PanelLine>) -> Seq<(LineKind, Seq<char>, Seq<char>)> {
    v.map_values(|l: PanelLine| l@)
}

pub open spec fn pl(kind: LineKind, left: Seq<char>, right: Seq<char>) -> (LineKind, Seq<char>, Seq<char>) {
    (kind, left, right)
}

/// One line per `Header` token: its name and the value of the `HeaderValue`
/// token right after it (empty when there is none).
pub open spec fn header_lines(ts: Seq<TokenView>) -> Seq<(LineKind, Seq<char>, Seq<char>)>
    decreases ts.len(),
{
    if ts.len() == 0 {
        seq![]
    } else if ts[0].token_type == TokenType::Header {
        if ts.len() > 1 && ts[1].token_type == TokenType::HeaderValue {
            seq![pl(LineKind::Header, ts[0].value, ts[1].value)] + header_lines(ts.skip(2))
        } else {
            seq![pl(LineKind::Header, ts[0].value, seq![])] + header_lines(ts.drop_first())
        }
    } else {
        header_lines(ts.drop_first())
    }
}

pub open spec fn text_lines(ls: Seq<Seq<char>>) -> Seq<(LineKind, Seq<char>, Seq<char>)>
    decreases ls.len(),
{
    if ls.len() == 0 {
        seq![]
    } else {
        seq![pl(LineKind::Text, ls[0], seq![])] + text_lines(ls.drop_first())
    }
}

/// For each `Body` token, a blank line and then the lines of the body as shown.
pub open spec fn body_lines(ts: Seq<TokenView>) -> Seq<(LineKind, Seq<char>, Seq<char>)>
    decreases ts.len(),
{
    if ts.len() == 0 {
        seq![]
    } else if ts[0].token_type == TokenType::Body {
        seq![pl(LineKind::Blank, seq![], seq![])] + text_lines(lines(shown_text(ts[0].value)))
            + body_lines(ts.drop_first())
    } else {
        body_lines(ts.drop_first())
    }
}

/// The lines of the request panel for a request's tokens.
pub open spec fn request_panel(ts: Seq<TokenView>) -> Seq<(LineKind, Seq<char>, Seq<char>)> {
    seq![
        pl(LineKind::Title, last_value(ts, TokenType::Method), last_value(ts, TokenType::URL)),
        pl(LineKind::Blank, seq![], seq![]),
    ] + header_lines(ts) + body_lines(ts)
}

/// A URL without its scheme, as a tab label shows it.
pub open spec fn short_url(url: Seq<char>) -> Seq<char> {
    strip_prefixes(strip_prefixes(url, "https://"@), "http://"@)
}

/// A label can be made: a short URL of more than 30 bytes is cut at byte 30,
/// which must fall between two characters.
pub open spec fn label_defined(url: Seq<char>) -> bool {
    byte_len(short_url(url)) > 30 ==> is_boundary(short_url(url), 30)
}

/// The label of a tab: the method, a space, and the short URL cut to 30 bytes.
pub open spec fn label_text(method: Seq<char>, url: Seq<char>) -> Seq<char> {
    let s = short_url(url);
    method + " "@ + (if byte_len(s) > 30 {
        take_bytes(s, 30)
    } else {
        s
    })
}

fn line(kind: LineKind, left: &Vec<char>, right: &Vec<char>) -> (l: PanelLine)
    ensures
        l@ == pl(kind, left@, right@),
{
    PanelLine { kind, left: string_of(left), right: string_of(right) }
}

impl RequestTab {
    /// A tab for a request that has not been sent.
    pub fn new(tokens: Vec<Token>) -> (t: RequestTab)
        ensures
            t.tokens == tokens,
            t.response_text@ == "Press Enter to send request"@,
            t.status_info@ == Seq::<char>::empty(),
            !t.is_loading,
            t.request_scroll == 0,
            t.response_scroll == 0,
    {
        RequestTab {
            tokens,
            response_text: String::from_str("Press Enter to send request"),
            status_info: String::new(),
            is_loading: false,
            request_scroll: 0,
            response_scroll: 0,
        }
    }

    /// The method and URL of the tab's request (see [`method_and_url`]).
    pub fn method_and_url(&self) -> (r: (String, String))
        ensures
            r.0@ == last_value(token_views(self.tokens@), TokenType::Method),
            r.1@ == last_value(token_views(self.tokens@), TokenType::URL),
    {
        method_and_url(&self.tokens)
    }

    /// Whether [`RequestTab::label`] can be called.
    pub fn label_fits(&self) -> (b: bool)
        ensures
            b == label_defined(last_value(token_views(self.tokens@), TokenType::URL)),
    {
        let (_, url) = self.method_and_url();
        let short = short_url_exec(&url);
        match cut_point(&short, 30) {
            Some(None) => false,
            _ => true,
        }
    }

    /// The label of the tab (see [`label_text`]).
    pub fn label(&self) -> (r: String)
        requires
            label_defined(last_value(token_views(self.tokens@), TokenType::URL)),
        ensures
            r@ == label_text(
                last_value(token_views(self.tokens@), TokenType::Method),
                last_value(token_views(self.tokens@), TokenType::URL),
            ),
    {
        let (method, url) = self.method_and_url();
        let short = short_url_exec(&url);
        let shown = match cut_point(&short, 30) {
            None => short,
            Some(Some(k)) => {
                proof {
                    crate::text::lemma_take_bytes(short@, k as int);
                }
                slice_chars(&short, 0, k)
            },
            Some(None) => short,
        };
        let mut r = method.clone();
        r.append(" ");
        r.append(string_of(&shown).as_str());
        r
    }

    /// The lines of the request panel (see [`request_panel`]).
    pub fn request_lines(&self) -> (r: Vec<PanelLine>)
        ensures
            panel_views(r@) == request_panel(token_views(self.tokens@)),
    {
        let ghost ts = token_views(self.tokens@);
        let (method, url) = self.method_and_url();
        let empty: Vec<char> = Vec::new();
        let mut r: Vec<PanelLine> = Vec::new();
        r.push(line(LineKind::Title, &chars_of(method.as_str()), &chars_of(url.as_str())));
        r.push(line(LineKind::Blank, &empty, &empty));
        let n = self.tokens.len();
        let mut i: usize = 0;
        assert(ts.skip(0) =~= ts);
        assert(panel_views(r@) + header_lines(ts) =~= seq![
            pl(LineKind::Title, last_value(ts, TokenType::Method), last_value(ts, TokenType::URL)),
            pl(LineKind::Blank, seq![], seq![]),
        ] + header_lines(ts.skip(0)));
        while i < n
            invariant
                n == self.tokens.len(),
                i <= n,
                ts == token_views(self.tokens@),
                empty@ == Seq::<char>::empty(),
                panel_views(r@) + header_lines(ts.skip(i as int)) == seq![
                    pl(
                        LineKind::Title,
                        last_value(ts, TokenType::Method),
                        last_value(ts, TokenType::URL),
                    ),
                    pl(LineKind::Blank, seq![], seq![]),
                ] + header_lines(ts),
            decreases n - i,
        {
            let ghost rest = ts.skip(i as int);
            let ghost before = panel_views(r@);
            assert(rest[0] == self.tokens@[i as int]@);
            if self.tokens[i].token_type == TokenType::Header {
                let name = chars_of(self.tokens[i].value.as_str());
                if i + 1 < n && self.tokens[i + 1].token_type == TokenType::HeaderValue {
                    assert(rest[1] == self.tokens@[i + 1]@);
                    let value = chars_of(self.tokens[i + 1].value.as_str());
                    r.push(line(LineKind::Header, &name, &value));
                    assert(rest.skip(2) =~= ts.skip(i + 2));
                    assert(panel_views(r@) =~= before.push(pl(LineKind::Header, rest[0].value, rest[1].value)));
                    i += 2;
                } else {
                    r.push(line(LineKind::Header, &name, &empty));
                    assert(rest.drop_first() =~= ts.skip(i + 1));
                    assert(panel_views(r@) =~= before.push(pl(LineKind::Header, rest[0].value, seq![])));
                    i += 1;
                }
            } else {
                assert(rest.drop_first() =~= ts.skip(i + 1));
                i += 1;
            }
        }
        assert(ts.skip(n as int) =~= Seq::<TokenView>::empty());
        assert(panel_views(r@) + seq![] =~= panel_views(r@));
        let mut j: usize = 0;
        assert(ts.skip(0) =~= ts);
        while j < n
            invariant
                n == self.tokens.len(),
                j <= n,
                ts == token_views(self.tokens@),
                empty@ == Seq::<char>::empty(),
                panel_views(r@) + body_lines(ts.skip(j as int)) == request_panel(ts),
            decreases n - j,
        {
            let ghost rest = ts.skip(j as int);
            assert(rest[0] == self.tokens@[j as int]@);
            assert(rest.drop_first() =~= ts.skip(j + 1));
            if self.tokens[j].token_type == TokenType::Body {
                let ghost before = panel_views(r@);
                r.push(line(LineKind::Blank, &empty, &empty));
                let shown = pretty_or_raw(self.tokens[j].value.as_str());
                let ls = split_lines(&chars_of(shown.as_str()));
                let mut k: usize = 0;
                assert(views(ls@).skip(0) =~= views(ls@));
                assert(panel_views(r@) + text_lines(views(ls@).skip(0)) =~= before + seq![
                    pl(LineKind::Blank, seq![], seq![]),
                ] + text_lines(lines(shown_text(rest[0].value))));
                while k < ls.len()
                    invariant
                        k <= ls.len(),
                        empty@ == Seq::<char>::empty(),
                        panel_views(r@) + text_lines(views(ls@).skip(k as int)) == before + seq![
                            pl(LineKind::Blank, seq![], seq![]),
                        ] + text_lines(lines(shown_text(rest[0].value))),
                    decreases ls.len() - k,
                {
                    let ghost b2 = panel_views(r@);
                    assert(views(ls@).skip(k as int)[0] == ls@[k as int]@);
                    assert(views(ls@).skip(k as int).drop_first() =~= views(ls@).skip(k + 1));
                    r.push(line(LineKind::Text, &ls[k], &empty));
                    assert(panel_views(r@) =~= b2.push(pl(LineKind::Text, ls@[k as int]@, seq![])));
                    k += 1;
                }
                assert(views(ls@).skip(ls.len() as int) =~= Seq::<Seq<char>>::empty());
                assert(panel_views(r@) + seq![] =~= panel_views(r@));
            }
            j += 1;
        }
        assert(ts.skip(n as int) =~= Seq::<TokenView>::empty());
        assert(panel_views(r@) + seq![] =~= panel_views(r@));
        r
    }

    /// The lines of the response panel: the lines of the response text.
    pub fn response_lines(&self) -> (r: Vec<String>)
        ensures
            string_views(r@) == lines(self.response_text@),
    {
        let ls = split_lines(&chars_of(self.response_text.as_str()));
        let mut r: Vec<String> = Vec::new();
        let mut i: usize = 0;
        while i < ls.len()
            invariant
                i <= ls.len(),
                string_views(r@) == views(ls@).take(i as int),
            decreases ls.len() - i,
        {
            let ghost before = r@;
            let s = string_of(&ls[i]);
            r.push(s);
            assert(r@ == before.push(s));
            assert(string_views(r@) =~= string_views(before).push(ls@[i as int]@));
            assert(views(ls@).take(i + 1) =~= views(ls@).take(i as int).push(ls@[i as int]@));
            assert(string_views(r@) =~= views(ls@).take(i + 1));
            i += 1;
        }
        assert(views(ls@).take(ls.len() as int) =~= views(ls@));
        r
    }
}

fn short_url_exec(url: &String) -> (r: Vec<char>)
    ensures
        r@ == short_url(url@),
{
    let u = chars_of(url.as_str());
    let a = strip_prefixes_chars(&u, &chars_of("https://"));
    strip_prefixes_chars(&a, &chars_of("http://"))
}


/// The colour a method is shown in.
#[derive(Clone, Copy, Debug, PartialEq, Eq, Structural)]
pub enum MethodColor {
    Green,
    Yellow,
    Blue,
    Magenta,
    Red,
    White,
}

pub open spec fn color_of(m: Seq<char>) -> MethodColor {
    if m == "GET"@ {
        MethodColor::Green
    } else if m == "POST"@ {
        MethodColor::Yellow
    } else if m == "PUT"@ {
        MethodColor::Blue
    } else if m == "PATCH"@ {
        MethodColor::Magenta
    } else if m == "DELETE"@ {
        MethodColor::Red
    } else {
        MethodColor::White
    }
}

/// The colour of a method: one per supported method, white for any other text.
pub fn method_to_color(method: &str) -> (c: MethodColor)
    ensures
        c == color_of(method@),
{
    let m = chars_of(method);
    if chars_eq(&m, &chars_of("GET")) {
        MethodColor::Green
    } else if chars_eq(&m, &chars_of("POST")) {
        MethodColor::Yellow
    } else if chars_eq(&m, &chars_of("PUT")) {
        MethodColor::Blue
    } else if chars_eq(&m, &chars_of("PATCH")) {
        MethodColor::Magenta
    } else if chars_eq(&m, &chars_of("DELETE")) {
        MethodColor::Red
    } else {
        MethodColor::White
    }
}

/// The colour the status of a response is shown in.
#[derive(Clone, Copy, Debug, PartialEq, Eq, Structural)]
pub enum StatusColor {
    Green,
    Red,
    Yellow,
}

pub open spec fn status_color_of(info: Seq<char>) -> StatusColor {
    if contains(info, "200"@) || contains(info, "201"@) || contains(info, "204"@) {
        StatusColor::Green
    } else if contains(info, "ERROR"@) {
        StatusColor::Red
    } else {
        StatusColor::Yellow
    }
}

/// Green for a status text that holds 200, 201 or 204; red for one that holds
/// ERROR; yellow otherwise.
pub fn status_color(info: &str) -> (c: StatusColor)
    ensures
        c == status_color_of(info@),
{
    let s = chars_of(info);
    if contains_chars(&s, &chars_of("200")) || contains_chars(&s, &chars_of("201"))
        || contains_chars(&s, &chars_of("204")) {
        StatusColor::Green
    } else if contains_chars(&s, &chars_of("ERROR")) {
        StatusColor::Red
    } else {
        StatusColor::Yellow
    }
}

/// The rows of a panel of `height` rows (two of them borders) that show text.
pub open spec fn visible_rows(height: u16) -> int {
    if height >= 2 {
        height - 2
    } else {
        0
    }
}

/// A scroll bar for `content_len` lines in a panel of `height` rows: shown,
/// with that many positions beyond the visible ones, only when the lines do
/// not all fit.
pub fn scrollbar_extent(content_len: usize, height: u16) -> (r: Option<usize>)
    ensures
        content_len > visible_rows(height) ==> r == Some((content_len - visible_rows(height)) as usize),
        content_len <= visible_rows(height) ==> r is None,
{
    let visible: usize = height.saturating_sub(2) as usize;
    if content_len > visible {
        Some(content_len - visible)
    } else {
        None
    }
}

/// What the application must do after a key.
#[derive(Clone, Copy, Debug, PartialEq, Eq, Structural)]
pub enum Command {
    Nothing,
    /// Send the request of the active tab, then report with [`App::finish_request`].
    Send,
}

/// A key press.
#[derive(Clone, Copy, Debug, PartialEq, Eq, Structural)]
pub enum Key {
    Char(char),
    Tab,
    Up,
    Down,
    Enter,
    Other,
}

/// The interactive view: its tabs, the active one, the focused panel.
pub struct App {
    pub tabs: Vec<RequestTab>,
    pub active_tab: usize,
    pub active_panel: Panel,
    pub should_quit: bool,
}

pub open spec fn toggled(p: Panel) -> Panel {
    match p {
        Panel::Request => Panel::Response,
        Panel::Response => Panel::Request,
    }
}

/// One step of a scroll position, saturating at 0 and at `u16::MAX`.
pub open spec fn scroll_step(x: u16, up: bool) -> u16 {
    if up {
        if x > 0 {
            (x - 1) as u16
        } else {
            0
        }
    } else {
        if x < u16::MAX {
            (x + 1) as u16
        } else {
            u16::MAX
        }
    }
}

/// The tab with the scroll position of panel `p` moved one step.
pub open spec fn scrolled(t: RequestTab, p: Panel, up: bool) -> RequestTab {
    match p {
        Panel::Request => RequestTab { request_scroll: scroll_step(t.request_scroll, up), ..t },
        Panel::Response => RequestTab { response_scroll: scroll_step(t.response_scroll, up), ..t },
    }
}

/// The value of a digit key.
pub open spec fn digit_of(c: char) -> Option<int> {
    if '0' <= c && c <= '9' {
        Some(c as int - '0' as int)
    } else {
        None
    }
}

/// The keys that act on the active tab.
pub open spec fn key_uses_tab(key: Key) -> bool {
    match key {
        Key::Up | Key::Down | Key::Enter => true,
        Key::Char(c) => c == 'k' || c == 'j',
        _ => false,
    }
}

pub open spec fn same_view(a: App, b: App) -> bool {
    &&& b.active_tab == a.active_tab
    &&& b.active_panel == a.active_panel
    &&& b.should_quit == a.should_quit
}

pub open spec fn unchanged(a: App, b: App) -> bool {
    b.tabs@ == a.tabs@ && same_view(a, b)
}

pub open spec fn scroll_done(a: App, b: App, up: bool) -> bool {
    &&& same_view(a, b)
    &&& b.tabs@ == a.tabs@.update(
        a.active_tab as int,
        scrolled(a.tabs@[a.active_tab as int], a.active_panel, up),
    )
}

/// The tab `u` is `t` marked as waiting for its response.
pub open spec fn sending(t: RequestTab, u: RequestTab) -> bool {
    &&& u.tokens == t.tokens
    &&& u.is_loading
    &&& u.response_text@ == "Sending request..."@
    &&& u.status_info@ == Seq::<char>::empty()
    &&& u.request_scroll == t.request_scroll
    &&& u.response_scroll == t.response_scroll
}

/// How a key takes the view from `a` to `b` and what it asks to be done.
pub open spec fn key_step(a: App, b: App, key: Key, c: Command) -> bool {
    match key {
        Key::Char(ch) => if ch == 'q' {
            &&& b.tabs@ == a.tabs@
            &&& b.active_tab == a.active_tab
            &&& b.active_panel == a.active_panel
            &&& b.should_quit
            &&& c == Command::Nothing
        } else if ch == 'k' {
            scroll_done(a, b, true) && c == Command::Nothing
        } else if ch == 'j' {
            scroll_done(a, b, false) && c == Command::Nothing
        } else {
            match digit_of(ch) {
                Some(d) => {
                    &&& b.tabs@ == a.tabs@
                    &&& b.active_panel == a.active_panel
                    &&& b.should_quit == a.should_quit
                    &&& b.active_tab == (if 1 <= d <= a.tabs.len() {
                        (d - 1) as usize
                    } else {
                        a.active_tab
                    })
                    &&& c == Command::Nothing
                },
                None => unchanged(a, b) && c == Command::Nothing,
            }
        },
        Key::Tab => {
            &&& b.tabs@ == a.tabs@
            &&& b.active_tab == a.active_tab
            &&& b.should_quit == a.should_quit
            &&& b.active_panel == toggled(a.active_panel)
            &&& c == Command::Nothing
        },
        Key::Up => scroll_done(a, b, true) && c == Command::Nothing,
        Key::Down => scroll_done(a, b, false) && c == Command::Nothing,
        Key::Enter => if a.tabs@[a.active_tab as int].is_loading {
            unchanged(a, b) && c == Command::Nothing
        } else {
            &&& same_view(a, b)
            &&& b.tabs@ == a.tabs@.update(a.active_tab as int, b.tabs@[a.active_tab as int])
            &&& sending(a.tabs@[a.active_tab as int], b.tabs@[a.active_tab as int])
            &&& c == Command::Send
        },
        Key::Other => unchanged(a, b) && c == Command::Nothing,
    }
}

/// The status line and response text that an outcome is shown with: the
/// formatted body with ` 200 OK` on success; for an error that reports a
/// status, the status (the text before the first `:`, without `Status code `)
/// and the formatted text after the first `: `; for any other error, ` ERROR`
/// and the error itself.
pub open spec fn shown_outcome(outcome: Result<Seq<char>, Seq<char>>, elapsed: Seq<char>) -> (
    Seq<char>,
    Seq<char>,
) {
    match outcome {
        Ok(body) => (" 200 OK  |  "@ + elapsed, shown_text(body)),
        Err(e) => if starts_with(e, "Status code "@) {
            let status = remove_all(e.take(find_from(e, char_pred(':'), 0)), "Status code "@);
            let k = find_pattern(e, ": "@, 0);
            let body = if k < e.len() {
                e.skip(k + ": "@.len())
            } else {
                e
            };
            (" "@ + status + "  |  "@ + elapsed, shown_text(body))
        } else {
            (" ERROR  |  "@ + elapsed, e)
        },
    }
}

/// How reporting an outcome takes the view from `a` to `b`.
pub open spec fn finish_step(
    a: App,
    b: App,
    outcome: Result<Seq<char>, Seq<char>>,
    elapsed: Seq<char>,
) -> bool {
    let i = a.active_tab as int;
    let t = b.tabs@[i];
    &&& b.tabs@ == a.tabs@.update(i, t)
    &&& t.tokens == a.tabs@[i].tokens
    &&& t.request_scroll == a.tabs@[i].request_scroll
    &&& !t.is_loading
    &&& t.response_scroll == 0
    &&& (t.status_info@, t.response_text@) == shown_outcome(outcome, elapsed)
    &&& b.active_tab == a.active_tab
    &&& b.active_panel == Panel::Response
    &&& b.should_quit == a.should_quit
}

pub open spec fn outcome_view(outcome: Result<String, String>) -> Result<Seq<char>, Seq<char>> {
    match outcome {
        Ok(s) => Ok(s@),
        Err(e) => Err(e@),
    }
}

impl App {
    /// The active tab is one of the tabs, when there are any.
    pub open spec fn wf(&self) -> bool {
        self.tabs.len() == 0 || self.active_tab < self.tabs.len()
    }

    /// A view with one tab per request, the first active, the request panel focused.
    pub fn new(requests: Vec<Vec<Token>>) -> (a: App)
        ensures
            a.wf(),
            a.tabs.len() == requests.len(),
            forall|i: int|
                0 <= i < requests.len() ==> (#[trigger] a.tabs@[i]).tokens == requests@[i]
                    && a.tabs@[i].response_text@ == "Press Enter to send request"@
                    && a.tabs@[i].status_info@ == Seq::<char>::empty() && !a.tabs@[i].is_loading
                    && a.tabs@[i].request_scroll == 0 && a.tabs@[i].response_scroll == 0,
            a.active_tab == 0,
            a.active_panel == Panel::Request,
            !a.should_quit,
    {
        let mut tabs: Vec<RequestTab> = Vec::new();
        let mut rest = requests;
        let ghost all = rest@;
        let mut reversed: Vec<Vec<Token>> = Vec::new();
        while rest.len() > 0
            invariant
                rest@ == all.take(rest.len() as int),
                reversed.len() == all.len() - rest.len(),
                rest.len() <= all.len(),
                forall|m: int| 0 <= m < reversed.len() ==> #[trigger] reversed@[m] == all[all.len() - 1 - m],
            decreases rest.len(),
        {
            let r = rest.pop().unwrap();
            assert(r == all[rest.len() as int]);
            reversed.push(r);
            assert(rest@ =~= all.take(rest.len() as int));
        }
        while reversed.len() > 0
            invariant
                tabs.len() + reversed.len() == all.len(),
                forall|m: int| 0 <= m < reversed.len() ==> #[trigger] reversed@[m] == all[all.len() - 1 - m],
                forall|i: int|
                    0 <= i < tabs.len() ==> (#[trigger] tabs@[i]).tokens == all[i]
                        && tabs@[i].response_text@ == "Press Enter to send request"@
                        && tabs@[i].status_info@ == Seq::<char>::empty() && !tabs@[i].is_loading
                        && tabs@[i].request_scroll == 0 && tabs@[i].response_scroll == 0,
            decreases reversed.len(),
        {
            let r = reversed.pop().unwrap();
            assert(r == all[tabs.len() as int]);
            let t = RequestTab::new(r);
            let ghost before = tabs@;
            tabs.push(t);
            assert(tabs@ == before.push(t));
            assert forall|i: int| 0 <= i < tabs.len() implies (#[trigger] tabs@[i]).tokens == all[i]
                && tabs@[i].response_text@ == "Press Enter to send request"@
                && tabs@[i].status_info@ == Seq::<char>::empty() && !tabs@[i].is_loading
                && tabs@[i].request_scroll == 0 && tabs@[i].response_scroll == 0 by {
                if i < before.len() {
                    assert(tabs@[i] == before[i]);
                } else {
                    assert(t.tokens == r);
                }
            }
        }
        App { tabs, active_tab: 0, active_panel: Panel::Request, should_quit: false }
    }

    /// The active tab.
    pub fn current_tab(&self) -> (t: &RequestTab)
        requires
            self.wf(),
            self.tabs.len() > 0,
        ensures
            *t == self.tabs@[self.active_tab as int],
    {
        &self.tabs[self.active_tab]
    }

    /// Scrolls the focused panel of the active tab one line up.
    pub fn scroll_up(&mut self)
        requires
            old(self).wf(),
            old(self).tabs.len() > 0,
        ensures
            final(self).wf(),
            scroll_done(*old(self), *final(self), true),
    {
        let i = self.active_tab;
        match self.active_panel {
            Panel::Request => {
                self.tabs[i].request_scroll = self.tabs[i].request_scroll.saturating_sub(1);
            },
            Panel::Response => {
                self.tabs[i].response_scroll = self.tabs[i].response_scroll.saturating_sub(1);
            },
        }
    }

    /// Scrolls the focused panel of the active tab one line down.
    pub fn scroll_down(&mut self)
        requires
            old(self).wf(),
            old(self).tabs.len() > 0,
        ensures
            final(self).wf(),
            scroll_done(*old(self), *final(self), false),
    {
        let i = self.active_tab;
        match self.active_panel {
            Panel::Request => {
                self.tabs[i].request_scroll = self.tabs[i].request_scroll.saturating_add(1);
            },
            Panel::Response => {
                self.tabs[i].response_scroll = self.tabs[i].response_scroll.saturating_add(1);
            },
        }
    }

    /// Acts on a key (see [`key_step`]).
    pub fn handle_key(&mut self, key: Key) -> (c: Command)
        requires
            old(self).wf(),
            key_uses_tab(key) ==> old(self).tabs.len() > 0,
        ensures
            final(self).wf(),
            final(self).tabs.len() == old(self).tabs.len(),
            key_step(*old(self), *final(self), key, c),
    {
        match key {
            Key::Char(ch) => {
                if ch == 'q' {
                    self.should_quit = true;
                } else if ch == 'k' {
                    self.scroll_up();
                } else if ch == 'j' {
                    self.scroll_down();
                } else if '0' <= ch && ch <= '9' {
                    let d: usize = (ch as u32 - '0' as u32) as usize;
                    if d >= 1 && d <= self.tabs.len() {
                        self.active_tab = d - 1;
                    }
                }
                Command::Nothing
            },
            Key::Tab => {
                self.active_panel = match self.active_panel {
                    Panel::Request => Panel::Response,
                    Panel::Response => Panel::Request,
                };
                Command::Nothing
            },
            Key::Up => {
                self.scroll_up();
                Command::Nothing
            },
            Key::Down => {
                self.scroll_down();
                Command::Nothing
            },
            Key::Enter => {
                let i = self.active_tab;
                if self.tabs[i].is_loading {
                    Command::Nothing
                } else {
                    self.tabs[i].is_loading = true;
                    self.tabs[i].response_text = String::from_str("Sending request...");
                    self.tabs[i].status_info = String::new();
                    assert(self.tabs@ =~= old(self).tabs@.update(i as int, self.tabs@[i as int]));
                    Command::Send
                }
            },
            Key::Other => Command::Nothing,
        }
    }

    /// Shows the outcome of the request of the active tab, sent `elapsed` ago,
    /// and focuses the response panel (see [`finish_step`]).
    pub fn finish_request(&mut self, outcome: Result<String, String>, elapsed: &str)
        requires
            old(self).wf(),
            old(self).tabs.len() > 0,
        ensures
            final(self).wf(),
            finish_step(*old(self), *final(self), outcome_view(outcome), elapsed@),
    {
        let (status, text) = shown_outcome_exec(&outcome, elapsed);
        let i = self.active_tab;
        self.tabs[i].response_text = text;
        self.tabs[i].status_info = status;
        self.tabs[i].is_loading = false;
        self.tabs[i].response_scroll = 0;
        self.active_panel = Panel::Response;
        assert(self.tabs@ =~= old(self).tabs@.update(i as int, self.tabs@[i as int]));
    }

    /// Whether the help line offers switching between requests.
    pub fn shows_tab_hint(&self) -> (b: bool)
        ensures
            b == (self.tabs.len() > 1),
    {
        self.tabs.len() > 1
    }
}

fn concat(parts: &Vec<&str>) -> (r: String)
    ensures
        r@ == parts@.fold_left(Seq::<char>::empty(), |acc: Seq<char>, p: &str| acc + p@),
{
    let mut r = String::new();
    let mut i: usize = 0;
    while i < parts.len()
        invariant
            i <= parts.len(),
            r@ == parts@.take(i as int).fold_left(Seq::<char>::empty(), |acc: Seq<char>, p: &str| acc + p@),
        decreases parts.len() - i,
    {
        assert(parts@.take(i + 1).drop_last() =~= parts@.take(i as int));
        r.append(parts[i]);
        i += 1;
    }
    assert(parts@.take(parts.len() as int) =~= parts@);
    r
}

fn shown_outcome_exec(outcome: &Result<String, String>, elapsed: &str) -> (r: (String, String))
    ensures
        (r.0@, r.1@) == shown_outcome(outcome_view(*outcome), elapsed@),
{
    match outcome {
        Ok(body) => {
            let mut status = String::from_str(" 200 OK  |  ");
            status.append(elapsed);
            (status, pretty_or_raw(body.as_str()))
        },
        Err(e) => {
            let ec = chars_of(e.as_str());
            let prefix = chars_of("Status code ");
            if starts_with_chars(&ec, &prefix) {
                let mut c: usize = 0;
                while c < ec.len() && ec[c] != ':'
                    invariant
                        c <= ec.len(),
                        forall|m: int| 0 <= m < c ==> ec@[m] != ':',
                    decreases ec.len() - c,
                {
                    c += 1;
                }
                proof {
                    lemma_find_from(ec@, char_pred(':'), 0, c as int);
                }
                let head = slice_chars(&ec, 0, c);
                assert(head@ =~= ec@.take(c as int));
                let code = remove_all_chars(&head, &prefix);
                let sep = chars_of(": ");
                let k = find_pattern_exec(&ec, &sep);
                let body = if k < ec.len() {
                    proof {
                        reveal_strlit(": ");
                    }
                    assert(k + 2 <= ec.len()) by {
                        crate::text::lemma_find_pattern_fits(ec@, sep@, 0);
                    }
                    slice_chars(&ec, k + 2, ec.len())
                } else {
                    slice_chars(&ec, 0, ec.len())
                };
                assert(k < ec.len() ==> body@ =~= ec@.skip(k + ": "@.len()));
                assert(k >= ec.len() ==> body@ =~= ec@);
                let mut status = String::from_str(" ");
                status.append(string_of(&code).as_str());
                status.append("  |  ");
                status.append(elapsed);
                (status, pretty_or_raw(string_of(&body).as_str()))
            } else {
                let mut status = String::from_str(" ERROR  |  ");
                status.append(elapsed);
                (status, e.clone())
            }
        },
    }
}


/// The number of `Header` tokens in `ts`.
pub open spec fn header_count(ts: Seq<TokenView>) -> nat
    decreases ts.len(),
{
    if ts.len() == 0 {
        0
    } else {
        (if ts[0].token_type == TokenType::Header {
            1nat
        } else {
            0nat
        }) + header_count(ts.drop_first())
    }
}

/// Each `Header` token gives exactly one header line.
pub proof fn lemma_header_lines_len(ts: Seq<TokenView>)
    ensures
        header_lines(ts).len() == header_count(ts),
    decreases ts.len(),
{
    if ts.len() > 0 {
        lemma_header_lines_len(ts.drop_first());
        if ts[0].token_type == TokenType::Header && ts.len() > 1 && ts[1].token_type
            == TokenType::HeaderValue {
            assert(ts.skip(2) =~= ts.drop_first().drop_first());
            lemma_header_lines_len(ts.skip(2));
        }
    }
}

/// Without a `Body` token there are no body lines.
pub proof fn lemma_no_body_lines(ts: Seq<TokenView>)
    requires
        forall|i: int| 0 <= i < ts.len() ==> (#[trigger] ts[i]).token_type != TokenType::Body,
    ensures
        body_lines(ts) == Seq::<(LineKind, Seq<char>, Seq<char>)>::empty(),
    decreases ts.len(),
{
    if ts.len() > 0 {
        assert forall|i: int| 0 <= i < ts.drop_first().len() implies (
        #[trigger] ts.drop_first()[i]).token_type != TokenType::Body by {
            assert(ts.drop_first()[i] == ts[i + 1]);
        }
        lemma_no_body_lines(ts.drop_first());
    }
}

/// A request without a body shows its title line, a blank line and one line
/// for each `Header` token, and nothing more.
pub proof fn lemma_request_panel_without_body(ts: Seq<TokenView>)
    requires
        forall|i: int| 0 <= i < ts.len() ==> (#[trigger] ts[i]).token_type != TokenType::Body,
    ensures
        request_panel(ts).len() == 2 + header_count(ts),
        request_panel(ts).skip(2) == header_lines(ts),
{
    lemma_header_lines_len(ts);
    lemma_no_body_lines(ts);
    assert(request_panel(ts).skip(2) =~= header_lines(ts));
}

/// A digit key and then Enter send the request of the tab that the digit
/// names (the active tab, for a digit that names none), provided that tab is
/// not waiting already; reporting the outcome then shows the response of that
/// same request, scrolled to its top, in the focused response panel.
pub proof fn lemma_digit_then_enter_sends(
    a: App,
    b: App,
    c: App,
    d: App,
    ch: char,
    c1: Command,
    c2: Command,
    outcome: Result<Seq<char>, Seq<char>>,
    elapsed: Seq<char>,
)
    requires
        a.wf(),
        a.tabs.len() > 0,
        '0' <= ch <= '9',
        key_step(a, b, Key::Char(ch), c1),
        !a.tabs@[b.active_tab as int].is_loading,
        key_step(b, c, Key::Enter, c2),
        finish_step(c, d, outcome, elapsed),
    ensures
        c1 == Command::Nothing,
        c2 == Command::Send,
        1 <= ch as int - '0' as int <= a.tabs.len() ==> b.active_tab == ch as int - '1' as int,
        !(1 <= ch as int - '0' as int <= a.tabs.len()) ==> b.active_tab == a.active_tab,
        c.active_tab == b.active_tab,
        c.tabs@[c.active_tab as int].tokens == a.tabs@[b.active_tab as int].tokens,
        c.tabs@[c.active_tab as int].is_loading,
        d.active_tab == b.active_tab,
        d.tabs@[d.active_tab as int].tokens == a.tabs@[b.active_tab as int].tokens,
        !d.tabs@[d.active_tab as int].is_loading,
        d.tabs@[d.active_tab as int].response_scroll == 0,
        d.active_panel == Panel::Response,
{
}

/// No tab waiting for a response.
pub open spec fn none_waiting(a: App) -> bool {
    forall|i: int| 0 <= i < a.tabs.len() ==> !(#[trigger] a.tabs@[i]).is_loading
}

/// The loop keeps every tab out of waiting between keys: a key that sends
/// nothing leaves no tab waiting, and a key that sends leaves none waiting
/// once its outcome is reported.
pub proof fn lemma_no_tab_left_waiting(
    a: App,
    b: App,
    c: App,
    key: Key,
    cmd: Command,
    outcome: Result<Seq<char>, Seq<char>>,
    elapsed: Seq<char>,
)
    requires
        a.wf(),
        a.tabs.len() > 0,
        none_waiting(a),
        key_step(a, b, key, cmd),
        cmd == Command::Send ==> finish_step(b, c, outcome, elapsed),
    ensures
        cmd == Command::Nothing ==> none_waiting(b),
        cmd == Command::Send ==> none_waiting(c),
{
    if cmd == Command::Nothing {
        assert forall|i: int| 0 <= i < b.tabs.len() implies !(#[trigger] b.tabs@[i]).is_loading by {
            assert(!a.tabs@[i].is_loading);
        }
    } else {
        assert forall|i: int| 0 <= i < c.tabs.len() implies !(#[trigger] c.tabs@[i]).is_loading by {
            if i != a.active_tab as int {
                assert(!a.tabs@[i].is_loading);
            }
        }
    }
}

/// An error that reports a status, `Status code <status>: <body>`, is shown
/// with the whole of its body, whatever `: ` the body holds itself, and with
/// the status in the status line when the status holds no `:`.
pub proof fn lemma_status_error_shows_whole_body(
    a: App,
    b: App,
    status: Seq<char>,
    body: Seq<char>,
    elapsed: Seq<char>,
)
    requires
        forall|k: int| 0 <= k < status.len() ==> #[trigger] status[k] != ':',
        finish_step(a, b, Err("Status code "@ + status + ": "@ + body), elapsed),
    ensures
        b.tabs@[a.active_tab as int].response_text@ == shown_text(body),
        (forall|k: int| 0 <= k <= status.len() ==> !starts_with(#[trigger] status.skip(k), "Status code "@))
            ==> b.tabs@[a.active_tab as int].status_info@ == " "@ + status + "  |  "@ + elapsed,
{
    reveal_strlit("Status code ");
    reveal_strlit(": ");
    let prefix = "Status code "@;
    let sep = ": "@;
    let head = prefix + status;
    let e = head + sep + body;
    assert(e =~= "Status code "@ + status + ": "@ + body);
    let m = head.len() as int;
    assert forall|k: int| 0 <= k < m implies !char_pred(':')(#[trigger] e[k]) by {
        assert(e[k] == head[k]);
        if k >= prefix.len() {
            assert(head[k] == status[k - prefix.len()]);
        }
    }
    assert(e[m] == ':');
    lemma_find_from(e, char_pred(':'), 0, m);
    assert(e.take(m) =~= head);
    assert(e.subrange(m, m + 2) =~= sep);
    assert forall|k: int| 0 <= k < m implies #[trigger] e.subrange(k, k + sep.len()) != sep by {
        assert(e.subrange(k, k + sep.len())[0] == e[k]);
    }
    lemma_find_pattern_at(e, sep, 0, m);
    assert(e.skip(m + sep.len()) =~= body);
    assert(e.take(prefix.len() as int) =~= prefix);
    assert(starts_with(e, prefix));
    if forall|k: int| 0 <= k <= status.len() ==> !starts_with(#[trigger] status.skip(k), "Status code "@) {
        assert(head.skip(prefix.len() as int) =~= status);
        assert(head.take(prefix.len() as int) =~= prefix);
        lemma_remove_all_absent(status, prefix);
        assert(remove_all(head, prefix) == remove_all(head.skip(prefix.len() as int), prefix));
    }
}

/// A successful outcome is shown as its formatted body under ` 200 OK`; an
/// error that reports no status is shown as it is under ` ERROR`; both with
/// the elapsed time in the status line.
pub proof fn lemma_outcome_shown(
    a: App,
    b: App,
    outcome: Result<Seq<char>, Seq<char>>,
    elapsed: Seq<char>,
)
    requires
        finish_step(a, b, outcome, elapsed),
    ensures
        outcome matches Ok(body) ==> b.tabs@[a.active_tab as int].response_text@ == shown_text(body)
            && b.tabs@[a.active_tab as int].status_info@ == " 200 OK  |  "@ + elapsed,
        outcome matches Err(e) ==> (!starts_with(e, "Status code "@) ==> b.tabs@[
            a.active_tab as int].response_text@ == e && b.tabs@[a.active_tab as int].status_info@
            == " ERROR  |  "@ + elapsed),
{
}

/// Scrolling moves the focused panel of the active tab and nothing else: Down
/// and `j` move it one line further (stopping at the largest position), Up
/// and `k` one line back (stopping at the top); the other panel's position,
/// the rest of the tab and the other tabs stay as they were.
pub proof fn lemma_scroll_moves_focused_panel(a: App, b: App, key: Key, c: Command)
    requires
        a.wf(),
        a.tabs.len() > 0,
        key == Key::Down || key == Key::Char('j') || key == Key::Up || key == Key::Char('k'),
        key_step(a, b, key, c),
    ensures
        ({
            let i = a.active_tab as int;
            let old = a.tabs@[i];
            let new = b.tabs@[i];
            let down = key == Key::Down || key == Key::Char('j');
            let focused_old: u16 = if a.active_panel == Panel::Response {
                old.response_scroll
            } else {
                old.request_scroll
            };
            let focused_new: u16 = if a.active_panel == Panel::Response {
                new.response_scroll
            } else {
                new.request_scroll
            };
            let other_old: u16 = if a.active_panel == Panel::Response {
                old.request_scroll
            } else {
                old.response_scroll
            };
            let other_new: u16 = if a.active_panel == Panel::Response {
                new.request_scroll
            } else {
                new.response_scroll
            };
            &&& c == Command::Nothing
            &&& down && focused_old < u16::MAX ==> focused_new == focused_old + 1
            &&& down && focused_old == u16::MAX ==> focused_new == u16::MAX
            &&& !down && focused_old > 0 ==> focused_new == focused_old - 1
            &&& !down && focused_old == 0 ==> focused_new == 0
            &&& other_new == other_old
            &&& new.tokens == old.tokens && new.is_loading == old.is_loading
            &&& new.response_text == old.response_text && new.status_info == old.status_info
            &&& b.tabs.len() == a.tabs.len()
            &&& forall|j: int| 0 <= j < a.tabs.len() && j != i ==> b.tabs@[j] == a.tabs@[j]
            &&& b.active_tab == a.active_tab && b.active_panel == a.active_panel
        }),
{
}

/// Pressing Tab twice gives the focus back to the panel that had it, and
/// changes nothing else.
pub proof fn lemma_tab_twice(a: App, b: App, c: App, c1: Command, c2: Command)
    requires
        key_step(a, b, Key::Tab, c1),
        key_step(b, c, Key::Tab, c2),
    ensures
        c.active_panel == a.active_panel,
        c.tabs@ == a.tabs@,
        c.active_tab == a.active_tab,
        c.should_quit == a.should_quit,
{
}

/// A digit key `d` from 1 to the number of tabs makes tab `d - 1` active;
/// any other digit leaves the active tab as it is.
pub proof fn lemma_digit_selects(a: App, b: App, ch: char, c: Command)
    requires
        key_step(a, b, Key::Char(ch), c),
        '0' <= ch <= '9',
    ensures
        b.tabs@ == a.tabs@,
        1 <= ch as int - '0' as int <= a.tabs.len() ==> b.active_tab == ch as int - '1' as int,
        !(1 <= ch as int - '0' as int <= a.tabs.len()) ==> b.active_tab == a.active_tab,
{
}

/// While a request is being sent, Enter sends nothing more: after an Enter
/// that sends, a second Enter changes nothing.
pub proof fn lemma_no_second_send(a: App, b: App, c: App, c2: Command)
    requires
        a.wf(),
        a.tabs.len() > 0,
        key_step(a, b, Key::Enter, Command::Send),
        key_step(b, c, Key::Enter, c2),
    ensures
        c2 == Command::Nothing,
        unchanged(b, c),
{
}

/// Scrolling down one line and then up one line comes back to the same place,
/// unless the scroll position was already at its largest value.
pub proof fn lemma_scroll_round_trip(t: RequestTab, p: Panel)
    requires
        p == Panel::Request ==> t.request_scroll < u16::MAX,
        p == Panel::Response ==> t.response_scroll < u16::MAX,
    ensures
        scrolled(scrolled(t, p, false), p, true) == t,
{
}

/// Reporting an outcome always ends the wait of the active tab, keeps its
/// request, shows the response from its top and focuses the response panel.
pub proof fn lemma_finish_ends_wait(
    a: App,
    b: App,
    outcome: Result<Seq<char>, Seq<char>>,
    elapsed: Seq<char>,
)
    requires
        a.wf(),
        a.tabs.len() > 0,
        finish_step(a, b, outcome, elapsed),
    ensures
        !b.tabs@[b.active_tab as int].is_loading,
        b.tabs@[b.active_tab as int].response_scroll == 0,
        b.tabs@[b.active_tab as int].tokens == a.tabs@[a.active_tab as int].tokens,
        b.active_panel == Panel::Response,
        b.tabs.len() == a.tabs.len(),
{
}

} // verus!
