//! Environment variables of `http-client.env.json` files and `{{name}}` substitution.
use vstd::prelude::*;
use crate::text::{chars_of, starts_with, starts_with_chars, slice_chars, string_of, trim, trim_chars};

verus! {

/// The map that a list of `(name, value)` pairs stands for: a later pair
/// overrides an earlier one with the same name.
pub open spec fn pairs_map(s: Seq<(Seq<char>, Seq<char>)>) -> Map<Seq<char>, Seq<char>>
    decreases s.len(),
{
    if s.len() == 0 {
        Map::empty()
    } else {
        pairs_map(s.drop_last()).insert(s.last().0, s.last().1)
    }
}

pub open spec fn string_pairs(v: Seq<(String, String)>) -> Seq<(Seq<char>, Seq<char>)> {
    v.map_values(|p: (String, String)| (p.0@, p.1@))
}

/// Variables by name, as `{{name}}` placeholders are resolved against them.
pub struct EnvVars {
    entries: Vec<(String, String)>,
}

impl View for EnvVars {
    type V = Map<Seq<char>, Seq<char>>;

    closed spec fn view(&self) -> Map<Seq<char>, Seq<char>> {
        pairs_map(string_pairs(self.entries@))
    }
}

pub proof fn lemma_pairs_map_absent(s: Seq<(Seq<char>, Seq<char>)>, k: Seq<char>)
    requires
        forall|m: int| 0 <= m < s.len() ==> #[trigger] s[m].0 != k,
    ensures
        !pairs_map(s).contains_key(k),
    decreases s.len(),
{
    if s.len() > 0 {
        lemma_pairs_map_absent(s.drop_last(), k);
    }
}

pub proof fn lemma_pairs_map_last(s: Seq<(Seq<char>, Seq<char>)>, k: Seq<char>, j: int)
    requires
        0 <= j < s.len(),
        s[j].0 == k,
        forall|m: int| j < m < s.len() ==> #[trigger] s[m].0 != k,
    ensures
        pairs_map(s).contains_key(k),
        pairs_map(s)[k] == s[j].1,
    decreases s.len(),
{
    if j < s.len() - 1 {
        lemma_pairs_map_last(s.drop_last(), k, j);
    }
}

pub proof fn lemma_pairs_map_concat(s: Seq<(Seq<char>, Seq<char>)>, t: Seq<(Seq<char>, Seq<char>)>)
    ensures
        pairs_map(s + t) == pairs_map(s).union_prefer_right(pairs_map(t)),
    decreases t.len(),
{
    if t.len() == 0 {
        assert(s + t =~= s);
        assert(pairs_map(s).union_prefer_right(pairs_map(t)) =~= pairs_map(s));
    } else {
        lemma_pairs_map_concat(s, t.drop_last());
        assert((s + t).drop_last() =~= s + t.drop_last());
        assert(pairs_map(s + t) =~= pairs_map(s).union_prefer_right(pairs_map(t)));
    }
}

impl EnvVars {
    /// No variables.
    pub fn new() -> (v: EnvVars)
        ensures
            v@ == Map::<Seq<char>, Seq<char>>::empty(),
    {
        EnvVars { entries: Vec::new() }
    }

    /// Sets `name` to `value`, replacing what it had.
    pub fn insert(&mut self, name: String, value: String)
        ensures
            final(self)@ == old(self)@.insert(name@, value@),
    {
        let ghost before = self.entries@;
        self.entries.push((name, value));
        assert(string_pairs(self.entries@).drop_last() =~= string_pairs(before));
    }

    /// The value of `name`, if it is set.
    pub fn get(&self, name: &str) -> (r: Option<&String>)
        ensures
            match r {
                Some(v) => self@.contains_key(name@) && self@[name@] == v@,
                None => !self@.contains_key(name@),
            },
    {
        let ghost s = string_pairs(self.entries@);
        let key = chars_of(name);
        let mut i: usize = self.entries.len();
        while i > 0
            invariant
                i <= self.entries.len(),
                s == string_pairs(self.entries@),
                key@ == name@,
                forall|m: int| i <= m < s.len() ==> #[trigger] s[m].0 != name@,
            decreases i,
        {
            let k = chars_of(self.entries[i - 1].0.as_str());
            if crate::text::chars_eq(&k, &key) {
                proof {
                    lemma_pairs_map_last(s, name@, i - 1);
                }
                return Some(&self.entries[i - 1].1);
            }
            i -= 1;
        }
        proof {
            lemma_pairs_map_absent(s, name@);
        }
        None
    }

    /// Whether no variable is set.
    pub fn is_empty(&self) -> (b: bool)
        ensures
            b == (self@ == Map::<Seq<char>, Seq<char>>::empty()),
    {
        let ghost s = string_pairs(self.entries@);
        if self.entries.len() == 0 {
            assert(self@ =~= Map::<Seq<char>, Seq<char>>::empty());
            true
        } else {
            assert(pairs_map(s).contains_key(s.last().0));
            assert(!Map::<Seq<char>, Seq<char>>::empty().contains_key(s.last().0));
            false
        }
    }

    /// Sets every variable of `other`, replacing the values of those set here.
    pub fn extend(&mut self, other: &EnvVars)
        ensures
            final(self)@ == old(self)@.union_prefer_right(other@),
    {
        let ghost before = string_pairs(self.entries@);
        let ghost added = string_pairs(other.entries@);
        let mut i: usize = 0;
        while i < other.entries.len()
            invariant
                i <= other.entries.len(),
                added == string_pairs(other.entries@),
                string_pairs(self.entries@) == before + added.take(i as int),
            decreases other.entries.len() - i,
        {
            let name = other.entries[i].0.clone();
            let value = other.entries[i].1.clone();
            let ghost prev = self.entries@;
            assert((name@, value@) == added[i as int]);
            self.entries.push((name, value));
            assert(self.entries@ == prev.push((name, value)));
            assert(string_pairs(self.entries@) =~= string_pairs(prev).push((name@, value@)));
            assert(added.take(i + 1) =~= added.take(i as int).push(added[i as int]));
            assert(string_pairs(self.entries@) =~= before + added.take(i + 1));
            i += 1;
        }
        assert(added.take(other.entries.len() as int) =~= added);
        proof {
            lemma_pairs_map_concat(before, added);
        }
    }
}

/// A parsed environment file: each environment's name with its variables,
/// every value already turned into text.
pub struct EnvFile {
    pub environments: Vec<(String, Vec<(String, String)>)>,
}

/// The variables of `environment` in a file given as its environments; a
/// later environment of the same name wins.
pub open spec fn environment_vars(
    envs: Seq<(Seq<char>, Seq<(Seq<char>, Seq<char>)>)>,
    environment: Seq<char>,
) -> Map<Seq<char>, Seq<char>>
    decreases envs.len(),
{
    if envs.len() == 0 {
        Map::empty()
    } else if envs.last().0 == environment {
        pairs_map(envs.last().1)
    } else {
        environment_vars(envs.drop_last(), environment)
    }
}

impl View for EnvFile {
    type V = Seq<(Seq<char>, Seq<(Seq<char>, Seq<char>)>)>;

    open spec fn view(&self) -> Self::V {
        self.environments@.map_values(
            |e: (String, Vec<(String, String)>)| (e.0@, string_pairs(e.1@)),
        )
    }
}

/// What `serde_json` reads from the text of an environment file, a JSON
/// object of environments each holding an object of variables: for each
/// environment its variables, a string value as its text and any other value
/// as its JSON text; no environment at all where the text is not of that shape.
pub uninterp spec fn env_json(content: Seq<char>) -> Map<Seq<char>, Map<Seq<char>, Seq<char>>>;

/// The variables of `environment` in the environment file with text
/// `content`; none where the file could not be read.
pub open spec fn file_vars(content: Option<&str>, environment: Seq<char>) -> Map<Seq<char>, Seq<char>> {
    match content {
        Some(c) => if env_json(c@).contains_key(environment) {
            env_json(c@)[environment]
        } else {
            Map::empty()
        },
        None => Map::empty(),
    }
}

/// The variables loaded for `environment`: those of the base file, and, when
/// `use_private` holds, those of the private file over them.
pub open spec fn loaded_vars(
    base: Option<&str>,
    private: Option<&str>,
    environment: Seq<char>,
    use_private: bool,
) -> Map<Seq<char>, Seq<char>> {
    if use_private {
        file_vars(base, environment).union_prefer_right(file_vars(private, environment))
    } else {
        file_vars(base, environment)
    }
}

/// Parses the text of an environment file with `serde_json::from_str` into a
/// map from environment names to maps from variable names to
/// `serde_json::Value`s, an empty one where it does not parse, and turns each
/// string value into its text and each other value into its JSON text with
/// `Value`'s `to_string`. Claimed: the variables of each environment of the
/// result are those [`env_json`] gives for the text, a function of the text alone.
#[verifier::external_body]
fn parse_env_file(content: &str) -> (r: EnvFile)
    ensures
        forall|e: Seq<char>|
            #[trigger] environment_vars(r@, e) == (if env_json(content@).contains_key(e) {
                env_json(content@)[e]
            } else {
                Map::empty()
            }),
{
    let envs: std::collections::HashMap<String, std::collections::HashMap<String, serde_json::Value>> =
        serde_json::from_str(content).unwrap_or_default();
    let environments = envs.into_iter().map(|(name, vars)| {
        let vars = vars.into_iter().map(|(k, v)| match v {
            serde_json::Value::String(s) => (k, s),
            other => (k, other.to_string()),
        }).collect();
        (name, vars)
    }).collect();
    EnvFile { environments }
}

impl EnvFile {
    /// The variables of one environment of this file; none if it has no such environment.
    pub fn select(&self, environment: &str) -> (r: EnvVars)
        ensures
            r@ == environment_vars(self@, environment@),
    {
        let ghost envs = self@;
        let key = chars_of(environment);
        let mut i: usize = self.environments.len();
        assert(envs.take(i as int) =~= envs);
        while i > 0
            invariant
                i <= self.environments.len(),
                envs == self@,
                key@ == environment@,
                environment_vars(envs, environment@) == environment_vars(envs.take(i as int), environment@),
            decreases i,
        {
            assert(envs.take(i as int).drop_last() =~= envs.take(i - 1));
            let name = chars_of(self.environments[i - 1].0.as_str());
            if crate::text::chars_eq(&name, &key) {
                let mut vars = EnvVars::new();
                let values = &self.environments[i - 1].1;
                let mut j: usize = 0;
                while j < values.len()
                    invariant
                        j <= values.len(),
                        vars@ == pairs_map(string_pairs(values@).take(j as int)),
                    decreases values.len() - j,
                {
                    vars.insert(values[j].0.clone(), values[j].1.clone());
                    assert(string_pairs(values@).take(j + 1).drop_last() =~= string_pairs(values@).take(j as int));
                    j += 1;
                }
                assert(string_pairs(values@).take(values.len() as int) =~= string_pairs(values@));
                return vars;
            }
            i -= 1;
        }
        EnvVars::new()
    }
}

/// The variables for `environment`, given the text of the base environment
/// file and of the private one (`None` for a file that could not be read):
/// those of the base file, and, when `use_private` holds, those of the
/// private file over them. A text that does not parse gives no variables.
pub fn load_env_vars(
    base: Option<&str>,
    private: Option<&str>,
    environment: &str,
    use_private: bool,
) -> (r: EnvVars)
    ensures
        r@ == loaded_vars(base, private, environment@, use_private),
{
    let mut vars = match base {
        Some(c) => parse_env_file(c).select(environment),
        None => EnvVars::new(),
    };
    if use_private {
        let private_vars = match private {
            Some(c) => parse_env_file(c).select(environment),
            None => EnvVars::new(),
        };
        vars.extend(&private_vars);
    }
    vars
}


/// The grammar of a placeholder, as a regular expression anchored at the
/// start of the text: `{{`, a name of word characters and `-` with optional
/// whitespace around it (the group), and `}}`.
pub open spec fn placeholder_pattern_spec() -> Seq<char> {
    "^\\{\\{(\\s*[\\w\\-]+\\s*)\\}\\}"@
}

/// The placeholder pattern, as handed to the regular-expression engine.
pub fn placeholder_pattern() -> (p: &'static str)
    ensures
        p@ == placeholder_pattern_spec(),
{
    "^\\{\\{(\\s*[\\w\\-]+\\s*)\\}\\}"
}

/// What the `regex` crate finds when it matches `pattern` against `text`: the
/// text of the first match and the text of its first group, or nothing.
pub uninterp spec fn regex_capture_result(pattern: Seq<char>, text: Seq<char>) -> Option<(Seq<char>, Seq<char>)>;

/// Matches `pattern` against `text` with the `regex` crate (`Regex::new`, then
/// `Regex::captures`, whole match and group 1). Claimed: the result is
/// [`regex_capture_result`] of the two arguments, a function of them alone.
/// Only the placeholder pattern is admitted: it compiles, and its one group
/// takes part in every match, so neither the compile nor the group lookup panics.
#[verifier::external_body]
fn regex_capture(pattern: &str, text: &str) -> (r: Option<(String, String)>)
    requires
        pattern@ == placeholder_pattern_spec(),
    ensures
        match r {
            Some(p) => regex_capture_result(pattern@, text@) == Some((p.0@, p.1@)),
            None => regex_capture_result(pattern@, text@) is None,
        },
{
    let re = regex::Regex::new(pattern).unwrap();
    match re.captures(text) {
        Some(c) => Some((c[0].to_string(), c[1].to_string())),
        None => None,
    }
}

/// The placeholder that starts `s`, if any: its text and its inner text.
pub open spec fn capture_at(s: Seq<char>) -> Option<(Seq<char>, Seq<char>)> {
    if starts_with(s, "{{"@) {
        match regex_capture_result(placeholder_pattern_spec(), s) {
            Some(p) => if p.0.len() > 0 && starts_with(s, p.0) {
                Some(p)
            } else {
                None
            },
            None => None,
        }
    } else {
        None
    }
}

/// What a placeholder is replaced by: the value of the variable named by its
/// trimmed inner text, or the placeholder itself when there is no such variable.
pub open spec fn resolve(whole: Seq<char>, inner: Seq<char>, vars: Map<Seq<char>, Seq<char>>) -> Seq<char> {
    let name = trim(inner);
    if vars.contains_key(name) {
        vars[name]
    } else {
        whole
    }
}

/// `s` with each placeholder, from left to right, replaced by what it resolves to.
pub open spec fn substituted(s: Seq<char>, vars: Map<Seq<char>, Seq<char>>) -> Seq<char>
    decreases s.len(),
{
    if s.len() == 0 {
        seq![]
    } else {
        match capture_at(s) {
            Some(p) => resolve(p.0, p.1, vars) + substituted(s.skip(p.0.len() as int), vars),
            None => seq![s[0]] + substituted(s.drop_first(), vars),
        }
    }
}

/// What the placeholder `whole`, with inner text `inner`, is replaced by.
pub fn resolve_placeholder(whole: &String, inner: &String, vars: &EnvVars) -> (r: String)
    ensures
        r@ == resolve(whole@, inner@, vars@),
{
    let name = string_of(&trim_chars(&chars_of(inner.as_str())));
    match vars.get(name.as_str()) {
        Some(v) => v.clone(),
        None => whole.clone(),
    }
}

/// Replaces each `{{name}}` placeholder of `input` with the value of the
/// variable `name`, leaving those that name no variable as they are.
pub fn substitute(input: &str, vars: &EnvVars) -> (r: String)
    ensures
        r@ == substituted(input@, vars@),
{
    let cs = chars_of(input);
    let open = chars_of("{{");
    let mut out: Vec<char> = Vec::new();
    let mut i: usize = 0;
    assert(cs@.skip(0) =~= cs@);
    assert(out@ + substituted(cs@, vars@) =~= substituted(cs@, vars@));
    while i < cs.len()
        invariant
            i <= cs.len(),
            cs@ == input@,
            open@ == "{{"@,
            substituted(input@, vars@) == out@ + substituted(cs@.skip(i as int), vars@),
        decreases cs.len() - i,
    {
        let rest = slice_chars(&cs, i, cs.len());
        assert(rest@ =~= cs@.skip(i as int));
        let mut step: usize = 0;
        if starts_with_chars(&rest, &open) {
            let rest_text = string_of(&rest);
            match regex_capture(placeholder_pattern(), rest_text.as_str()) {
                Some(p) => {
                    let whole = chars_of(p.0.as_str());
                    if whole.len() > 0 && starts_with_chars(&rest, &whole) {
                        let value = resolve_placeholder(&p.0, &p.1, vars);
                        let mut vc = chars_of(value.as_str());
                        let ghost before = out@;
                        out.append(&mut vc);
                        assert(out@ == before + resolve(p.0@, p.1@, vars@));
                        assert(cs@.skip(i as int).skip(whole.len() as int) =~= cs@.skip(i + whole.len()));
                        step = whole.len();
                    }
                },
                None => {},
            }
        }
        if step == 0 {
            assert(capture_at(rest@) is None);
            out.push(cs[i]);
            assert(cs@.skip(i as int).drop_first() =~= cs@.skip(i + 1));
            assert(substituted(input@, vars@) =~= out@ + substituted(cs@.skip(i + 1), vars@));
            i += 1;
        } else {
            i += step;
        }
    }
    assert(cs@.skip(i as int) =~= Seq::<char>::empty());
    assert(out@ + seq![] =~= out@);
    string_of(&out)
}

/// `a` ends outside any placeholder when followed by `b`: what is found at each
/// position of `a` does not depend on what follows `a`, and no placeholder
/// found there reaches past the end of `a`.
pub open spec fn ends_outside_placeholder(a: Seq<char>, b: Seq<char>) -> bool {
    forall|k: int|
        0 <= k < a.len() ==> {
            &&& #[trigger] capture_at((a + b).skip(k)) == capture_at(a.skip(k))
            &&& (capture_at(a.skip(k)) matches Some(p) ==> k + p.0.len() <= a.len())
        }
}

/// Substitution is local to each placeholder: text split where no placeholder
/// crosses the split is substituted part by part. So an unresolved placeholder
/// never stops the substitution of what follows it, and a known variable's
/// placeholder is replaced wherever it stands.
pub proof fn lemma_substitute_concat(a: Seq<char>, b: Seq<char>, vars: Map<Seq<char>, Seq<char>>)
    requires
        ends_outside_placeholder(a, b),
    ensures
        substituted(a + b, vars) == substituted(a, vars) + substituted(b, vars),
    decreases a.len(),
{
    if a.len() == 0 {
        assert(a + b =~= b);
        assert(substituted(a, vars) =~= Seq::<char>::empty());
        assert(substituted(a, vars) + substituted(b, vars) =~= substituted(b, vars));
    } else {
        assert((a + b).skip(0) =~= a + b);
        assert(a.skip(0) =~= a);
        assert(capture_at((a + b).skip(0)) == capture_at(a.skip(0)));
        let len: int = match capture_at(a) {
            Some(p) => p.0.len() as int,
            None => 1,
        };
        assert(0 < len <= a.len());
        let rest = a.skip(len);
        assert((a + b).skip(len) =~= rest + b);
        assert forall|k: int| 0 <= k < rest.len() implies {
            &&& #[trigger] capture_at((rest + b).skip(k)) == capture_at(rest.skip(k))
            &&& (capture_at(rest.skip(k)) matches Some(p) ==> k + p.0.len() <= rest.len())
        } by {
            assert((rest + b).skip(k) =~= (a + b).skip(len + k));
            assert(rest.skip(k) =~= a.skip(len + k));
            assert(capture_at((a + b).skip(len + k)) == capture_at(a.skip(len + k)));
        }
        lemma_substitute_concat(rest, b, vars);
        match capture_at(a) {
            Some(p) => {
                let r = resolve(p.0, p.1, vars);
                assert(substituted(a + b, vars) == r + substituted(rest + b, vars));
                assert(substituted(a, vars) == r + substituted(rest, vars));
                assert(r + (substituted(rest, vars) + substituted(b, vars)) =~= (r + substituted(
                    rest,
                    vars,
                )) + substituted(b, vars));
            },
            None => {
                assert((a + b).drop_first() =~= rest + b);
                assert(a.drop_first() =~= rest);
                assert((a + b)[0] == a[0]);
                let c = seq![a[0]];
                assert(c + (substituted(rest, vars) + substituted(b, vars)) =~= (c + substituted(
                    rest,
                    vars,
                )) + substituted(b, vars));
            },
        }
    }
}

/// A placeholder at the start of the text is replaced by the value of the
/// variable its trimmed inner text names, or kept as written when there is no
/// such variable; either way substitution goes on right after it.
pub proof fn lemma_substitute_placeholder(s: Seq<char>, vars: Map<Seq<char>, Seq<char>>)
    requires
        capture_at(s) is Some,
    ensures
        ({
            let p = capture_at(s)->0;
            let name = trim(p.1);
            &&& s == p.0 + s.skip(p.0.len() as int)
            &&& vars.contains_key(name) ==> substituted(s, vars) == vars[name] + substituted(
                s.skip(p.0.len() as int),
                vars,
            )
            &&& !vars.contains_key(name) ==> substituted(s, vars) == p.0 + substituted(
                s.skip(p.0.len() as int),
                vars,
            )
        }),
{
    let p = capture_at(s)->0;
    assert(s =~= s.take(p.0.len() as int) + s.skip(p.0.len() as int));
}

/// Text that holds no `{{` is left as it is by substitution.
pub proof fn lemma_substitute_without_braces(s: Seq<char>, vars: Map<Seq<char>, Seq<char>>)
    requires
        !crate::text::contains(s, "{{"@),
    ensures
        substituted(s, vars) == s,
    decreases s.len(),
{
    if s.len() > 0 {
        reveal_strlit("{{");
        let p = "{{"@;
        assert(p.len() == 2);
        if starts_with(s, p) {
            assert(s.subrange(0, 0 + p.len() as int) =~= s.take(2));
            assert(crate::text::contains(s, p));
        }
        assert(!crate::text::contains(s.drop_first(), p)) by {
            if crate::text::contains(s.drop_first(), p) {
                let t = s.drop_first();
                let i = choose|i: int| 0 <= i && i + p.len() <= t.len() && #[trigger] t.subrange(i, i + p.len()) == p;
                assert(s.subrange(i + 1, (i + 1) + p.len()) =~= t.subrange(i, i + p.len()));
                assert(crate::text::contains(s, p));
            }
        }
        lemma_substitute_without_braces(s.drop_first(), vars);
        assert(s =~= seq![s[0]] + s.drop_first());
    }
}

/// Substituting leaves text unchanged when none of its placeholders names a
/// variable: unresolved placeholders stay as written.
pub proof fn lemma_substitute_unknown(s: Seq<char>, vars: Map<Seq<char>, Seq<char>>)
    requires
        forall|i: int|
            0 <= i <= s.len() ==> match #[trigger] capture_at(s.skip(i)) {
                Some(p) => !vars.contains_key(trim(p.1)),
                None => true,
            },
    ensures
        substituted(s, vars) == s,
    decreases s.len(),
{
    if s.len() > 0 {
        assert(s.skip(0) =~= s);
        match capture_at(s) {
            Some(p) => {
                let n = p.0.len() as int;
                assert forall|i: int| 0 <= i <= s.skip(n).len() implies match #[trigger] capture_at(
                    s.skip(n).skip(i),
                ) {
                    Some(q) => !vars.contains_key(trim(q.1)),
                    None => true,
                } by {
                    assert(s.skip(n).skip(i) =~= s.skip(n + i));
                }
                lemma_substitute_unknown(s.skip(n), vars);
                assert(s =~= p.0 + s.skip(n));
            },
            None => {
                assert forall|i: int| 0 <= i <= s.drop_first().len() implies match #[trigger] capture_at(
                    s.drop_first().skip(i),
                ) {
                    Some(q) => !vars.contains_key(trim(q.1)),
                    None => true,
                } by {
                    assert(s.drop_first().skip(i) =~= s.skip(1 + i));
                }
                lemma_substitute_unknown(s.drop_first(), vars);
                assert(s =~= seq![s[0]] + s.drop_first());
            },
        }
    }
}

/// With no variables at all, substitution changes nothing.
pub proof fn lemma_substitute_no_vars(s: Seq<char>)
    ensures
        substituted(s, Map::empty()) == s,
{
    lemma_substitute_unknown(s, Map::empty());
}


/// With private variables loaded, a private variable wins over a base one of
/// the same name, and a base variable that the private file does not set is
/// kept; without them, the private file is not read.
pub proof fn lemma_private_overrides_base(
    base: Option<&str>,
    private: Option<&str>,
    environment: Seq<char>,
    name: Seq<char>,
)
    ensures
        ({
            let b = file_vars(base, environment);
            let p = file_vars(private, environment);
            let r = loaded_vars(base, private, environment, true);
            &&& p.contains_key(name) ==> r.contains_key(name) && r[name] == p[name]
            &&& !p.contains_key(name) && b.contains_key(name) ==> r.contains_key(name) && r[name]
                == b[name]
            &&& !p.contains_key(name) && !b.contains_key(name) ==> !r.contains_key(name)
        }),
        loaded_vars(base, private, environment, false) == file_vars(base, environment),
{
}

/// Reading a variable gives back what was last written to it.
pub proof fn lemma_insert_then_get(
    vars: Map<Seq<char>, Seq<char>>,
    name: Seq<char>,
    value: Seq<char>,
    other: Seq<char>,
)
    ensures
        vars.insert(name, value).contains_key(name),
        vars.insert(name, value)[name] == value,
        other != name ==> (vars.insert(name, value).contains_key(other) == vars.contains_key(other)),
        other != name && vars.contains_key(other) ==> vars.insert(name, value)[other] == vars[other],
{
}

} // verus!
