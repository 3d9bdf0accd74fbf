//! Character-level text handling: whitespace, trimming, words, lines.
use vstd::prelude::*;

verus! {

/// Unicode `White_Space`, the set that `char::is_whitespace` and `str::trim` use.
pub open spec fn is_ws(c: char) -> bool {
    let u = c as u32;
    ||| 0x9 <= u <= 0xD
    ||| u == 0x20
    ||| u == 0x85
    ||| u == 0xA0
    ||| u == 0x1680
    ||| 0x2000 <= u <= 0x200A
    ||| u == 0x2028
    ||| u == 0x2029
    ||| u == 0x202F
    ||| u == 0x205F
    ||| u == 0x3000
}

pub open spec fn ws_pred() -> spec_fn(char) -> bool {
    |c: char| is_ws(c)
}

pub open spec fn non_ws_pred() -> spec_fn(char) -> bool {
    |c: char| !is_ws(c)
}

pub open spec fn char_pred(x: char) -> spec_fn(char) -> bool {
    |c: char| c == x
}

/// The least index `j >= i` at which `p` holds, or `s.len()` when there is none.
pub open spec fn find_from<A>(s: Seq<A>, p: spec_fn(A) -> bool, i: int) -> int
    decreases s.len() - i,
{
    if i >= s.len() {
        s.len() as int
    } else if p(s[i]) {
        i
    } else {
        find_from(s, p, i + 1)
    }
}

/// Walking back from `j` (exclusive) while `p` holds, but not below `lo`.
pub open spec fn back_from<A>(s: Seq<A>, p: spec_fn(A) -> bool, lo: int, j: int) -> int
    decreases j - lo,
{
    if j <= lo {
        lo
    } else if p(s[j - 1]) {
        back_from(s, p, lo, j - 1)
    } else {
        j
    }
}

pub proof fn lemma_find_from<A>(s: Seq<A>, p: spec_fn(A) -> bool, i: int, j: int)
    requires
        0 <= i <= j <= s.len(),
        forall|k: int| i <= k < j ==> !p(#[trigger] s[k]),
        j == s.len() || p(s[j]),
    ensures
        find_from(s, p, i) == j,
    decreases j - i,
{
    if i < j {
        lemma_find_from(s, p, i + 1, j);
    }
}

pub proof fn lemma_find_from_bounds<A>(s: Seq<A>, p: spec_fn(A) -> bool, i: int)
    requires
        0 <= i <= s.len(),
    ensures
        i <= find_from(s, p, i) <= s.len(),
        find_from(s, p, i) < s.len() ==> p(s[find_from(s, p, i)]),
        forall|k: int| i <= k < find_from(s, p, i) ==> !p(#[trigger] s[k]),
    decreases s.len() - i,
{
    if i < s.len() && !p(s[i]) {
        lemma_find_from_bounds(s, p, i + 1);
    }
}

pub proof fn lemma_back_from<A>(s: Seq<A>, p: spec_fn(A) -> bool, lo: int, j: int, k: int)
    requires
        0 <= lo <= k <= j <= s.len(),
        forall|m: int| k <= m < j ==> p(#[trigger] s[m]),
        k == lo || !p(s[k - 1]),
    ensures
        back_from(s, p, lo, j) == k,
    decreases j - k,
{
    if k < j {
        lemma_back_from(s, p, lo, j - 1, k);
    }
}

/// `s` with the leading and trailing whitespace removed, as `str::trim` does.
pub open spec fn trim(s: Seq<char>) -> Seq<char> {
    let a = find_from(s, non_ws_pred(), 0);
    s.subrange(a, back_from(s, ws_pred(), a, s.len() as int))
}

pub open spec fn starts_with(s: Seq<char>, p: Seq<char>) -> bool {
    p.len() <= s.len() && s.take(p.len() as int) == p
}

pub open spec fn contains(s: Seq<char>, p: Seq<char>) -> bool {
    exists|i: int| 0 <= i && i + p.len() <= s.len() && #[trigger] s.subrange(i, i + p.len()) == p
}


/// The whitespace-separated words of `s` from index `i` on, as `str::split_whitespace` yields them.
pub open spec fn words_from(s: Seq<char>, i: int) -> Seq<Seq<char>>
    decreases s.len() - i,
{
    if i < 0 || i >= s.len() {
        seq![]
    } else {
        let a = find_from(s, non_ws_pred(), i);
        if a >= s.len() {
            seq![]
        } else {
            let e = find_from(s, ws_pred(), a);
            proof {
                lemma_find_from_bounds(s, non_ws_pred(), i);
                lemma_find_from_bounds(s, ws_pred(), a + 1);
            }
            seq![s.subrange(a, e)] + words_from(s, e)
        }
    }
}

/// The character sequences held by a vector of character vectors.
pub open spec fn views(v: Seq<Vec<char>>) -> Seq<Seq<char>> {
    v.map_values(|l: Vec<char>| l@)
}

pub open spec fn words(s: Seq<char>) -> Seq<Seq<char>> {
    words_from(s, 0)
}

/// `t` without one trailing carriage return.
pub open spec fn strip_cr(t: Seq<char>) -> Seq<char> {
    if t.len() > 0 && t.last() == '\r' {
        t.drop_last()
    } else {
        t
    }
}

/// The lines of `s` as `str::lines` and `BufRead::lines` yield them: split at
/// `\n`, a `\r` before the `\n` dropped, and no empty line after a final `\n`.
pub open spec fn lines(s: Seq<char>) -> Seq<Seq<char>>
    decreases s.len(),
{
    if s.len() == 0 {
        seq![]
    } else {
        let j = find_from(s, char_pred('\n'), 0);
        if j >= s.len() {
            seq![s]
        } else {
            proof {
                lemma_find_from_bounds(s, char_pred('\n'), 0);
            }
            seq![strip_cr(s.take(j))] + lines(s.skip(j + 1))
        }
    }
}


/// The number of bytes of `c` in UTF-8 (`char::len_utf8`).
pub open spec fn char_width(c: char) -> nat {
    let u = c as u32;
    if u < 0x80 {
        1
    } else if u < 0x800 {
        2
    } else if u < 0x10000 {
        3
    } else {
        4
    }
}

/// The number of bytes of `s` in UTF-8 (`str::len`).
pub open spec fn byte_len(s: Seq<char>) -> nat
    decreases s.len(),
{
    if s.len() == 0 {
        0
    } else {
        byte_len(s.drop_last()) + char_width(s.last())
    }
}

/// Byte `n` of `s` falls between two characters (`str::is_char_boundary`).
pub open spec fn is_boundary(s: Seq<char>, n: int) -> bool {
    exists|k: int| 0 <= k <= s.len() && #[trigger] byte_len(s.take(k)) == n
}

/// The first `n` bytes of `s`, where `n` is a boundary (`&s[..n]`).
pub open spec fn take_bytes(s: Seq<char>, n: int) -> Seq<char> {
    s.take(choose|k: int| 0 <= k <= s.len() && #[trigger] byte_len(s.take(k)) == n)
}

/// `s` without any number of leading copies of `p` (`str::trim_start_matches`).
pub open spec fn strip_prefixes(s: Seq<char>, p: Seq<char>) -> Seq<char>
    decreases s.len(),
{
    if p.len() > 0 && starts_with(s, p) {
        strip_prefixes(s.skip(p.len() as int), p)
    } else {
        s
    }
}

/// `s` with every occurrence of `p`, from left to right, removed (`str::replace(p, "")`).
pub open spec fn remove_all(s: Seq<char>, p: Seq<char>) -> Seq<char>
    decreases s.len(),
{
    if s.len() == 0 {
        seq![]
    } else if p.len() > 0 && starts_with(s, p) {
        remove_all(s.skip(p.len() as int), p)
    } else {
        seq![s[0]] + remove_all(s.drop_first(), p)
    }
}

/// The index of the first occurrence of `p` in `s`, or `s.len()` when there is none.
pub open spec fn find_pattern(s: Seq<char>, p: Seq<char>, i: int) -> int
    decreases s.len() + 1 - i,
{
    if i < 0 || i + p.len() > s.len() {
        s.len() as int
    } else if s.subrange(i, i + p.len()) == p {
        i
    } else {
        find_pattern(s, p, i + 1)
    }
}

pub proof fn lemma_find_pattern_fits(s: Seq<char>, p: Seq<char>, i: int)
    requires
        0 <= i,
    ensures
        find_pattern(s, p, i) < s.len() ==> find_pattern(s, p, i) + p.len() <= s.len()
            && find_pattern(s, p, i) >= i,
    decreases s.len() + 1 - i,
{
    if !(i + p.len() > s.len()) && s.subrange(i, i + p.len()) != p {
        lemma_find_pattern_fits(s, p, i + 1);
    }
}

/// Trimming text made of whitespace, then `x`, then whitespace gives `x`,
/// when `x` neither starts nor ends with whitespace.
pub proof fn lemma_trim_padded(pre: Seq<char>, x: Seq<char>, post: Seq<char>)
    requires
        forall|k: int| 0 <= k < pre.len() ==> is_ws(#[trigger] pre[k]),
        forall|k: int| 0 <= k < post.len() ==> is_ws(#[trigger] post[k]),
        x.len() > 0 ==> !is_ws(x[0]) && !is_ws(x.last()),
    ensures
        trim(pre + x + post) == x,
{
    let s = pre + x + post;
    let n = s.len() as int;
    if x.len() == 0 {
        assert forall|k: int| 0 <= k < n implies !non_ws_pred()(#[trigger] s[k]) by {
            if k < pre.len() {
                assert(s[k] == pre[k]);
            } else {
                assert(s[k] == post[k - pre.len()]);
            }
        }
        lemma_find_from(s, non_ws_pred(), 0, n);
        assert(s.subrange(n, n) =~= x);
    } else {
        let a = pre.len() as int;
        let e = a + x.len();
        assert forall|k: int| 0 <= k < a implies !non_ws_pred()(#[trigger] s[k]) by {
            assert(s[k] == pre[k]);
        }
        assert(s[a] == x[0]);
        lemma_find_from(s, non_ws_pred(), 0, a);
        assert forall|m: int| e <= m < n implies ws_pred()(#[trigger] s[m]) by {
            assert(s[m] == post[m - e]);
        }
        assert(s[e - 1] == x.last());
        lemma_back_from(s, ws_pred(), a, n, e);
        assert(s.subrange(a, e) =~= x);
    }
}

/// The first occurrence of `p` at or after `i` is at `j` when `p` occurs at
/// `j` and nowhere from `i` to before `j`.
pub proof fn lemma_find_pattern_at(s: Seq<char>, p: Seq<char>, i: int, j: int)
    requires
        0 <= i <= j,
        j + p.len() <= s.len(),
        s.subrange(j, j + p.len()) == p,
        forall|k: int| i <= k < j ==> #[trigger] s.subrange(k, k + p.len()) != p,
    ensures
        find_pattern(s, p, i) == j,
    decreases j - i,
{
    if i < j {
        assert(s.subrange(i, i + p.len()) != p);
        lemma_find_pattern_at(s, p, i + 1, j);
    }
}

/// Removing every occurrence of `p` from text that holds none leaves it as it is.
pub proof fn lemma_remove_all_absent(s: Seq<char>, p: Seq<char>)
    requires
        p.len() > 0,
        forall|k: int| 0 <= k <= s.len() ==> !starts_with(#[trigger] s.skip(k), p),
    ensures
        remove_all(s, p) == s,
    decreases s.len(),
{
    if s.len() > 0 {
        assert(s.skip(0) =~= s);
        assert forall|k: int| 0 <= k <= s.drop_first().len() implies !starts_with(
            #[trigger] s.drop_first().skip(k),
            p,
        ) by {
            assert(s.drop_first().skip(k) =~= s.skip(k + 1));
        }
        lemma_remove_all_absent(s.drop_first(), p);
        assert(seq![s[0]] + s.drop_first() =~= s);
    }
}

pub proof fn lemma_byte_len_take(s: Seq<char>, k: int)
    requires
        0 <= k < s.len(),
    ensures
        byte_len(s.take(k + 1)) == byte_len(s.take(k)) + char_width(s[k]),
{
    assert(s.take(k + 1).drop_last() =~= s.take(k));
}

pub proof fn lemma_byte_len_mono(s: Seq<char>, a: int, b: int)
    requires
        0 <= a < b <= s.len(),
    ensures
        byte_len(s.take(a)) < byte_len(s.take(b)),
    decreases b - a,
{
    lemma_byte_len_take(s, b - 1);
    if a < b - 1 {
        lemma_byte_len_mono(s, a, b - 1);
    }
}

pub proof fn lemma_take_bytes(s: Seq<char>, k: int)
    requires
        0 <= k <= s.len(),
    ensures
        is_boundary(s, byte_len(s.take(k)) as int),
        take_bytes(s, byte_len(s.take(k)) as int) == s.take(k),
{
    let n = byte_len(s.take(k)) as int;
    assert(0 <= k <= s.len() && byte_len(s.take(k)) == n);
    let c = choose|c: int| 0 <= c <= s.len() && #[trigger] byte_len(s.take(c)) == n;
    if c < k {
        lemma_byte_len_mono(s, c, k);
    }
    if k < c {
        lemma_byte_len_mono(s, k, c);
    }
}

pub fn char_is_ws(c: char) -> (b: bool)
    ensures
        b == is_ws(c),
{
    let u: u32 = c as u32;
    (0x9 <= u && u <= 0xD) || u == 0x20 || u == 0x85 || u == 0xA0 || u == 0x1680 || (0x2000 <= u
        && u <= 0x200A) || u == 0x2028 || u == 0x2029 || u == 0x202F || u == 0x205F || u == 0x3000
}

/// The characters of a string slice, in order.
pub fn chars_of(s: &str) -> (v: Vec<char>)
    ensures
        v@ == s@,
{
    let mut v: Vec<char> = Vec::new();
    for c in it: s.chars()
        invariant
            v@ == it.seq().take(it.index() as int),
            it.seq() == s@,
    {
        v.push(c);
    }
    v
}

/// Appends one character to a `String` (`String::push`).
#[verifier::external_body]
fn push_char(s: &mut String, c: char)
    ensures
        final(s)@ == old(s)@.push(c),
{
    s.push(c);
}

/// A `String` holding exactly the given characters.
pub fn string_of(v: &Vec<char>) -> (s: String)
    ensures
        s@ == v@,
{
    let mut s = String::new();
    for i in 0..v.len()
        invariant
            s@ == v@.take(i as int),
    {
        push_char(&mut s, v[i]);
        assert(v@.take(i + 1) =~= v@.take(i as int).push(v@[i as int]));
    }
    assert(v@.take(v.len() as int) =~= v@);
    s
}

/// The characters `v[lo..hi]` as a new vector.
pub fn slice_chars(v: &Vec<char>, lo: usize, hi: usize) -> (r: Vec<char>)
    requires
        lo <= hi <= v.len(),
    ensures
        r@ == v@.subrange(lo as int, hi as int),
{
    let mut r: Vec<char> = Vec::new();
    let mut i: usize = lo;
    while i < hi
        invariant
            lo <= i <= hi <= v.len(),
            r@ == v@.subrange(lo as int, i as int),
        decreases hi - i,
    {
        r.push(v[i]);
        assert(v@.subrange(lo as int, i + 1) =~= v@.subrange(lo as int, i as int).push(v@[i as int]));
        i += 1;
    }
    r
}

/// Whether two character vectors are equal.
pub fn chars_eq(a: &Vec<char>, b: &Vec<char>) -> (r: bool)
    ensures
        r == (a@ == b@),
{
    if a.len() != b.len() {
        return false;
    }
    let mut i: usize = 0;
    while i < a.len()
        invariant
            a.len() == b.len(),
            0 <= i <= a.len(),
            forall|k: int| 0 <= k < i ==> a@[k] == b@[k],
        decreases a.len() - i,
    {
        if a[i] != b[i] {
            return false;
        }
        i += 1;
    }
    assert(a@ =~= b@);
    true
}

/// The index of the first non-whitespace character at or after `i`.
pub fn skip_ws(v: &Vec<char>, i: usize) -> (j: usize)
    requires
        i <= v.len(),
    ensures
        j == find_from(v@, non_ws_pred(), i as int),
{
    let mut j: usize = i;
    while j < v.len() && char_is_ws(v[j])
        invariant
            i <= j <= v.len(),
            forall|k: int| i <= k < j ==> is_ws(#[trigger] v@[k]),
        decreases v.len() - j,
    {
        j += 1;
    }
    proof {
        lemma_find_from(v@, non_ws_pred(), i as int, j as int);
    }
    j
}

/// The index of the first whitespace character at or after `i`.
pub fn skip_non_ws(v: &Vec<char>, i: usize) -> (j: usize)
    requires
        i <= v.len(),
    ensures
        j == find_from(v@, ws_pred(), i as int),
{
    let mut j: usize = i;
    while j < v.len() && !char_is_ws(v[j])
        invariant
            i <= j <= v.len(),
            forall|k: int| i <= k < j ==> !is_ws(#[trigger] v@[k]),
        decreases v.len() - j,
    {
        j += 1;
    }
    proof {
        lemma_find_from(v@, ws_pred(), i as int, j as int);
    }
    j
}

/// `v` with leading and trailing whitespace removed.
pub fn trim_chars(v: &Vec<char>) -> (r: Vec<char>)
    ensures
        r@ == trim(v@),
{
    let a: usize = skip_ws(v, 0);
    proof {
        lemma_find_from_bounds(v@, non_ws_pred(), 0);
    }
    let mut b: usize = v.len();
    while b > a && char_is_ws(v[b - 1])
        invariant
            a <= b <= v.len(),
            forall|m: int| b <= m < v.len() ==> is_ws(#[trigger] v@[m]),
        decreases b,
    {
        b -= 1;
    }
    proof {
        lemma_back_from(v@, ws_pred(), a as int, v.len() as int, b as int);
    }
    slice_chars(v, a, b)
}


/// The whitespace-separated words of `v`.
pub fn split_words(v: &Vec<char>) -> (r: Vec<Vec<char>>)
    ensures
        views(r@) == words(v@),
{
    let mut r: Vec<Vec<char>> = Vec::new();
    let mut i: usize = 0;
    assert(views(r@) + words(v@) =~= words(v@));
    while i < v.len()
        invariant
            i <= v.len(),
            words(v@) == views(r@) + words_from(v@, i as int),
        decreases v.len() - i,
    {
        let ghost old_r = views(r@);
        let a = skip_ws(v, i);
        proof {
            lemma_find_from_bounds(v@, non_ws_pred(), i as int);
        }
        if a >= v.len() {
            assert(words_from(v@, i as int) =~= seq![]);
            i = v.len();
            assert(words_from(v@, i as int) =~= seq![]);
            assert(words(v@) =~= views(r@) + words_from(v@, i as int));
        } else {
            let e = skip_non_ws(v, a);
            proof {
                lemma_find_from_bounds(v@, ws_pred(), a as int + 1);
                lemma_find_from(v@, ws_pred(), a as int, find_from(v@, ws_pred(), a as int + 1));
            }
            let w = slice_chars(v, a, e);
            r.push(w);
            assert(views(r@) =~= old_r.push(v@.subrange(a as int, e as int)));
            assert(words_from(v@, i as int) =~= seq![v@.subrange(a as int, e as int)] + words_from(v@, e as int));
            i = e;
        }
    }
    assert(words_from(v@, i as int) =~= seq![]);
    assert(views(r@) + seq![] =~= views(r@));
    r
}

/// Whether `v` begins with `p`.
pub fn starts_with_chars(v: &Vec<char>, p: &Vec<char>) -> (b: bool)
    ensures
        b == starts_with(v@, p@),
{
    if p.len() > v.len() {
        return false;
    }
    let mut i: usize = 0;
    while i < p.len()
        invariant
            p.len() <= v.len(),
            i <= p.len(),
            forall|k: int| 0 <= k < i ==> v@[k] == p@[k],
        decreases p.len() - i,
    {
        if v[i] != p[i] {
            assert(v@.take(p.len() as int)[i as int] != p@[i as int]);
            return false;
        }
        i += 1;
    }
    assert(v@.take(p.len() as int) =~= p@);
    true
}

/// Whether `p` occurs in `v` at index `i`.
fn occurs_at(v: &Vec<char>, p: &Vec<char>, i: usize) -> (b: bool)
    requires
        i + p.len() <= v.len(),
    ensures
        b == (v@.subrange(i as int, i + p.len()) == p@),
{
    let mut k: usize = 0;
    while k < p.len()
        invariant
            i + p.len() <= v.len(),
            k <= p.len(),
            forall|m: int| 0 <= m < k ==> v@[i + m] == p@[m],
        decreases p.len() - k,
    {
        if v[i + k] != p[k] {
            assert(v@.subrange(i as int, i + p.len())[k as int] != p@[k as int]);
            return false;
        }
        k += 1;
    }
    assert(v@.subrange(i as int, i + p.len()) =~= p@);
    true
}

/// Whether `p` occurs anywhere in `v`.
pub fn contains_chars(v: &Vec<char>, p: &Vec<char>) -> (b: bool)
    ensures
        b == contains(v@, p@),
{
    if p.len() > v.len() {
        return false;
    }
    let last: usize = v.len() - p.len();
    let mut i: usize = 0;
    while i <= last
        invariant
            last == v.len() - p.len(),
            i <= last,
            forall|k: int| 0 <= k < i ==> #[trigger] v@.subrange(k, k + p.len()) != p@,
        decreases last - i,
    {
        if occurs_at(v, p, i) {
            return true;
        }
        if i == last {
            return false;
        }
        i += 1;
    }
    false
}

/// The lines of `v` (see [`lines`]).
pub fn split_lines(v: &Vec<char>) -> (r: Vec<Vec<char>>)
    ensures
        views(r@) == lines(v@),
{
    let mut r: Vec<Vec<char>> = Vec::new();
    let mut start: usize = 0;
    assert(v@.skip(0) =~= v@);
    assert(views(r@) + lines(v@) =~= lines(v@));
    while start < v.len()
        invariant
            start <= v.len(),
            lines(v@) == views(r@) + lines(v@.skip(start as int)),
        decreases v.len() - start,
    {
        let ghost rest = v@.skip(start as int);
        let ghost old_r = views(r@);
        let mut j: usize = start;
        while j < v.len() && v[j] != '\n'
            invariant
                start <= j <= v.len(),
                forall|k: int| start <= k < j ==> v@[k] != '\n',
            decreases v.len() - j,
        {
            j += 1;
        }
        proof {
            assert forall|k: int| 0 <= k < j - start implies !(char_pred('\n'))(#[trigger] rest[k]) by {
                assert(rest[k] == v@[start + k]);
            }
            lemma_find_from(rest, char_pred('\n'), 0, j - start);
        }
        if j == v.len() {
            let line = slice_chars(v, start, j);
            r.push(line);
            assert(rest =~= v@.subrange(start as int, j as int));
            assert(lines(rest) =~= seq![rest]);
            assert(views(r@) =~= old_r.push(rest));
            start = v.len();
            assert(lines(v@.skip(start as int)) =~= seq![]) by {
                assert(v@.skip(start as int) =~= Seq::<char>::empty());
            }
            assert(lines(v@) =~= views(r@) + lines(v@.skip(start as int)));
        } else {
            let mut e: usize = j;
            if e > start && v[e - 1] == '\r' {
                e = e - 1;
            }
            let line = slice_chars(v, start, e);
            r.push(line);
            assert(rest.take(j - start) =~= v@.subrange(start as int, j as int));
            assert(strip_cr(rest.take(j - start)) =~= v@.subrange(start as int, e as int));
            assert(rest.skip(j - start + 1) =~= v@.skip(j + 1));
            assert(views(r@) =~= old_r.push(v@.subrange(start as int, e as int)));
            start = j + 1;
            assert(lines(v@) =~= views(r@) + lines(v@.skip(start as int)));
        }
    }
    assert(v@.skip(start as int) =~= Seq::<char>::empty());
    assert(views(r@) + seq![] =~= views(r@));
    r
}


pub fn char_width_exec(c: char) -> (w: usize)
    ensures
        w == char_width(c),
{
    let u: u32 = c as u32;
    if u < 0x80 {
        1
    } else if u < 0x800 {
        2
    } else if u < 0x10000 {
        3
    } else {
        4
    }
}

/// Where `v` is to be cut to its first `n` bytes: `None` when `v` has at most
/// `n` bytes, otherwise whether byte `n` is a boundary and, if so, how many
/// characters come before it.
pub fn cut_point(v: &Vec<char>, n: usize) -> (r: Option<Option<usize>>)
    requires
        n < usize::MAX - 4,
    ensures
        r is None <==> byte_len(v@) <= n,
        r matches Some(c) ==> (c is Some <==> is_boundary(v@, n as int)),
        r matches Some(Some(k)) ==> k <= v.len() && byte_len(v@.take(k as int)) == n,
{
    let mut i: usize = 0;
    let mut acc: usize = 0;
    assert(v@.take(0) =~= Seq::<char>::empty());
    while i < v.len() && acc + char_width_exec(v[i]) <= n
        invariant
            i <= v.len(),
            acc <= n,
            n < usize::MAX - 4,
            acc == byte_len(v@.take(i as int)),
        decreases v.len() - i,
    {
        proof {
            lemma_byte_len_take(v@, i as int);
        }
        acc = acc + char_width_exec(v[i]);
        i += 1;
    }
    if i == v.len() {
        assert(v@.take(i as int) =~= v@);
        return None;
    }
    proof {
        lemma_byte_len_take(v@, i as int);
        if i + 1 < v.len() {
            lemma_byte_len_mono(v@, i as int + 1, v.len() as int);
        }
        assert(v@.take(v.len() as int) =~= v@);
    }
    if acc == n {
        proof {
            lemma_take_bytes(v@, i as int);
        }
        Some(Some(i))
    } else {
        proof {
            assert(!is_boundary(v@, n as int)) by {
                if is_boundary(v@, n as int) {
                    let k = choose|k: int| 0 <= k <= v@.len() && #[trigger] byte_len(v@.take(k)) == n;
                    if k <= i {
                        if k < i {
                            lemma_byte_len_mono(v@, k, i as int);
                        }
                    } else {
                        if k > i + 1 {
                            lemma_byte_len_mono(v@, i as int + 1, k);
                        }
                    }
                }
            }
        }
        Some(None)
    }
}

/// `v` without any number of leading copies of `p`.
pub fn strip_prefixes_chars(v: &Vec<char>, p: &Vec<char>) -> (r: Vec<char>)
    ensures
        r@ == strip_prefixes(v@, p@),
{
    if p.len() == 0 {
        return slice_chars(v, 0, v.len());
    }
    let mut i: usize = 0;
    let mut rest = slice_chars(v, 0, v.len());
    assert(v@.skip(0) =~= v@);
    while starts_with_chars(&rest, p)
        invariant
            p.len() > 0,
            i <= v.len(),
            rest@ == v@.skip(i as int),
            strip_prefixes(v@, p@) == strip_prefixes(rest@, p@),
        decreases v.len() - i,
    {
        assert(rest@.skip(p.len() as int) =~= v@.skip(i + p.len()));
        i = i + p.len();
        rest = slice_chars(v, i, v.len());
    }
    rest
}

/// `v` with every occurrence of `p` removed.
pub fn remove_all_chars(v: &Vec<char>, p: &Vec<char>) -> (r: Vec<char>)
    ensures
        r@ == remove_all(v@, p@),
{
    let mut out: Vec<char> = Vec::new();
    let mut i: usize = 0;
    assert(v@.skip(0) =~= v@);
    assert(out@ + remove_all(v@, p@) =~= remove_all(v@, p@));
    while i < v.len()
        invariant
            i <= v.len(),
            remove_all(v@, p@) == out@ + remove_all(v@.skip(i as int), p@),
        decreases v.len() - i,
    {
        let rest = slice_chars(v, i, v.len());
        assert(rest@ =~= v@.skip(i as int));
        if p.len() > 0 && starts_with_chars(&rest, p) {
            assert(v@.skip(i as int).skip(p.len() as int) =~= v@.skip(i + p.len()));
            i = i + p.len();
        } else {
            out.push(v[i]);
            assert(v@.skip(i as int).drop_first() =~= v@.skip(i + 1));
            assert(remove_all(v@, p@) =~= out@ + remove_all(v@.skip(i + 1), p@));
            i += 1;
        }
    }
    assert(v@.skip(i as int) =~= Seq::<char>::empty());
    assert(out@ + seq![] =~= out@);
    out
}

/// The index of the first occurrence of `p` in `v`, or `v.len()`.
pub fn find_pattern_exec(v: &Vec<char>, p: &Vec<char>) -> (r: usize)
    ensures
        r == find_pattern(v@, p@, 0),
{
    if p.len() > v.len() {
        return v.len();
    }
    let mut i: usize = 0;
    while i <= v.len() - p.len()
        invariant
            p.len() <= v.len(),
            i <= v.len() - p.len() + 1,
            find_pattern(v@, p@, 0) == find_pattern(v@, p@, i as int),
        decreases v.len() - p.len() + 1 - i,
    {
        let mut k: usize = 0;
        let mut same = true;
        while k < p.len()
            invariant
                i + p.len() <= v.len(),
                k <= p.len(),
                same == (forall|m: int| 0 <= m < k ==> v@[i + m] == p@[m]),
            decreases p.len() - k,
        {
            if v[i + k] != p[k] {
                same = false;
            }
            k += 1;
        }
        if same {
            assert(v@.subrange(i as int, i + p.len()) =~= p@);
            return i;
        }
        assert(v@.subrange(i as int, i + p.len()) != p@) by {
            let m = choose|m: int| 0 <= m < p.len() && v@[i + m] != p@[m];
            assert(v@.subrange(i as int, i + p.len())[m] != p@[m]);
        }
        if i == v.len() - p.len() {
            assert(find_pattern(v@, p@, i + 1) == v.len());
            return v.len();
        }
        i += 1;
    }
    v.len()
}

} // verus!
