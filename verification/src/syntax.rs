//! The grammar of cells: file names (`ID-slug.md`), links (`[[ID]]` and
//! `[[ID|label]]`), and the features found in running text (bare `http://`
//! and `https://` URLs, and `#tag`s).
use vstd::prelude::*;
use crate::text::{push_range, push_str_chars, is_alnum, is_alpha, is_ascii_alnum, is_ascii_alpha, is_ascii_digit, is_digit, is_whitespace, is_ws};

verus! {

// ── runs of characters ───────────────────────────────────────────────────────

/// The end of the run of ASCII digits that starts at `i`.
pub open spec fn digits_end(s: Seq<char>, i: int) -> int
    decreases s.len() - i,
{
    if 0 <= i < s.len() && is_digit(s[i]) {
        digits_end(s, i + 1)
    } else {
        i
    }
}

/// Whether a link's label may hold the character: anything but `]` and a
/// line break.
pub open spec fn is_label_char(c: char) -> bool {
    c != ']' && c != '\n'
}

/// The end of the run of label characters that starts at `i`.
pub open spec fn bracket_end(s: Seq<char>, i: int) -> int
    decreases s.len() - i,
{
    if 0 <= i < s.len() && is_label_char(s[i]) {
        bracket_end(s, i + 1)
    } else {
        i
    }
}

pub proof fn lemma_digits_end(s: Seq<char>, i: int)
    requires
        0 <= i <= s.len(),
    ensures
        i <= digits_end(s, i) <= s.len(),
        forall|j: int| i <= j < digits_end(s, i) ==> is_digit(#[trigger] s[j]),
        digits_end(s, i) < s.len() ==> !is_digit(s[digits_end(s, i)]),
    decreases s.len() - i,
{
    if i < s.len() && is_digit(s[i]) {
        lemma_digits_end(s, i + 1);
    }
}

pub proof fn lemma_bracket_end(s: Seq<char>, i: int)
    requires
        0 <= i <= s.len(),
    ensures
        i <= bracket_end(s, i) <= s.len(),
        forall|j: int| i <= j < bracket_end(s, i) ==> is_label_char(#[trigger] s[j]),
        bracket_end(s, i) < s.len() ==> !is_label_char(s[bracket_end(s, i)]),
    decreases s.len() - i,
{
    if i < s.len() && is_label_char(s[i]) {
        lemma_bracket_end(s, i + 1);
    }
}

pub fn digits_end_exec(v: &Vec<char>, i: usize) -> (r: usize)
    requires
        i <= v.len(),
    ensures
        r == digits_end(v@, i as int),
{
    let mut j = i;
    while j < v.len() && is_ascii_digit(v[j])
        invariant
            i <= j <= v.len(),
            digits_end(v@, i as int) == digits_end(v@, j as int),
        decreases v.len() - j,
    {
        j = j + 1;
    }
    j
}

pub fn bracket_end_exec(v: &Vec<char>, i: usize) -> (r: usize)
    requires
        i <= v.len(),
    ensures
        r == bracket_end(v@, i as int),
{
    let mut j = i;
    while j < v.len() && v[j] != ']' && v[j] != '\n'
        invariant
            i <= j <= v.len(),
            bracket_end(v@, i as int) == bracket_end(v@, j as int),
        decreases v.len() - j,
    {
        j = j + 1;
    }
    j
}

// ── file names ───────────────────────────────────────────────────────────────

pub open spec fn is_slug_char(c: char) -> bool {
    ('a' <= c && c <= 'z') || is_digit(c) || c == '-'
}

/// A slug: a lower-case letter or digit, then lower-case letters, digits and
/// hyphens.
pub open spec fn is_slug(t: Seq<char>) -> bool {
    &&& t.len() >= 1
    &&& t[0] != '-'
    &&& forall|i: int| 0 <= i < t.len() ==> is_slug_char(#[trigger] t[i])
}

/// The ID and the slug of a file name `ID-slug.md`, where the ID is one or
/// more ASCII digits; `None` for any other name.
pub open spec fn filename_parts(name: Seq<char>) -> Option<(Seq<char>, Seq<char>)> {
    let n = name.len() as int;
    if n >= 3 && name[n - 3] == '.' && name[n - 2] == 'm' && name[n - 1] == 'd' {
        let stem = name.subrange(0, n - 3);
        let k = digits_end(stem, 0);
        if k >= 1 && k < stem.len() && stem[k] == '-' && is_slug(
            stem.subrange(k + 1, stem.len() as int),
        ) {
            Some((stem.subrange(0, k), stem.subrange(k + 1, stem.len() as int)))
        } else {
            None
        }
    } else {
        None
    }
}

/// Splits a file name into its ID and slug; see `filename_parts`.
pub fn split_filename(name: &Vec<char>) -> (r: Option<(usize, usize)>)
    ensures
        match r {
            Some((k, n)) => {
                &&& 1 <= k < n <= name.len()
                &&& filename_parts(name@) == Some(
                    (name@.subrange(0, k as int), name@.subrange(k + 1, n as int)),
                )
            },
            None => filename_parts(name@) is None,
        },
{
    let len = name.len();
    if len < 3 || name[len - 3] != '.' || name[len - 2] != 'm' || name[len - 1] != 'd' {
        return None;
    }
    let n = len - 3;
    let ghost stem = name@.subrange(0, n as int);
    let k = digits_end_exec(name, 0);
    proof {
        lemma_digits_end(name@, 0);
        lemma_digits_end(stem, 0);
        lemma_digits_prefix(name@, stem, 0);
    }
    let k = if k > n { n } else { k };
    if k < 1 || k >= n || name[k] != '-' {
        return None;
    }
    if k + 1 >= n || name[k + 1] == '-' {
        proof {
            let t = stem.subrange(k + 1, stem.len() as int);
            assert(!is_slug(t));
        }
        return None;
    }
    let mut i = k + 1;
    while i < n
        invariant
            k + 1 <= i <= n,
            n + 3 == name.len(),
            1 <= k < n,
            stem == name@.subrange(0, n as int),
            digits_end(stem, 0) == k,
            stem[k as int] == '-',
            name@[k + 1] != '-',
            forall|j: int| k + 1 <= j < i ==> is_slug_char(#[trigger] name@[j]),
        decreases n - i,
    {
        let c = name[i];
        if !(('a' <= c && c <= 'z') || is_ascii_digit(c) || c == '-') {
            proof {
                let t = stem.subrange(k + 1, stem.len() as int);
                assert(t[i - k - 1] == c);
            }
            return None;
        }
        i = i + 1;
    }
    proof {
        let t = stem.subrange(k + 1, stem.len() as int);
        assert forall|j: int| 0 <= j < t.len() implies is_slug_char(#[trigger] t[j]) by {
            assert(t[j] == name@[k + 1 + j]);
        }
        assert(stem.subrange(0, k as int) == name@.subrange(0, k as int));
        assert(t == name@.subrange(k + 1, n as int));
    }
    Some((k, n))
}

/// The digit run of a prefix of `s` ends where that of `s` does, or at the
/// end of the prefix.
pub proof fn lemma_digits_prefix(s: Seq<char>, t: Seq<char>, i: int)
    requires
        0 <= i <= t.len() <= s.len(),
        t == s.subrange(0, t.len() as int),
    ensures
        digits_end(t, i) == if digits_end(s, i) < t.len() {
            digits_end(s, i)
        } else {
            t.len() as int
        },
    decreases t.len() - i,
{
    lemma_digits_end(s, i);
    if i < t.len() {
        assert(t[i] == s[i]);
    }
    if i < t.len() && is_digit(t[i]) {
        lemma_digits_prefix(s, t, i + 1);
    }
}

// ── links ────────────────────────────────────────────────────────────────────

/// A link that starts at `p`: `[[`, one or more ASCII digits (the ID), then
/// either `]]`, or `|`, a label of one or more characters other than `]`
/// and a line break, and `]]`; so a link never spans a line break. The
/// result is the end of the ID and the end of the link.
pub open spec fn link_at(s: Seq<char>, p: int) -> Option<(int, int)> {
    if 0 <= p && p + 1 < s.len() && s[p] == '[' && s[p + 1] == '[' {
        let k = digits_end(s, p + 2);
        if k > p + 2 && k + 1 < s.len() && s[k] == ']' && s[k + 1] == ']' {
            Some((k, k + 2))
        } else if k > p + 2 && k < s.len() && s[k] == '|' {
            let j = bracket_end(s, k + 1);
            if j > k + 1 && j + 1 < s.len() && s[j] == ']' && s[j + 1] == ']' {
                Some((k, j + 2))
            } else {
                None
            }
        } else {
            None
        }
    } else {
        None
    }
}

/// The label of the link at `p`, if it has one.
pub open spec fn link_label(s: Seq<char>, p: int) -> Option<Seq<char>> {
    match link_at(s, p) {
        Some((k, e)) => if s[k] == '|' {
            Some(s.subrange(k + 1, e - 2))
        } else {
            None
        },
        None => None,
    }
}

pub proof fn lemma_link_at(s: Seq<char>, p: int)
    requires
        0 <= p <= s.len(),
    ensures
        link_at(s, p) matches Some((k, e)) ==> {
            &&& p + 2 < k
            &&& k + 2 <= e <= s.len()
            &&& s[e - 1] == ']'
            &&& s[e - 2] == ']'
            &&& forall|j: int| p + 2 <= j < k ==> is_digit(#[trigger] s[j])
            &&& (s[k] == ']' ==> e == k + 2)
            &&& (s[k] == '|' ==> e > k + 3 && forall|j: int| k + 1 <= j < e - 2 ==> is_label_char(#[trigger] s[j]))
            &&& (s[k] == ']' || s[k] == '|')
        },
{
    if p + 1 < s.len() && s[p] == '[' && s[p + 1] == '[' {
        lemma_digits_end(s, p + 2);
        let k = digits_end(s, p + 2);
        if k < s.len() && s[k] == '|' {
            lemma_bracket_end(s, k + 1);
        }
    }
}

/// The IDs of the links in `s` from `p` on, found left to right, each
/// search resuming after the link found before.
pub open spec fn outlinks_from(s: Seq<char>, p: int) -> Seq<Seq<char>>
    decreases s.len() - p,
{
    if p < 0 || p >= s.len() {
        seq![]
    } else {
        match link_at(s, p) {
            Some((k, e)) => {
                proof {
                    lemma_link_at(s, p);
                }
                seq![s.subrange(p + 2, k)] + outlinks_from(s, e)
            },
            None => outlinks_from(s, p + 1),
        }
    }
}

/// Finds the link that starts at `p`; see `link_at`.
pub fn link_at_exec(v: &Vec<char>, p: usize) -> (r: Option<(usize, usize)>)
    requires
        p <= v.len(),
    ensures
        match r {
            Some((k, e)) => link_at(v@, p as int) == Some((k as int, e as int)),
            None => link_at(v@, p as int) is None,
        },
{
    let n = v.len();
    if !(n >= 2 && p <= n - 2 && v[p] == '[' && v[p + 1] == '[') {
        return None;
    }
    let k = digits_end_exec(v, p + 2);
    proof {
        lemma_digits_end(v@, p + 2);
    }
    if k > p + 2 && k < n && n - k >= 2 && v[k] == ']' && v[k + 1] == ']' {
        return Some((k, k + 2));
    }
    if k > p + 2 && k < n && v[k] == '|' {
        let j = bracket_end_exec(v, k + 1);
        proof {
            lemma_bracket_end(v@, k + 1);
        }
        if j > k + 1 && j < n && n - j >= 2 && v[j] == ']' && v[j + 1] == ']' {
            return Some((k, j + 2));
        }
    }
    None
}

// ── URLs and tags in running text ────────────────────────────────────────────

/// The characters that may stand right before the `#` of a tag.
pub open spec fn is_tag_prefix(c: char) -> bool {
    is_ws(c) || c == ',' || c == ';' || c == ':' || c == '.' || c == '!' || c == '?' || c == '('
        || c == ')' || c == '[' || c == ']' || c == '{' || c == '}' || c == '\'' || c == '"'
}

pub open spec fn is_tag_char(c: char) -> bool {
    is_alnum(c) || c == '_' || c == '-'
}

/// The characters that end a URL.
pub open spec fn is_url_stop(c: char) -> bool {
    is_ws(c) || c == '<' || c == '>' || c == '"' || c == '\''
}

/// The punctuation a URL does not end with.
pub open spec fn is_url_trailer(c: char) -> bool {
    c == '.' || c == ',' || c == ';' || c == ':' || c == '!' || c == '?' || c == ')' || c == '['
        || c == ']' || c == '{' || c == '}'
}

/// The end of the run of tag characters that starts at `i`.
pub open spec fn tag_chars_end(s: Seq<char>, i: int) -> int
    decreases s.len() - i,
{
    if 0 <= i < s.len() && is_tag_char(s[i]) {
        tag_chars_end(s, i + 1)
    } else {
        i
    }
}

/// The end of the run of characters other than URL stops that starts at `i`.
pub open spec fn url_chars_end(s: Seq<char>, i: int) -> int
    decreases s.len() - i,
{
    if 0 <= i < s.len() && !is_url_stop(s[i]) {
        url_chars_end(s, i + 1)
    } else {
        i
    }
}

/// The last index in `lo..hi` whose character is not URL trailing
/// punctuation, or `lo - 1` where there is none.
pub open spec fn last_url_char(s: Seq<char>, lo: int, hi: int) -> int
    decreases hi - lo,
{
    if hi <= lo {
        lo - 1
    } else if !is_url_trailer(s[hi - 1]) {
        hi - 1
    } else {
        last_url_char(s, lo, hi - 1)
    }
}

pub open spec fn starts_with_at(s: Seq<char>, p: int, w: Seq<char>) -> bool {
    0 <= p && p + w.len() <= s.len() && s.subrange(p, p + w.len()) == w
}

/// Where the scheme `http://` or `https://` that starts at `p` ends.
pub open spec fn scheme_end(s: Seq<char>, p: int) -> Option<int> {
    if starts_with_at(s, p, seq!['h', 't', 't', 'p', 's', ':', '/', '/']) {
        Some(p + 8)
    } else if starts_with_at(s, p, seq!['h', 't', 't', 'p', ':', '/', '/']) {
        Some(p + 7)
    } else {
        None
    }
}

/// A bare URL that starts at `p`: a scheme, then the longest run of
/// characters other than URL stops that ends in a character other than
/// trailing punctuation. The result is its end.
pub open spec fn url_at(s: Seq<char>, p: int) -> Option<int> {
    match scheme_end(s, p) {
        Some(b) => {
            let q = last_url_char(s, b, url_chars_end(s, b));
            if q >= b {
                Some(q + 1)
            } else {
                None
            }
        },
        None => None,
    }
}

/// A tag that starts at `p`: `#` at the start of a line, or a tag prefix
/// character and `#`; then an ASCII letter and the run of letters, digits,
/// `_` and `-` after it. The result is where the tag's name starts and ends.
pub open spec fn tag_at(s: Seq<char>, p: int) -> Option<(int, int)> {
    if 0 <= p && p + 1 < s.len() && s[p] == '#' && (p == 0 || s[p - 1] == '\n') && is_alpha(
        s[p + 1],
    ) {
        Some((p + 1, tag_chars_end(s, p + 2)))
    } else if 0 <= p && p + 2 < s.len() && is_tag_prefix(s[p]) && s[p + 1] == '#' && is_alpha(
        s[p + 2],
    ) {
        Some((p + 2, tag_chars_end(s, p + 3)))
    } else {
        None
    }
}

/// What a URL becomes: `<a href="URL">URL</a>`.
pub open spec fn url_html(u: Seq<char>) -> Seq<char> {
    seq!['<', 'a', ' ', 'h', 'r', 'e', 'f', '=', '"'] + u + seq!['"', '>'] + u + seq![
        '<',
        '/',
        'a',
        '>',
    ]
}

/// What a tag's name becomes: `<span class="tag">#NAME</span>`.
pub open spec fn tag_html(name: Seq<char>) -> Seq<char> {
    seq!['<', 's', 'p', 'a', 'n', ' ', 'c', 'l', 'a', 's', 's', '=', '"', 't', 'a', 'g', '"', '>', '#']
        + name + seq!['<', '/', 's', 'p', 'a', 'n', '>']
}

/// `s` from `p` on, with each URL (unless `in_link`) and each tag turned
/// into HTML. The search goes left to right and resumes after each match;
/// at one position a URL is tried before a tag.
pub open spec fn decorate_from(s: Seq<char>, p: int, in_link: bool) -> Seq<char>
    decreases s.len() - p,
{
    if p < 0 || p >= s.len() {
        seq![]
    } else if !in_link && url_at(s, p) is Some {
        let e = url_at(s, p)->0;
        proof {
            lemma_url_at(s, p);
        }
        url_html(s.subrange(p, e)) + decorate_from(s, e, in_link)
    } else if tag_at(s, p) is Some {
        let (b, e) = tag_at(s, p)->0;
        proof {
            lemma_tag_at(s, p);
        }
        s.subrange(p, b - 1) + tag_html(s.subrange(b, e)) + decorate_from(s, e, in_link)
    } else {
        seq![s[p]] + decorate_from(s, p + 1, in_link)
    }
}

/// `s` with its URLs (unless `in_link`) and tags turned into HTML.
pub open spec fn decorate(s: Seq<char>, in_link: bool) -> Seq<char> {
    decorate_from(s, 0, in_link)
}

/// The names of the tags of `s` from `p` on, found by the same search as
/// `decorate_from` outside links, so that no tag is taken from a URL.
pub open spec fn tags_from(s: Seq<char>, p: int) -> Seq<Seq<char>>
    decreases s.len() - p,
{
    if p < 0 || p >= s.len() {
        seq![]
    } else if url_at(s, p) is Some {
        proof {
            lemma_url_at(s, p);
        }
        tags_from(s, url_at(s, p)->0)
    } else if tag_at(s, p) is Some {
        let (b, e) = tag_at(s, p)->0;
        proof {
            lemma_tag_at(s, p);
        }
        seq![s.subrange(b, e)] + tags_from(s, e)
    } else {
        tags_from(s, p + 1)
    }
}

pub proof fn lemma_tag_chars_end(s: Seq<char>, i: int)
    requires
        0 <= i <= s.len(),
    ensures
        i <= tag_chars_end(s, i) <= s.len(),
        forall|j: int| i <= j < tag_chars_end(s, i) ==> is_tag_char(#[trigger] s[j]),
    decreases s.len() - i,
{
    if i < s.len() && is_tag_char(s[i]) {
        lemma_tag_chars_end(s, i + 1);
    }
}

pub proof fn lemma_url_chars_end(s: Seq<char>, i: int)
    requires
        0 <= i <= s.len(),
    ensures
        i <= url_chars_end(s, i) <= s.len(),
    decreases s.len() - i,
{
    if i < s.len() && !is_url_stop(s[i]) {
        lemma_url_chars_end(s, i + 1);
    }
}

pub proof fn lemma_last_url_char(s: Seq<char>, lo: int, hi: int)
    requires
        lo <= hi,
    ensures
        lo - 1 <= last_url_char(s, lo, hi) < hi,
    decreases hi - lo,
{
    if hi > lo && is_url_trailer(s[hi - 1]) {
        lemma_last_url_char(s, lo, hi - 1);
    }
}

pub proof fn lemma_url_at(s: Seq<char>, p: int)
    requires
        0 <= p < s.len(),
    ensures
        url_at(s, p) matches Some(e) ==> p + 7 < e <= s.len(),
{
    match scheme_end(s, p) {
        Some(b) => {
            lemma_url_chars_end(s, b);
            lemma_last_url_char(s, b, url_chars_end(s, b));
        },
        None => {},
    }
}

pub proof fn lemma_tag_at(s: Seq<char>, p: int)
    requires
        0 <= p < s.len(),
    ensures
        tag_at(s, p) matches Some((b, e)) ==> {
            &&& p + 1 <= b < e <= s.len()
            &&& b <= p + 2
            &&& s[b - 1] == '#'
        },
{
    if p + 1 < s.len() && s[p] == '#' && (p == 0 || s[p - 1] == '\n') && is_alpha(s[p + 1]) {
        lemma_tag_chars_end(s, p + 2);
    } else if p + 2 < s.len() && is_tag_prefix(s[p]) && s[p + 1] == '#' && is_alpha(s[p + 2]) {
        lemma_tag_chars_end(s, p + 3);
    }
}

pub fn tag_chars_end_exec(v: &Vec<char>, i: usize) -> (r: usize)
    requires
        i <= v.len(),
    ensures
        r == tag_chars_end(v@, i as int),
{
    let mut j = i;
    while j < v.len() && (is_ascii_alnum(v[j]) || v[j] == '_' || v[j] == '-')
        invariant
            i <= j <= v.len(),
            tag_chars_end(v@, i as int) == tag_chars_end(v@, j as int),
        decreases v.len() - j,
    {
        j = j + 1;
    }
    j
}

fn is_url_stop_exec(c: char) -> (r: bool)
    ensures
        r == is_url_stop(c),
{
    is_whitespace(c) || c == '<' || c == '>' || c == '"' || c == '\''
}

fn is_url_trailer_exec(c: char) -> (r: bool)
    ensures
        r == is_url_trailer(c),
{
    c == '.' || c == ',' || c == ';' || c == ':' || c == '!' || c == '?' || c == ')' || c == '['
        || c == ']' || c == '{' || c == '}'
}

fn is_tag_prefix_exec(c: char) -> (r: bool)
    ensures
        r == is_tag_prefix(c),
{
    is_whitespace(c) || c == ',' || c == ';' || c == ':' || c == '.' || c == '!' || c == '?' || c
        == '(' || c == ')' || c == '[' || c == ']' || c == '{' || c == '}' || c == '\'' || c == '"'
}

fn url_chars_end_exec(v: &Vec<char>, i: usize) -> (r: usize)
    requires
        i <= v.len(),
    ensures
        r == url_chars_end(v@, i as int),
{
    let mut j = i;
    while j < v.len() && !is_url_stop_exec(v[j])
        invariant
            i <= j <= v.len(),
            url_chars_end(v@, i as int) == url_chars_end(v@, j as int),
        decreases v.len() - j,
    {
        j = j + 1;
    }
    j
}

/// One past `last_url_char(v, lo, hi)`.
fn last_url_char_exec(v: &Vec<char>, lo: usize, hi: usize) -> (r: usize)
    requires
        lo <= hi <= v.len(),
    ensures
        r == last_url_char(v@, lo as int, hi as int) + 1,
{
    let mut h = hi;
    while h > lo && is_url_trailer_exec(v[h - 1])
        invariant
            lo <= h <= hi <= v.len(),
            last_url_char(v@, lo as int, hi as int) == last_url_char(v@, lo as int, h as int),
        decreases h,
    {
        h = h - 1;
    }
    h
}

fn scheme_end_exec(v: &Vec<char>, p: usize) -> (r: Option<usize>)
    requires
        p <= v.len(),
    ensures
        match r {
            Some(b) => scheme_end(v@, p as int) == Some(b as int),
            None => scheme_end(v@, p as int) is None,
        },
{
    let n = v.len();
    if n - p >= 8 && v[p] == 'h' && v[p + 1] == 't' && v[p + 2] == 't' && v[p + 3] == 'p' && v[p
        + 4] == 's' && v[p + 5] == ':' && v[p + 6] == '/' && v[p + 7] == '/' {
        assert(v@.subrange(p as int, p + 8) =~= seq!['h', 't', 't', 'p', 's', ':', '/', '/']);
        return Some(p + 8);
    }
    proof {
        if starts_with_at(v@, p as int, seq!['h', 't', 't', 'p', 's', ':', '/', '/']) {
            let t = v@.subrange(p as int, p + 8);
            assert(t[0] == v@[p as int] && t[1] == v@[p + 1] && t[2] == v@[p + 2] && t[3] == v@[p + 3]
                && t[4] == v@[p + 4] && t[5] == v@[p + 5] && t[6] == v@[p + 6] && t[7] == v@[p + 7]);
        }
    }
    if n - p >= 7 && v[p] == 'h' && v[p + 1] == 't' && v[p + 2] == 't' && v[p + 3] == 'p' && v[p
        + 4] == ':' && v[p + 5] == '/' && v[p + 6] == '/' {
        assert(v@.subrange(p as int, p + 7) =~= seq!['h', 't', 't', 'p', ':', '/', '/']);
        return Some(p + 7);
    }
    proof {
        if starts_with_at(v@, p as int, seq!['h', 't', 't', 'p', ':', '/', '/']) {
            let t = v@.subrange(p as int, p + 7);
            assert(t[0] == v@[p as int] && t[1] == v@[p + 1] && t[2] == v@[p + 2] && t[3] == v@[p + 3]
                && t[4] == v@[p + 4] && t[5] == v@[p + 5] && t[6] == v@[p + 6]);
        }
    }
    None
}

pub fn url_at_exec(v: &Vec<char>, p: usize) -> (r: Option<usize>)
    requires
        p <= v.len(),
    ensures
        match r {
            Some(e) => url_at(v@, p as int) == Some(e as int),
            None => url_at(v@, p as int) is None,
        },
{
    match scheme_end_exec(v, p) {
        Some(b) => {
            proof {
                assert(b <= v.len());
            }
            let re = url_chars_end_exec(v, b);
            proof {
                lemma_url_chars_end(v@, b as int);
            }
            let q1 = last_url_char_exec(v, b, re);
            if q1 > b {
                Some(q1)
            } else {
                None
            }
        },
        None => None,
    }
}

pub fn tag_at_exec(v: &Vec<char>, p: usize) -> (r: Option<(usize, usize)>)
    requires
        p < v.len(),
    ensures
        match r {
            Some((b, e)) => tag_at(v@, p as int) == Some((b as int, e as int)),
            None => tag_at(v@, p as int) is None,
        },
{
    let n = v.len();
    if n - p >= 2 && v[p] == '#' && (p == 0 || v[p - 1] == '\n') && is_ascii_alpha(v[p + 1]) {
        let e = tag_chars_end_exec(v, p + 2);
        return Some((p + 1, e));
    }
    if n - p >= 3 && is_tag_prefix_exec(v[p]) && v[p + 1] == '#' && is_ascii_alpha(v[p + 2]) {
        let e = tag_chars_end_exec(v, p + 3);
        return Some((p + 2, e));
    }
    None
}

/// Appends `decorate(t, in_link)` to `out`.
pub fn decorate_exec(t: &Vec<char>, in_link: bool, out: &mut Vec<char>)
    ensures
        final(out)@ == old(out)@ + decorate(t@, in_link),
{
    let ghost start = out@;
    let mut p: usize = 0;
    while p < t.len()
        invariant
            p <= t.len(),
            start + decorate(t@, in_link) == out@ + decorate_from(t@, p as int, in_link),
        decreases t.len() - p,
    {
        let ghost before = out@;
        let url = if in_link {
            None
        } else {
            url_at_exec(t, p)
        };
        if let Some(e) = url {
            proof {
                lemma_url_at(t@, p as int);
            }
            let ghost u = t@.subrange(p as int, e as int);
            push_str_chars(out, "<a href=\"");
            push_range(out, t, p, e);
            push_str_chars(out, "\">");
            push_range(out, t, p, e);
            push_str_chars(out, "</a>");
            proof {
                reveal_strlit("<a href=\"");
                reveal_strlit("\">");
                reveal_strlit("</a>");
                assert(out@ == before + url_html(u));
            }
            p = e;
        } else {
            match tag_at_exec(t, p) {
                Some((b, e)) => {
                    proof {
                        lemma_tag_at(t@, p as int);
                    }
                    push_range(out, t, p, b - 1);
                    push_str_chars(out, "<span class=\"tag\">#");
                    push_range(out, t, b, e);
                    push_str_chars(out, "</span>");
                    proof {
                        reveal_strlit("<span class=\"tag\">#");
                        reveal_strlit("</span>");
                        assert(out@ == before + t@.subrange(p as int, b - 1) + tag_html(
                            t@.subrange(b as int, e as int),
                        ));
                    }
                    p = e;
                },
                None => {
                    out.push(t[p]);
                    p = p + 1;
                },
            }
        }
    }
}

/// Appends `tags_from(t, 0)` to `out`.
pub fn tags_exec(t: &Vec<char>, out: &mut Vec<Vec<char>>)
    ensures
        final(out)@.map_values(|x: Vec<char>| x@) == old(out)@.map_values(|x: Vec<char>| x@)
            + tags_from(t@, 0),
{
    let ghost start = out@.map_values(|x: Vec<char>| x@);
    let mut p: usize = 0;
    while p < t.len()
        invariant
            p <= t.len(),
            start + tags_from(t@, 0) == out@.map_values(|x: Vec<char>| x@) + tags_from(
                t@,
                p as int,
            ),
        decreases t.len() - p,
    {
        if let Some(e) = url_at_exec(t, p) {
            proof {
                lemma_url_at(t@, p as int);
            }
            p = e;
        } else {
            match tag_at_exec(t, p) {
                Some((b, e)) => {
                    proof {
                        lemma_tag_at(t@, p as int);
                    }
                    let mut name: Vec<char> = Vec::new();
                    push_range(&mut name, t, b, e);
                    let ghost before = out@.map_values(|x: Vec<char>| x@);
                    out.push(name);
                    proof {
                        assert(out@.map_values(|x: Vec<char>| x@) =~= before.push(
                            t@.subrange(b as int, e as int),
                        ));
                    }
                    p = e;
                },
                None => {
                    p = p + 1;
                },
            }
        }
    }
}

} // verus!
