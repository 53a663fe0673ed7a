//! A cell: one Markdown note, read from a file named `ID-slug.md` (or the
//! home page `index.md`).
use vstd::prelude::*;
use crate::git::{GitCommit, GitCommitView};
use crate::markdown::{md_events, parse_markdown, MdEvent};
use crate::syntax::{
    filename_parts, link_at_exec, outlinks_from, split_filename, tags_exec, tags_from,
    lemma_link_at,
};
use crate::text::{
    chars_of, is_whitespace, is_ws, lower_seq, push_str_chars, same_text, string_of,
    string_of_range, to_lower,
};

verus! {

/// A note: its ID and slug (from the file name), its creation date, its
/// title (its first level-1 heading), its Markdown source, the IDs it links
/// to, its git history, its tags and its text without markup.
pub struct Cell {
    pub id: String,
    pub slug: String,
    pub date: String,
    pub title: String,
    pub raw: String,
    pub outlinks: Vec<String>,
    pub history: Vec<GitCommit>,
    pub tags: Vec<String>,
    pub plain_text: String,
}

pub struct CellView {
    pub id: Seq<char>,
    pub slug: Seq<char>,
    pub date: Seq<char>,
    pub title: Seq<char>,
    pub raw: Seq<char>,
    pub outlinks: Seq<Seq<char>>,
    pub history: Seq<GitCommitView>,
    pub tags: Seq<Seq<char>>,
    pub plain_text: Seq<char>,
}

/// The views of a sequence of strings.
pub open spec fn strs(v: Seq<String>) -> Seq<Seq<char>> {
    v.map_values(|s: String| s@)
}

/// The views of a sequence of commits.
pub open spec fn commits(v: Seq<GitCommit>) -> Seq<GitCommitView> {
    v.map_values(|c: GitCommit| c@)
}

impl View for Cell {
    type V = CellView;

    open spec fn view(&self) -> CellView {
        CellView {
            id: self.id@,
            slug: self.slug@,
            date: self.date@,
            title: self.title@,
            raw: self.raw@,
            outlinks: strs(self.outlinks@),
            history: commits(self.history@),
            tags: strs(self.tags@),
            plain_text: self.plain_text@,
        }
    }
}

/// `index.md`, the file name of the home page.
pub open spec fn index_filename() -> Seq<char> {
    seq!['i', 'n', 'd', 'e', 'x', '.', 'm', 'd']
}

/// `index`, the ID of the home page.
pub open spec fn index_id() -> Seq<char> {
    seq!['i', 'n', 'd', 'e', 'x']
}

// ── what a cell's source holds ───────────────────────────────────────────────

/// The text of the first level-1 heading in `ev` from `i` on: the text and
/// code nodes after a heading start, up to the first heading end.
pub open spec fn title_from(ev: Seq<MdEvent>, i: int, in_h1: bool) -> Seq<char>
    decreases ev.len() - i,
{
    if i < 0 || i >= ev.len() {
        seq![]
    } else {
        match ev[i] {
            MdEvent::H1Start => title_from(ev, i + 1, true),
            MdEvent::H1End => seq![],
            MdEvent::Text(t) => (if in_h1 {
                t@
            } else {
                seq![]
            }) + title_from(ev, i + 1, in_h1),
            MdEvent::Code(t) => (if in_h1 {
                t@
            } else {
                seq![]
            }) + title_from(ev, i + 1, in_h1),
            _ => title_from(ev, i + 1, in_h1),
        }
    }
}

/// The title of a Markdown source: the text of its first level-1 heading.
pub open spec fn title_of(content: Seq<char>) -> Seq<char> {
    title_from(md_events(content, false), 0, false)
}

/// Each text and code node followed by a space, and a space for each line
/// break, from `i` on.
pub open spec fn spaced_text_from(ev: Seq<MdEvent>, i: int) -> Seq<char>
    decreases ev.len() - i,
{
    if i < 0 || i >= ev.len() {
        seq![]
    } else {
        match ev[i] {
            MdEvent::Text(t) => t@ + seq![' '] + spaced_text_from(ev, i + 1),
            MdEvent::Code(t) => t@ + seq![' '] + spaced_text_from(ev, i + 1),
            MdEvent::Break => seq![' '] + spaced_text_from(ev, i + 1),
            _ => spaced_text_from(ev, i + 1),
        }
    }
}

/// The words of `s` from `i` on (the runs of non-whitespace), each after a
/// single space where a word came before (`started`) and whitespace stood
/// between (`gap`).
pub open spec fn squeeze_from(s: Seq<char>, i: int, started: bool, gap: bool) -> Seq<char>
    decreases s.len() - i,
{
    if i < 0 || i >= s.len() {
        seq![]
    } else if is_ws(s[i]) {
        squeeze_from(s, i + 1, started, true)
    } else {
        (if started && gap {
            seq![' ']
        } else {
            seq![]
        }) + seq![s[i]] + squeeze_from(s, i + 1, true, false)
    }
}

/// The words of `s` joined by single spaces.
pub open spec fn squeeze(s: Seq<char>) -> Seq<char> {
    squeeze_from(s, 0, false, false)
}

/// The text of a Markdown source without markup: its text and code nodes
/// and line breaks, as words joined by single spaces.
pub open spec fn plain_text_of(content: Seq<char>) -> Seq<char> {
    squeeze(spaced_text_from(md_events(content, false), 0))
}

/// The tags in the text nodes of `ev` from `i` on, outside code blocks.
pub open spec fn raw_tags_from(ev: Seq<MdEvent>, i: int, in_code: bool) -> Seq<Seq<char>>
    decreases ev.len() - i,
{
    if i < 0 || i >= ev.len() {
        seq![]
    } else {
        match ev[i] {
            MdEvent::CodeBlockStart => raw_tags_from(ev, i + 1, true),
            MdEvent::CodeBlockEnd => raw_tags_from(ev, i + 1, false),
            MdEvent::Text(t) => (if in_code {
                seq![]
            } else {
                tags_from(t@, 0)
            }) + raw_tags_from(ev, i + 1, in_code),
            _ => raw_tags_from(ev, i + 1, in_code),
        }
    }
}

/// `s` with each element kept at its first occurrence only.
pub open spec fn dedup<T>(s: Seq<T>) -> Seq<T>
    decreases s.len(),
{
    if s.len() == 0 {
        s
    } else {
        let d = dedup(s.drop_last());
        if d.contains(s.last()) {
            d
        } else {
            d.push(s.last())
        }
    }
}

/// Each of `v` in lower case.
pub open spec fn lower_all(v: Seq<Seq<char>>) -> Seq<Seq<char>> {
    v.map_values(|t: Seq<char>| lower_seq(t))
}

/// The tags of a Markdown source: those in its text outside code, in lower
/// case, each once, in the order of their first occurrence.
pub open spec fn tags_of(content: Seq<char>) -> Seq<Seq<char>> {
    dedup(lower_all(raw_tags_from(md_events(content, false), 0, false)))
}

/// The creation date in an ID: its first eight digits, where it has eight.
pub open spec fn date_of_id(id: Seq<char>) -> Seq<char> {
    if id.len() >= 8 {
        id.subrange(0, 8)
    } else {
        seq![]
    }
}

/// The cell that a file holds, with no history: `None` where the file name
/// is neither `index.md` nor `ID-slug.md`, or where the content has no
/// title.
pub open spec fn cell_of(filename: Seq<char>, content: Seq<char>) -> Option<CellView> {
    let title = title_of(content);
    let rest = |id: Seq<char>, slug: Seq<char>, date: Seq<char>|
        CellView {
            id,
            slug,
            date,
            title,
            raw: content,
            outlinks: outlinks_from(content, 0),
            history: seq![],
            tags: tags_of(content),
            plain_text: plain_text_of(content),
        };
    if title.len() == 0 {
        None
    } else if filename == index_filename() {
        Some(rest(index_id(), seq![], seq![]))
    } else {
        match filename_parts(filename) {
            Some((id, slug)) => Some(rest(id, slug, date_of_id(id))),
            None => None,
        }
    }
}

/// The URL path of a cell with this slug: `/` for the home page, else
/// `/slug/`.
pub open spec fn url_of(slug: Seq<char>) -> Seq<char> {
    if slug.len() == 0 {
        seq!['/']
    } else {
        seq!['/'] + slug + seq!['/']
    }
}

/// A date `YYYYMMDD` written `YYYY-MM-DD`; any other string is kept.
pub open spec fn formatted_date(date: Seq<char>) -> Seq<char> {
    if date.len() == 8 {
        date.subrange(0, 4) + seq!['-'] + date.subrange(4, 6) + seq!['-'] + date.subrange(6, 8)
    } else {
        date
    }
}

// ── reading a cell ───────────────────────────────────────────────────────────

/// The title of `content`: the text of its first level-1 heading, or `None`
/// where that is empty.
pub fn extract_title(content: &str) -> (r: Option<String>)
    ensures
        match r {
            Some(t) => t@ == title_of(content@) && t@.len() > 0,
            None => title_of(content@).len() == 0,
        },
{
    let ev = parse_markdown(content, false);
    let mut out: Vec<char> = Vec::new();
    let mut in_h1 = false;
    let mut i: usize = 0;
    while i < ev.len()
        invariant
            i <= ev.len(),
            ev@ == md_events(content@, false),
            title_from(ev@, 0, false) == out@ + title_from(ev@, i as int, in_h1),
        ensures
            title_from(ev@, 0, false) == out@,
        decreases ev.len() - i,
    {
        match &ev[i] {
            MdEvent::H1Start => {
                in_h1 = true;
            },
            MdEvent::H1End => {
                break ;
            },
            MdEvent::Text(t) => {
                if in_h1 {
                    push_str_chars(&mut out, t.as_str());
                }
            },
            MdEvent::Code(t) => {
                if in_h1 {
                    push_str_chars(&mut out, t.as_str());
                }
            },
            _ => {},
        }
        i = i + 1;
    }
    if out.len() == 0 {
        None
    } else {
        Some(string_of(&out))
    }
}

/// The IDs of the links in `content`, in order; see `outlinks_from`.
pub fn extract_outlinks(content: &str) -> (r: Vec<String>)
    ensures
        strs(r@) == outlinks_from(content@, 0),
{
    let v = chars_of(content);
    let mut out: Vec<String> = Vec::new();
    let mut p: usize = 0;
    while p < v.len()
        invariant
            p <= v.len(),
            v@ == content@,
            outlinks_from(v@, 0) == strs(out@) + outlinks_from(v@, p as int),
        decreases v.len() - p,
    {
        match link_at_exec(&v, p) {
            Some((k, e)) => {
                proof {
                    lemma_link_at(v@, p as int);
                }
                let id = string_of_range(&v, p + 2, k);
                let ghost before = strs(out@);
                out.push(id);
                proof {
                    assert(strs(out@) =~= before.push(v@.subrange(p + 2, k as int)));
                }
                p = e;
            },
            None => {
                p = p + 1;
            },
        }
    }
    out
}

/// The text of `content` without markup: its text and code nodes and line
/// breaks, as words joined by single spaces.
pub fn extract_plain_text(content: &str) -> (r: String)
    ensures
        r@ == plain_text_of(content@),
{
    let ev = parse_markdown(content, false);
    let mut spaced: Vec<char> = Vec::new();
    let mut i: usize = 0;
    while i < ev.len()
        invariant
            i <= ev.len(),
            spaced_text_from(ev@, 0) == spaced@ + spaced_text_from(ev@, i as int),
        decreases ev.len() - i,
    {
        let ghost before = spaced@;
        match &ev[i] {
            MdEvent::Text(t) => {
                push_str_chars(&mut spaced, t.as_str());
                spaced.push(' ');
            },
            MdEvent::Code(t) => {
                push_str_chars(&mut spaced, t.as_str());
                spaced.push(' ');
            },
            MdEvent::Break => {
                spaced.push(' ');
            },
            _ => {},
        }
        i = i + 1;
    }
    let mut out: Vec<char> = Vec::new();
    let mut started = false;
    let mut gap = false;
    let mut j: usize = 0;
    while j < spaced.len()
        invariant
            j <= spaced.len(),
            squeeze(spaced@) == out@ + squeeze_from(spaced@, j as int, started, gap),
        decreases spaced.len() - j,
    {
        let c = spaced[j];
        if is_whitespace(c) {
            gap = true;
        } else {
            if started && gap {
                out.push(' ');
            }
            out.push(c);
            started = true;
            gap = false;
        }
        j = j + 1;
    }
    string_of(&out)
}

/// `dedup(s.push(x))` is `dedup(s)` with `x` appended unless it holds it.
pub proof fn lemma_dedup_push<T>(s: Seq<T>, x: T)
    ensures
        dedup(s.push(x)) == if dedup(s).contains(x) {
            dedup(s)
        } else {
            dedup(s).push(x)
        },
{
    assert(s.push(x).drop_last() == s);
}

/// The tags of `content`; see `tags_of`.
pub fn extract_tags(content: &str) -> (r: Vec<String>)
    ensures
        strs(r@) == tags_of(content@),
{
    let ev = parse_markdown(content, false);
    let mut raw: Vec<Vec<char>> = Vec::new();
    let mut in_code = false;
    let mut i: usize = 0;
    while i < ev.len()
        invariant
            i <= ev.len(),
            ev@ == md_events(content@, false),
            raw_tags_from(ev@, 0, false) == raw@.map_values(|x: Vec<char>| x@) + raw_tags_from(
                ev@,
                i as int,
                in_code,
            ),
        decreases ev.len() - i,
    {
        match &ev[i] {
            MdEvent::CodeBlockStart => {
                in_code = true;
            },
            MdEvent::CodeBlockEnd => {
                in_code = false;
            },
            MdEvent::Text(t) => {
                if !in_code {
                    let tv = chars_of(t.as_str());
                    tags_exec(&tv, &mut raw);
                }
            },
            _ => {},
        }
        i = i + 1;
    }
    let ghost lowered = lower_all(raw_tags_from(ev@, 0, false));
    let mut out: Vec<String> = Vec::new();
    let mut j: usize = 0;
    while j < raw.len()
        invariant
            j <= raw.len(),
            lowered.len() == raw.len(),
            forall|k: int| 0 <= k < raw.len() ==> #[trigger] lowered[k] == lower_seq(raw@[k]@),
            strs(out@) == dedup(lowered.take(j as int)),
        decreases raw.len() - j,
    {
        let mut low: Vec<char> = Vec::new();
        let mut q: usize = 0;
        while q < raw[j].len()
            invariant
                j < raw.len(),
                q <= raw@[j as int]@.len(),
                low@ == lower_seq(raw@[j as int]@.take(q as int)),
            decreases raw@[j as int]@.len() - q,
        {
            low.push(to_lower(raw[j][q]));
            q = q + 1;
            assert(low@ =~= lower_seq(raw@[j as int]@.take(q as int)));
        }
        assert(raw@[j as int]@.take(q as int) == raw@[j as int]@);
        let name = string_of(&low);
        let mut seen = false;
        let mut m: usize = 0;
        while m < out.len()
            invariant
                m <= out.len(),
                seen == exists|k: int| 0 <= k < m && out@[k]@ == name@,
            decreases out.len() - m,
        {
            if same_text(out[m].as_str(), name.as_str()) {
                seen = true;
            }
            m = m + 1;
        }
        proof {
            assert(lowered.take(j + 1) == lowered.take(j as int).push(lowered[j as int]));
            lemma_dedup_push(lowered.take(j as int), lowered[j as int]);
            assert(lowered[j as int] == name@);
            if seen {
                let k = choose|k: int| 0 <= k < out.len() && out@[k]@ == name@;
                assert(strs(out@)[k] == name@);
            } else {
                assert forall|k: int| 0 <= k < strs(out@).len() implies strs(out@)[k] != name@ by {
                    assert(strs(out@)[k] == out@[k]@);
                }
            }
        }
        if !seen {
            let ghost before = strs(out@);
            out.push(name);
            assert(strs(out@) =~= before.push(name@));
        }
        j = j + 1;
    }
    assert(lowered.take(raw.len() as int) == lowered);
    out
}

impl Cell {
    /// Reads the cell that a file holds: `index.md` is the home page, with
    /// the ID `index` and no slug or date; a file `ID-slug.md` has that ID
    /// and slug, and the ID's first eight digits as its date. `None` for any
    /// other file name, and for a content without a title.
    pub fn from_file(filename: &str, content: &str) -> (r: Option<Cell>)
        ensures
            match r {
                Some(c) => cell_of(filename@, content@) == Some(c@),
                None => cell_of(filename@, content@) is None,
            },
    {
        let is_index = same_text(filename, "index.md");
        proof {
            reveal_strlit("index.md");
            assert("index.md"@ =~= index_filename());
        }
        let mut id = String::from_str("index");
        let mut slug = String::new();
        let mut date = String::new();
        proof {
            reveal_strlit("index");
            assert(id@ =~= index_id());
        }
        if !is_index {
            let name = chars_of(filename);
            match split_filename(&name) {
                Some((k, n)) => {
                    id = string_of_range(&name, 0, k);
                    slug = string_of_range(&name, k + 1, n);
                    if k >= 8 {
                        date = string_of_range(&name, 0, 8);
                        assert(date@ =~= date_of_id(id@));
                    } else {
                        assert(date@ =~= date_of_id(id@));
                    }
                },
                None => {
                    return None;
                },
            }
        }
        let title = match extract_title(content) {
            Some(t) => t,
            None => {
                return None;
            },
        };
        let cell = Cell {
            id,
            slug,
            date,
            title,
            raw: String::from_str(content),
            outlinks: extract_outlinks(content),
            history: Vec::new(),
            tags: extract_tags(content),
            plain_text: extract_plain_text(content),
        };
        assert(cell@.history =~= Seq::<GitCommitView>::empty());
        Some(cell)
    }

    /// The URL path of the cell: `/` for the home page, else `/slug/`.
    pub fn url(&self) -> (r: String)
        ensures
            r@ == url_of(self.slug@),
    {
        let mut out: Vec<char> = Vec::new();
        out.push('/');
        if self.slug.as_str().is_empty() {
            string_of(&out)
        } else {
            push_str_chars(&mut out, self.slug.as_str());
            out.push('/');
            string_of(&out)
        }
    }

    /// The creation date `YYYYMMDD`; empty for the home page.
    pub fn created_date(&self) -> (r: &str)
        ensures
            r@ == self.date@,
    {
        self.date.as_str()
    }
}

/// A date `YYYYMMDD` written `YYYY-MM-DD`; any other string is returned as
/// it is.
pub fn format_date(date: &str) -> (r: String)
    ensures
        r@ == formatted_date(date@),
{
    let v = chars_of(date);
    if v.len() != 8 {
        return string_of(&v);
    }
    let mut out: Vec<char> = Vec::new();
    crate::text::push_range(&mut out, &v, 0, 4);
    out.push('-');
    crate::text::push_range(&mut out, &v, 4, 6);
    out.push('-');
    crate::text::push_range(&mut out, &v, 6, 8);
    string_of(&out)
}

/// A copy of a list of strings.
pub fn clone_strings(v: &Vec<String>) -> (r: Vec<String>)
    ensures
        strs(r@) == strs(v@),
{
    let mut r: Vec<String> = Vec::new();
    for i in 0..v.len()
        invariant
            r.len() == i,
            strs(r@) == strs(v@.take(i as int)),
    {
        let ghost before = r@;
        let c = v[i].clone();
        assert(c@ == v@[i as int]@);
        r.push(c);
        assert(r@ == before.push(c));
        assert(v@.take(i + 1) == v@.take(i as int).push(v@[i as int]));
        assert forall|j: int| 0 <= j < r@.len() implies strs(r@)[j] == strs(v@.take(i + 1))[j] by {
            if j < i {
                assert(strs(before)[j] == strs(v@.take(i as int))[j]);
            }
        }
        assert(strs(r@) =~= strs(v@.take(i + 1)));
    }
    assert(v@.take(v.len() as int) == v@);
    r
}

/// A copy of a list of commits.
pub fn clone_commits(v: &Vec<GitCommit>) -> (r: Vec<GitCommit>)
    ensures
        commits(r@) == commits(v@),
{
    let mut r: Vec<GitCommit> = Vec::new();
    for i in 0..v.len()
        invariant
            r.len() == i,
            commits(r@) == commits(v@.take(i as int)),
    {
        let ghost before = r@;
        let c = v[i].clone();
        r.push(c);
        assert(r@ == before.push(c));
        assert(v@.take(i + 1) == v@.take(i as int).push(v@[i as int]));
        assert forall|j: int| 0 <= j < r@.len() implies commits(r@)[j] == commits(v@.take(i + 1))[j] by {
            if j < i {
                assert(commits(before)[j] == commits(v@.take(i as int))[j]);
            }
        }
        assert(commits(r@) =~= commits(v@.take(i + 1)));
    }
    assert(v@.take(v.len() as int) == v@);
    r
}

impl Clone for Cell {
    fn clone(&self) -> (r: Self)
        ensures
            r@ == self@,
    {
        Cell {
            id: self.id.clone(),
            slug: self.slug.clone(),
            date: self.date.clone(),
            title: self.title.clone(),
            raw: self.raw.clone(),
            outlinks: clone_strings(&self.outlinks),
            history: clone_commits(&self.history),
            tags: clone_strings(&self.tags),
            plain_text: self.plain_text.clone(),
        }
    }
}

} // verus!
