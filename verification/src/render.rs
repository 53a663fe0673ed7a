//! What a page is rendered from: its HTML body, with links between cells
//! resolved and URLs and tags marked up, and the graph of the site.
use vstd::prelude::*;
use crate::markdown::{markdown_html, md_events, md_html, parse_markdown, MdEvent};
use crate::laws::law_one_node_per_page;
use crate::cell::{
    clone_commits, clone_strings, commits, format_date, formatted_date, strs, url_of, Cell,
    CellView,
};
use crate::git::{GitCommit, GitCommitView};
use crate::site::{backlinks_of, cell_views, find_cell, page_refs, refs_for_ids, PageRef, Site};
use crate::syntax::{decorate, decorate_exec, lemma_link_at, link_at, link_at_exec, link_label};
use crate::text::{chars_of, push_str_chars, string_of, string_of_range, is_ascii_alnum, is_alnum, is_whitespace, is_ws, lower, push_range, to_lower};

verus! {

// ── marking up URLs and tags in HTML ─────────────────────────────────────────

/// The first index at or after `i` that holds `c`, or the length of `s`.
pub open spec fn find_char(s: Seq<char>, i: int, c: char) -> int
    decreases s.len() - i,
{
    if 0 <= i < s.len() && s[i] != c {
        find_char(s, i + 1, c)
    } else {
        i
    }
}

pub proof fn lemma_find_char(s: Seq<char>, i: int, c: char)
    requires
        0 <= i <= s.len(),
    ensures
        i <= find_char(s, i, c) <= s.len(),
        find_char(s, i, c) < s.len() ==> s[find_char(s, i, c)] == c,
    decreases s.len() - i,
{
    if i < s.len() && s[i] != c {
        lemma_find_char(s, i + 1, c);
    }
}

/// The next HTML tag at or after `p`: from the first `<` to the first `>`
/// after it. The result is where the tag starts and ends.
pub open spec fn next_tag(s: Seq<char>, p: int) -> Option<(int, int)> {
    let i = find_char(s, p, '<');
    if i < s.len() {
        let j = find_char(s, i + 1, '>');
        if j < s.len() {
            Some((i, j + 1))
        } else {
            None
        }
    } else {
        None
    }
}

pub proof fn lemma_next_tag(s: Seq<char>, p: int)
    requires
        0 <= p <= s.len(),
    ensures
        next_tag(s, p) matches Some((i, e)) ==> p <= i && i + 2 <= e <= s.len(),
{
    lemma_find_char(s, p, '<');
    let i = find_char(s, p, '<');
    if i < s.len() {
        lemma_find_char(s, i + 1, '>');
    }
}

/// The end of the run of whitespace that starts at `i`.
pub open spec fn ws_end(s: Seq<char>, i: int) -> int
    decreases s.len() - i,
{
    if 0 <= i < s.len() && is_ws(s[i]) {
        ws_end(s, i + 1)
    } else {
        i
    }
}

/// The end of the run of ASCII letters and digits that starts at `i`.
pub open spec fn alnum_end(s: Seq<char>, i: int) -> int
    decreases s.len() - i,
{
    if 0 <= i < s.len() && is_alnum(s[i]) {
        alnum_end(s, i + 1)
    } else {
        i
    }
}

/// Whether the inside of a tag (between `<` and `>`) starts with `/`.
pub open spec fn is_closing(inner: Seq<char>) -> bool {
    inner.len() > 0 && inner[0] == '/'
}

/// The name of a tag from its inside: after a leading `/` and whitespace,
/// the ASCII letters and digits, in lower case.
pub open spec fn tag_name(inner: Seq<char>) -> Seq<char> {
    let a = if is_closing(inner) { 1int } else { 0int };
    let b = ws_end(inner, a);
    inner.subrange(b, alnum_end(inner, b)).map_values(|c: char| lower(c))
}

pub open spec fn is_code_tag(name: Seq<char>) -> bool {
    name == seq!['p', 'r', 'e'] || name == seq!['c', 'o', 'd', 'e']
}

pub open spec fn is_link_tag(name: Seq<char>) -> bool {
    name == seq!['a']
}

/// How deep inside tags of a kind the scan is after a tag: one deeper after
/// an opening tag of the kind, one less deep (but not below 0) after a
/// closing one.
pub open spec fn next_depth(depth: nat, of_kind: bool, closing: bool) -> nat {
    if !of_kind {
        depth
    } else if closing {
        if depth > 0 {
            (depth - 1) as nat
        } else {
            0
        }
    } else {
        depth + 1
    }
}

/// A stretch of text between tags: marked up unless it stands inside a
/// `pre` or `code` element (or is empty); inside an `a` element only tags
/// are marked up, not URLs.
pub open spec fn text_segment(seg: Seq<char>, code: nat, link: nat) -> Seq<char> {
    if code == 0 && seg.len() > 0 {
        decorate(seg, link > 0)
    } else {
        seg
    }
}

/// HTML from `p` on, with the text between tags marked up; `code` and
/// `link` count the `pre`/`code` and `a` elements the scan is inside.
pub open spec fn postprocess_from(s: Seq<char>, p: int, code: nat, link: nat) -> Seq<char>
    decreases s.len() - p,
{
    if p < 0 || p > s.len() {
        seq![]
    } else {
        match next_tag(s, p) {
            None => text_segment(s.subrange(p, s.len() as int), code, link),
            Some((i, e)) => {
                proof {
                    lemma_next_tag(s, p);
                }
                let inner = s.subrange(i + 1, e - 1);
                let name = tag_name(inner);
                let closing = is_closing(inner);
                text_segment(s.subrange(p, i), code, link) + s.subrange(i, e) + postprocess_from(
                    s,
                    e,
                    next_depth(code, is_code_tag(name), closing),
                    next_depth(link, is_link_tag(name), closing),
                )
            },
        }
    }
}

/// HTML with its bare URLs turned into links and its tags into spans,
/// outside `pre` and `code` elements, and without nesting links in links.
pub open spec fn postprocessed(html: Seq<char>) -> Seq<char> {
    postprocess_from(html, 0, 0, 0)
}

fn find_char_exec(v: &Vec<char>, i: usize, c: char) -> (r: usize)
    requires
        i <= v.len(),
    ensures
        r == find_char(v@, i as int, c),
{
    let mut j = i;
    while j < v.len() && v[j] != c
        invariant
            i <= j <= v.len(),
            find_char(v@, i as int, c) == find_char(v@, j as int, c),
        decreases v.len() - j,
    {
        j = j + 1;
    }
    j
}

/// Whether the tag whose inside is `inner` closes, and whether it is a
/// `pre` or `code` tag and an `a` tag.
fn classify_tag(inner: &Vec<char>) -> (r: (bool, bool, bool))
    ensures
        r.0 == is_closing(inner@),
        r.1 == is_code_tag(tag_name(inner@)),
        r.2 == is_link_tag(tag_name(inner@)),
{
    let closing = inner.len() > 0 && inner[0] == '/';
    let a: usize = if closing { 1 } else { 0 };
    let mut b = a;
    while b < inner.len() && is_whitespace(inner[b])
        invariant
            a <= b <= inner.len(),
            ws_end(inner@, a as int) == ws_end(inner@, b as int),
        decreases inner.len() - b,
    {
        b = b + 1;
    }
    let mut e = b;
    while e < inner.len() && is_ascii_alnum(inner[e])
        invariant
            b <= e <= inner.len(),
            alnum_end(inner@, b as int) == alnum_end(inner@, e as int),
        decreases inner.len() - e,
    {
        e = e + 1;
    }
    let mut name: Vec<char> = Vec::new();
    let mut k = b;
    while k < e
        invariant
            b <= k <= e <= inner.len(),
            name@ == inner@.subrange(b as int, k as int).map_values(|c: char| lower(c)),
        decreases e - k,
    {
        name.push(to_lower(inner[k]));
        k = k + 1;
        assert(name@ =~= inner@.subrange(b as int, k as int).map_values(|c: char| lower(c)));
    }
    assert(name@ == tag_name(inner@));
    let is_pre = name.len() == 3 && name[0] == 'p' && name[1] == 'r' && name[2] == 'e';
    let is_code = name.len() == 4 && name[0] == 'c' && name[1] == 'o' && name[2] == 'd' && name[3]
        == 'e';
    let is_a = name.len() == 1 && name[0] == 'a';
    proof {
        if is_pre {
            assert(name@ =~= seq!['p', 'r', 'e']);
        }
        if is_code {
            assert(name@ =~= seq!['c', 'o', 'd', 'e']);
        }
        if is_a {
            assert(name@ =~= seq!['a']);
        }
    }
    (closing, is_pre || is_code, is_a)
}

/// Appends `text_segment(v[a..b], code, link)` to `out`.
fn push_segment(out: &mut Vec<char>, v: &Vec<char>, a: usize, b: usize, code: usize, link: usize)
    requires
        a <= b <= v.len(),
    ensures
        final(out)@ == old(out)@ + text_segment(v@.subrange(a as int, b as int), code as nat, link as nat),
{
    if code == 0 && b > a {
        let mut seg: Vec<char> = Vec::new();
        push_range(&mut seg, v, a, b);
        decorate_exec(&seg, link > 0, out);
    } else {
        push_range(out, v, a, b);
    }
}

/// Marks up the HTML of a page: in the text between tags, outside `pre` and
/// `code` elements, each bare URL becomes a link (unless it already stands
/// in one) and each tag a `<span class="tag">`.
pub fn postprocess_html(html: &str) -> (r: String)
    ensures
        r@ == postprocessed(html@),
{
    let v = chars_of(html);
    let mut out: Vec<char> = Vec::new();
    let mut code: usize = 0;
    let mut link: usize = 0;
    let mut p: usize = 0;
    loop
        invariant_except_break
            p <= v.len(),
            code <= p,
            link <= p,
            postprocessed(v@) == out@ + postprocess_from(v@, p as int, code as nat, link as nat),
        ensures
            postprocessed(v@) == out@,
        decreases v.len() - p,
    {
        let ghost before = out@;
        let i = find_char_exec(&v, p, '<');
        proof {
            lemma_find_char(v@, p as int, '<');
        }
        let j = if i < v.len() { find_char_exec(&v, i + 1, '>') } else { v.len() };
        proof {
            if i < v.len() {
                lemma_find_char(v@, i + 1, '>');
            }
        }
        if i >= v.len() || j >= v.len() {
            assert(next_tag(v@, p as int) is None);
            push_segment(&mut out, &v, p, v.len(), code, link);
            assert(out@ == before + postprocess_from(v@, p as int, code as nat, link as nat));
            break ;
        }
        let e = j + 1;
        assert(next_tag(v@, p as int) == Some((i as int, e as int)));
        push_segment(&mut out, &v, p, i, code, link);
        push_range(&mut out, &v, i, e);
        let mut inner: Vec<char> = Vec::new();
        push_range(&mut inner, &v, i + 1, j);
        let (closing, code_kind, link_kind) = classify_tag(&inner);
        let ghost old_code = code;
        let ghost old_link = link;
        if code_kind {
            if closing {
                if code > 0 {
                    code = code - 1;
                }
            } else {
                code = code + 1;
            }
        }
        if link_kind {
            if closing {
                if link > 0 {
                    link = link - 1;
                }
            } else {
                link = link + 1;
            }
        }
        proof {
            assert(inner@ == v@.subrange(i + 1, e - 1));
            assert(code == next_depth(old_code as nat, code_kind, closing));
            assert(link == next_depth(old_link as nat, link_kind, closing));
            assert(out@ == before + text_segment(v@.subrange(p as int, i as int), old_code as nat, old_link as nat) + v@.subrange(i as int, e as int));
        }
        p = e;
    }
    assert(v@ == html@);
    string_of(&out)
}

// ── links between cells ──────────────────────────────────────────────────────

/// The Markdown link that a link to `c` becomes: `[label](url)`, where the
/// label is the link's own or else the title of `c`.
pub open spec fn markdown_link(label: Option<Seq<char>>, c: CellView) -> Seq<char> {
    seq!['['] + (match label {
        Some(l) => l,
        None => c.title,
    }) + seq![']', '('] + url_of(c.slug) + seq![')']
}

/// `s` from `p` on with each link to a cell of `cells` turned into a
/// Markdown link; a link to an ID that no cell has is kept as it is.
pub open spec fn resolve_from(s: Seq<char>, p: int, cells: Seq<CellView>) -> Seq<char>
    decreases s.len() - p,
{
    if p < 0 || p >= s.len() {
        seq![]
    } else {
        match link_at(s, p) {
            Some((k, e)) => {
                proof {
                    lemma_link_at(s, p);
                }
                (match find_cell(cells, s.subrange(p + 2, k)) {
                    Some(c) => markdown_link(link_label(s, p), c),
                    None => s.subrange(p, e),
                }) + resolve_from(s, e, cells)
            },
            None => seq![s[p]] + resolve_from(s, p + 1, cells),
        }
    }
}

/// Turns each link `[[ID]]` or `[[ID|label]]` to a cell of the site into a
/// Markdown link to its URL, labelled with the link's label or else the
/// cell's title; links to IDs that no cell has are kept as they are.
pub fn resolve_links(content: &str, site: &Site) -> (r: String)
    ensures
        r@ == resolve_from(content@, 0, site@.cells),
{
    let v = chars_of(content);
    let mut out: Vec<char> = Vec::new();
    let mut p: usize = 0;
    while p < v.len()
        invariant
            p <= v.len(),
            v@ == content@,
            resolve_from(v@, 0, site@.cells) == out@ + resolve_from(v@, p as int, site@.cells),
        decreases v.len() - p,
    {
        let ghost before = out@;
        match link_at_exec(&v, p) {
            Some((k, e)) => {
                proof {
                    lemma_link_at(v@, p as int);
                }
                let id = string_of_range(&v, p + 2, k);
                match site.get_by_id(id.as_str()) {
                    Some(c) => {
                        out.push('[');
                        if v[k] == '|' {
                            push_range(&mut out, &v, k + 1, e - 2);
                        } else {
                            push_str_chars(&mut out, c.title.as_str());
                        }
                        out.push(']');
                        out.push('(');
                        let url = c.url();
                        push_str_chars(&mut out, url.as_str());
                        out.push(')');
                        assert(out@ =~= before + markdown_link(link_label(v@, p as int), c@));
                    },
                    None => {
                        push_range(&mut out, &v, p, e);
                    },
                }
                p = e;
            },
            None => {
                out.push(v[p]);
                p = p + 1;
            },
        }
    }
    string_of(&out)
}

// ── the graph of the site ───────────────────────────────────────────────────

/// A page as the graph, the search index and templates see it.
pub struct SiteNodeCtx {
    pub id: String,
    pub slug: String,
    pub title: String,
    pub url: String,
    pub text: String,
    pub tags: Vec<String>,
}

/// A link from one page to another.
pub struct SiteEdgeCtx {
    pub source: String,
    pub target: String,
}

/// All pages of the site, the home page included, and the links between them.
pub struct SiteGraphCtx {
    pub nodes: Vec<SiteNodeCtx>,
    pub edges: Vec<SiteEdgeCtx>,
}

pub struct SiteNodeView {
    pub id: Seq<char>,
    pub slug: Seq<char>,
    pub title: Seq<char>,
    pub url: Seq<char>,
    pub text: Seq<char>,
    pub tags: Seq<Seq<char>>,
}

pub struct SiteEdgeView {
    pub source: Seq<char>,
    pub target: Seq<char>,
}

pub struct SiteGraphView {
    pub nodes: Seq<SiteNodeView>,
    pub edges: Seq<SiteEdgeView>,
}

impl View for SiteNodeCtx {
    type V = SiteNodeView;

    open spec fn view(&self) -> SiteNodeView {
        SiteNodeView {
            id: self.id@,
            slug: self.slug@,
            title: self.title@,
            url: self.url@,
            text: self.text@,
            tags: strs(self.tags@),
        }
    }
}

impl View for SiteEdgeCtx {
    type V = SiteEdgeView;

    open spec fn view(&self) -> SiteEdgeView {
        SiteEdgeView { source: self.source@, target: self.target@ }
    }
}

pub open spec fn node_views(v: Seq<SiteNodeCtx>) -> Seq<SiteNodeView> {
    v.map_values(|n: SiteNodeCtx| n@)
}

pub open spec fn edge_views(v: Seq<SiteEdgeCtx>) -> Seq<SiteEdgeView> {
    v.map_values(|e: SiteEdgeCtx| e@)
}

impl View for SiteGraphCtx {
    type V = SiteGraphView;

    open spec fn view(&self) -> SiteGraphView {
        SiteGraphView { nodes: node_views(self.nodes@), edges: edge_views(self.edges@) }
    }
}

/// The node of a cell.
pub open spec fn node_of(c: CellView) -> SiteNodeView {
    SiteNodeView {
        id: c.id,
        slug: c.slug,
        title: c.title,
        url: url_of(c.slug),
        text: c.plain_text,
        tags: c.tags,
    }
}

/// The nodes of the cells, one for each, in order.
pub open spec fn nodes_of(cells: Seq<CellView>) -> Seq<SiteNodeView> {
    cells.map_values(|c: CellView| node_of(c))
}

/// The edges from `c` to each of `targets` that is a cell of `cells`, in
/// order (once for each link).
pub open spec fn edges_from(c: CellView, targets: Seq<Seq<char>>, cells: Seq<CellView>) -> Seq<
    SiteEdgeView,
>
    decreases targets.len(),
{
    if targets.len() == 0 {
        seq![]
    } else {
        let t = targets.last();
        edges_from(c, targets.drop_last(), cells) + if find_cell(cells, t) is Some {
            seq![SiteEdgeView { source: c.id, target: t }]
        } else {
            seq![]
        }
    }
}

/// The edges of the links of `part` to cells of `cells`.
pub open spec fn edges_of(part: Seq<CellView>, cells: Seq<CellView>) -> Seq<SiteEdgeView>
    decreases part.len(),
{
    if part.len() == 0 {
        seq![]
    } else {
        let c = part.last();
        edges_of(part.drop_last(), cells) + edges_from(c, c.outlinks, cells)
    }
}

/// The graph of a site with these cells.
pub open spec fn graph_of(cells: Seq<CellView>) -> SiteGraphView {
    SiteGraphView { nodes: nodes_of(cells), edges: edges_of(cells, cells) }
}

/// The graph of the site: a node for each page, the home page included,
/// and an edge for each link from a page to a page of the site.
pub fn build_graph(site: &Site) -> (r: SiteGraphCtx)
    ensures
        r@ == graph_of(site@.cells),
        r@.nodes.len() == site@.cells.len(),
        forall|i: int, j: int|
            0 <= i < j < r@.nodes.len() ==> #[trigger] r@.nodes[i].id != #[trigger] r@.nodes[j].id,
{
    let cells = site.all_cells();
    let ghost cv = site@.cells;
    let mut nodes: Vec<SiteNodeCtx> = Vec::new();
    let mut edges: Vec<SiteEdgeCtx> = Vec::new();
    let mut i: usize = 0;
    assert(nodes_of(cv.take(0)) =~= Seq::<SiteNodeView>::empty());
    while i < cells.len()
        invariant
            i <= cells.len(),
            cv == cell_views(cells@),
            cv == site@.cells,
            node_views(nodes@) == nodes_of(cv.take(i as int)),
            edge_views(edges@) == edges_of(cv.take(i as int), cv),
        decreases cells.len() - i,
    {
        let c = &cells[i];
        assert(cv.take(i + 1).drop_last() =~= cv.take(i as int));
        assert(cv.take(i + 1).last() == c@);
        {
            let ghost nb = node_views(nodes@);
            nodes.push(
                SiteNodeCtx {
                    id: c.id.clone(),
                    slug: c.slug.clone(),
                    title: c.title.clone(),
                    url: c.url(),
                    text: c.plain_text.clone(),
                    tags: clone_strings(&c.tags),
                },
            );
            assert(node_views(nodes@) =~= nb.push(node_of(c@)));
            assert(nodes_of(cv.take(i + 1)) =~= nodes_of(cv.take(i as int)).push(node_of(c@)));
            let ghost eb = edge_views(edges@);
            let mut j: usize = 0;
            while j < c.outlinks.len()
                invariant
                    i < cells.len(),
                    c == &cells[i as int],
                    cv == site@.cells,
                    j <= c.outlinks.len(),
                    edge_views(edges@) == eb + edges_from(c@, c@.outlinks.take(j as int), cv),
                decreases c.outlinks.len() - j,
            {
                let t = &c.outlinks[j];
                assert(c@.outlinks.take(j + 1).drop_last() =~= c@.outlinks.take(j as int));
                assert(c@.outlinks.take(j + 1).last() == t@);
                if site.get_by_id(t.as_str()).is_some() {
                    let ghost before = edge_views(edges@);
                    edges.push(SiteEdgeCtx { source: c.id.clone(), target: t.clone() });
                    assert(edge_views(edges@) =~= before.push(
                        SiteEdgeView { source: c@.id, target: t@ },
                    ));
                }
                j = j + 1;
            }
            assert(c@.outlinks.take(c@.outlinks.len() as int) =~= c@.outlinks);
        }
        i = i + 1;
    }
    assert(cv.take(cv.len() as int) =~= cv);
    proof {
        law_one_node_per_page(cv);
    }
    SiteGraphCtx { nodes, edges }
}

// ── rendering Markdown ──────────────────────────────────────────────────────

/// The first index at or after `i` whose event starts (`start`) or ends a
/// level-1 heading, or the length of `kinds`.
pub open spec fn find_h1(kinds: Seq<MdEvent>, i: int, start: bool) -> int
    decreases kinds.len() - i,
{
    if 0 <= i < kinds.len() && !(if start {
        kinds[i] is H1Start
    } else {
        kinds[i] is H1End
    }) {
        find_h1(kinds, i + 1, start)
    } else {
        i
    }
}

pub proof fn lemma_find_h1(kinds: Seq<MdEvent>, i: int, start: bool)
    requires
        0 <= i <= kinds.len(),
    ensures
        i <= find_h1(kinds, i, start) <= kinds.len(),
    decreases kinds.len() - i,
{
    if i < kinds.len() && !(if start {
        kinds[i] is H1Start
    } else {
        kinds[i] is H1End
    }) {
        lemma_find_h1(kinds, i + 1, start);
    }
}

/// The events of the first level-1 heading: from its start to its end,
/// both included; an empty range at the end where there is none.
pub open spec fn first_h1_span(kinds: Seq<MdEvent>) -> (int, int) {
    let a = find_h1(kinds, 0, true);
    if a >= kinds.len() {
        (kinds.len() as int, kinds.len() as int)
    } else {
        let b = find_h1(kinds, a + 1, false);
        (a, if b < kinds.len() { b + 1 } else { kinds.len() as int })
    }
}

fn find_h1_exec(kinds: &Vec<MdEvent>, i: usize, start: bool) -> (r: usize)
    requires
        i <= kinds.len(),
    ensures
        r == find_h1(kinds@, i as int, start),
{
    let mut j = i;
    while j < kinds.len()
        invariant
            i <= j <= kinds.len(),
            find_h1(kinds@, i as int, start) == find_h1(kinds@, j as int, start),
        decreases kinds.len() - j,
    {
        let hit = match &kinds[j] {
            MdEvent::H1Start => start,
            MdEvent::H1End => !start,
            _ => false,
        };
        if hit {
            return j;
        }
        j = j + 1;
    }
    j
}

/// The events without those of the first level-1 heading; `kinds` tells
/// what each event is.
pub fn without_first_h1<T>(events: Vec<T>, kinds: &Vec<MdEvent>) -> (r: Vec<T>)
    requires
        events.len() == kinds.len(),
    ensures
        r@ == events@.take(first_h1_span(kinds@).0) + events@.skip(first_h1_span(kinds@).1),
{
    let n = kinds.len();
    let a = find_h1_exec(kinds, 0, true);
    proof {
        lemma_find_h1(kinds@, 0, true);
    }
    if a >= n {
        assert(events@.take(n as int) + events@.skip(n as int) =~= events@);
        return events;
    }
    let b = find_h1_exec(kinds, a + 1, false);
    proof {
        lemma_find_h1(kinds@, a + 1, false);
    }
    let end = if b < n { b + 1 } else { n };
    let ghost all = events@;
    let mut events = events;
    let mut tail = events.split_off(end);
    events.truncate(a);
    events.append(&mut tail);
    assert(events@ =~= all.take(a as int) + all.skip(end as int));
    events
}

/// The positions `0 .. n`, in order.
pub open spec fn positions(n: int) -> Seq<usize> {
    Seq::new(n as nat, |i: int| i as usize)
}

/// The positions of the events of `text` (parsed with all extensions) that
/// remain once those of its first level-1 heading are left out.
pub open spec fn untitled_positions(text: Seq<char>) -> Seq<usize> {
    let ev = md_events(text, true);
    let span = first_h1_span(ev);
    positions(ev.len() as int).take(span.0) + positions(ev.len() as int).skip(span.1)
}

/// The HTML of a Markdown text whose links are resolved: all its events,
/// written by `pulldown_cmark` with all extensions, then marked up.
pub open spec fn page_html(text: Seq<char>) -> Seq<char> {
    postprocessed(md_html(text, true, positions(md_events(text, true).len() as int)))
}

/// `page_html` without the events of the first level-1 heading.
pub open spec fn page_html_without_title(text: Seq<char>) -> Seq<char> {
    postprocessed(md_html(text, true, untitled_positions(text)))
}

/// The positions `0 .. n`.
fn all_positions(n: usize) -> (r: Vec<usize>)
    ensures
        r@ == positions(n as int),
{
    let mut v: Vec<usize> = Vec::new();
    let mut i: usize = 0;
    while i < n
        invariant
            i <= n,
            v@ == positions(i as int),
        decreases n - i,
    {
        v.push(i);
        i = i + 1;
        assert(v@ =~= positions(i as int));
    }
    v
}

/// The HTML of a cell's source: its links resolved, rendered by
/// `pulldown_cmark` with all extensions, and marked up by
/// `postprocess_html`.
pub fn render_to_html(content: &str, site: &Site) -> (r: String)
    ensures
        r@ == page_html(resolve_from(content@, 0, site@.cells)),
{
    let resolved = resolve_links(content, site);
    let kinds = parse_markdown(resolved.as_str(), true);
    let kept = all_positions(kinds.len());
    let html = markdown_html(resolved.as_str(), true, &kept);
    postprocess_html(html.as_str())
}

/// The HTML of a cell's source as `render_to_html` makes it, but without
/// the events of the first level-1 heading (a later one stays).
pub fn render_without_title(content: &str, site: &Site) -> (r: String)
    ensures
        r@ == page_html_without_title(resolve_from(content@, 0, site@.cells)),
{
    let resolved = resolve_links(content, site);
    let kinds = parse_markdown(resolved.as_str(), true);
    let n = kinds.len();
    let kept = without_first_h1(all_positions(n), &kinds);
    proof {
        let span = first_h1_span(kinds@);
        lemma_find_h1(kinds@, 0, true);
        if span.0 < n {
            lemma_find_h1(kinds@, span.0 + 1, false);
        }
        assert forall|i: int| 0 <= i < kept.len() implies kept[i] < n by {
            if i < span.0 {
                assert(kept@[i] == positions(n as int)[i]);
            } else {
                assert(kept@[i] == positions(n as int)[i - span.0 + span.1]);
            }
        }
    }
    let html = markdown_html(resolved.as_str(), true, &kept);
    postprocess_html(html.as_str())
}

// ── what a page template sees ────────────────────────────────────────────────

/// The page being rendered.
pub struct PageCtx {
    pub id: String,
    pub slug: String,
    pub date: String,
    pub date_formatted: String,
    pub last_modified: String,
    pub title: String,
    pub url: String,
    pub body: String,
    pub body_without_title: String,
    pub backlinks: Vec<PageRef>,
    pub history: Vec<GitCommit>,
    pub tags: Vec<String>,
}

/// Everything a page template sees: the page, the newest pages, the graph
/// of the site, and the user's variables.
pub struct TemplateCtx {
    pub page: PageCtx,
    pub recent_pages: Vec<PageRef>,
    pub site_graph: SiteGraphCtx,
    pub vars: Vec<(String, String)>,
}

/// The date of the last commit: the date part (up to the first space) of
/// the author date of the first commit listed; empty without history.
pub open spec fn last_modified_of(history: Seq<GitCommitView>) -> Seq<char> {
    if history.len() == 0 {
        seq![]
    } else {
        let d = history[0].author_date;
        d.take(find_char(d, 0, ' '))
    }
}

/// The views of user variables.
pub open spec fn var_views(v: Seq<(String, String)>) -> Seq<(Seq<char>, Seq<char>)> {
    v.map_values(|p: (String, String)| (p.0@, p.1@))
}

fn clone_graph(g: &SiteGraphCtx) -> (r: SiteGraphCtx)
    ensures
        r@ == g@,
{
    let mut nodes: Vec<SiteNodeCtx> = Vec::new();
    for i in 0..g.nodes.len()
        invariant
            nodes.len() == i,
            node_views(nodes@) == node_views(g.nodes@.take(i as int)),
    {
        let n = &g.nodes[i];
        let ghost before = nodes@;
        nodes.push(
            SiteNodeCtx {
                id: n.id.clone(),
                slug: n.slug.clone(),
                title: n.title.clone(),
                url: n.url.clone(),
                text: n.text.clone(),
                tags: clone_strings(&n.tags),
            },
        );
        assert(g.nodes@.take(i + 1) =~= g.nodes@.take(i as int).push(g.nodes@[i as int]));
        assert forall|k: int| 0 <= k < nodes.len() implies node_views(nodes@)[k] == node_views(
            g.nodes@.take(i + 1),
        )[k] by {
            if k < i {
                assert(node_views(before)[k] == node_views(g.nodes@.take(i as int))[k]);
            }
        }
        assert(node_views(nodes@) =~= node_views(g.nodes@.take(i + 1)));
    }
    assert(g.nodes@.take(g.nodes.len() as int) =~= g.nodes@);
    let mut edges: Vec<SiteEdgeCtx> = Vec::new();
    for i in 0..g.edges.len()
        invariant
            edges.len() == i,
            edge_views(edges@) == edge_views(g.edges@.take(i as int)),
    {
        let e = &g.edges[i];
        let ghost before = edges@;
        edges.push(SiteEdgeCtx { source: e.source.clone(), target: e.target.clone() });
        assert(g.edges@.take(i + 1) =~= g.edges@.take(i as int).push(g.edges@[i as int]));
        assert forall|k: int| 0 <= k < edges.len() implies edge_views(edges@)[k] == edge_views(
            g.edges@.take(i + 1),
        )[k] by {
            if k < i {
                assert(edge_views(before)[k] == edge_views(g.edges@.take(i as int))[k]);
            }
        }
        assert(edge_views(edges@) =~= edge_views(g.edges@.take(i + 1)));
    }
    assert(g.edges@.take(g.edges.len() as int) =~= g.edges@);
    SiteGraphCtx { nodes, edges }
}

fn clone_vars(v: &Vec<(String, String)>) -> (r: Vec<(String, String)>)
    ensures
        var_views(r@) == var_views(v@),
{
    let mut r: Vec<(String, String)> = Vec::new();
    for i in 0..v.len()
        invariant
            r.len() == i,
            var_views(r@) == var_views(v@.take(i as int)),
    {
        let ghost before = r@;
        r.push((v[i].0.clone(), v[i].1.clone()));
        assert(v@.take(i + 1) =~= v@.take(i as int).push(v@[i as int]));
        assert forall|k: int| 0 <= k < r.len() implies var_views(r@)[k] == var_views(v@.take(i + 1))[k] by {
            if k < i {
                assert(var_views(before)[k] == var_views(v@.take(i as int))[k]);
            }
        }
        assert(var_views(r@) =~= var_views(v@.take(i + 1)));
    }
    assert(v@.take(v.len() as int) =~= v@);
    r
}

/// What the template of a cell's page sees: the cell's fields, its date as
/// `YYYY-MM-DD`, the date of its last commit, its rendered body with and
/// without its title, the pages that link to it, the newest pages, the
/// graph of the site and the user's variables.
pub fn build_context(
    cell: &Cell,
    site: &Site,
    graph: &SiteGraphCtx,
    vars: &Vec<(String, String)>,
) -> (r: TemplateCtx)
    ensures
        r.page.id@ == cell@.id,
        r.page.slug@ == cell@.slug,
        r.page.date@ == cell@.date,
        r.page.date_formatted@ == formatted_date(cell@.date),
        r.page.last_modified@ == last_modified_of(cell@.history),
        r.page.title@ == cell@.title,
        r.page.url@ == url_of(cell@.slug),
        r.page.body@ == page_html(resolve_from(cell@.raw, 0, site@.cells)),
        r.page.body_without_title@ == page_html_without_title(resolve_from(cell@.raw, 0, site@.cells)),
        page_refs(r.page.backlinks@) == backlinks_of(site@.cells, cell@.id),
        commits(r.page.history@) == cell@.history,
        strs(r.page.tags@) == cell@.tags,
        page_refs(r.recent_pages@) == refs_for_ids(site@.cells, site@.recent),
        r.site_graph@ == graph@,
        var_views(r.vars@) == var_views(vars@),
{
    let body = render_to_html(cell.raw.as_str(), site);
    let body_without_title = render_without_title(cell.raw.as_str(), site);
    let backlinks = site.backlink_pagerefs(cell.id.as_str());
    let recent_pages = site.recent_pagerefs();
    let last_modified = if cell.history.len() > 0 {
        let d = chars_of(cell.history[0].author_date.as_str());
        let end = find_char_exec(&d, 0, ' ');
        proof {
            lemma_find_char(d@, 0, ' ');
        }
        string_of_range(&d, 0, end)
    } else {
        String::new()
    };
    TemplateCtx {
        page: PageCtx {
            id: cell.id.clone(),
            slug: cell.slug.clone(),
            date: String::from_str(cell.created_date()),
            date_formatted: format_date(cell.created_date()),
            last_modified,
            title: cell.title.clone(),
            url: cell.url(),
            body,
            body_without_title,
            backlinks,
            history: clone_commits(&cell.history),
            tags: clone_strings(&cell.tags),
        },
        recent_pages,
        site_graph: clone_graph(graph),
        vars: clone_vars(vars),
    }
}

} // verus!
