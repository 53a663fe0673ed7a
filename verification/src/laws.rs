//! What holds of the library as a whole: properties of tags, links,
//! lookups, the graph, plain text and diffs, proved over the specifications
//! that the functions' contracts use.
use vstd::prelude::*;
use crate::cell::{cell_of, dedup, index_filename, index_id, url_of, plain_text_of, spaced_text_from, squeeze_from, lower_all, raw_tags_from, tags_of, CellView};
use crate::markdown::{md_events, md_html, MdEvent};
use crate::syntax::{lemma_digits_end, digits_end, bracket_end, lemma_link_at, filename_parts, is_slug, link_at, link_label, outlinks_from, decorate, tags_from, tag_at, tag_chars_end, url_at, starts_with_at, lemma_tag_at, is_tag_char, is_tag_prefix, lemma_url_at, lemma_tag_chars_end, decorate_from, url_html, url_chars_end, last_url_char, scheme_end, is_url_stop, is_url_trailer};
use crate::git::{diff_limit, diff_text, fitting_chars, patch_text, trim_end, truncation_mark, utf8_len, DiffLine, GitCommitView};
use crate::render::{alnum_end, find_char, is_closing, next_tag, postprocess_from, postprocessed, tag_name, markdown_link, resolve_from, edges_from, edges_of, graph_of, node_of, nodes_of, find_h1, first_h1_span, page_html, page_html_without_title, positions, last_modified_of, SiteEdgeView};
use crate::site::{
    backlinks_of, find_cell, has_id, ids_unique, is_recent, latest, lemma_latest, lex_lt, page_ids, page_ref_of, PageRefView,
    refs_for_ids, slug_pairs, slug_target,
};
use crate::text::{is_alnum, is_alpha, is_digit, is_ws, lower, lower_seq};

verus! {

/// `dedup` keeps each element once.
pub proof fn lemma_dedup_unique<T>(s: Seq<T>)
    ensures
        forall|i: int, j: int| 0 <= i < j < dedup(s).len() ==> dedup(s)[i] != dedup(s)[j],
        forall|x: T| dedup(s).contains(x) <==> s.contains(x),
    decreases s.len(),
{
    if s.len() > 0 {
        let t = s.drop_last();
        lemma_dedup_unique(t);
        let d = dedup(t);
        assert(t.len() == s.len() - 1);
        assert(dedup(s) == if d.contains(s.last()) {
            d
        } else {
            d.push(s.last())
        });
        assert forall|x: T| dedup(s).contains(x) <==> s.contains(x) by {
            if s.contains(x) {
                let k = choose|k: int| 0 <= k < s.len() && s[k] == x;
                if k < s.len() - 1 {
                    assert(t[k] == s[k]);
                    assert(t[k] == x);
                    assert(t.contains(x));
                    if !d.contains(s.last()) {
                        let m = choose|m: int| 0 <= m < d.len() && d[m] == x;
                        assert(d.push(s.last())[m] == x);
                    }
                } else if !d.contains(s.last()) {
                    assert(d.push(s.last())[d.len() as int] == x);
                }
            }
            if dedup(s).contains(x) {
                let m = choose|m: int| 0 <= m < dedup(s).len() && dedup(s)[m] == x;
                if m < d.len() {
                    assert(d[m] == x);
                    assert(d.contains(x));
                    assert(t.contains(x));
                    let k = choose|k: int| 0 <= k < t.len() && t[k] == x;
                    assert(t[k] == s[k]);
                    assert(s[k] == x);
                } else {
                    assert(s[s.len() - 1] == x);
                }
            }
        }
    }
}

/// Tags are normalized: a cell's tags are in lower case, and each is listed
/// once.
pub proof fn law_tags_normalized(content: Seq<char>)
    ensures
        forall|i: int, j: int|
            0 <= i < j < tags_of(content).len() ==> tags_of(content)[i] != tags_of(content)[j],
        forall|i: int, k: int|
            0 <= i < tags_of(content).len() && 0 <= k < tags_of(content)[i].len() ==> !(
            'A' <= #[trigger] tags_of(content)[i][k] && tags_of(content)[i][k] <= 'Z'),
{
    let raw = raw_tags_from(md_events(content, false), 0, false);
    let lowered = lower_all(raw);
    lemma_dedup_unique(lowered);
    let tags = tags_of(content);
    assert forall|i: int, k: int|
        0 <= i < tags.len() && 0 <= k < tags[i].len() implies !('A' <= #[trigger] tags[i][k] && tags[i][k] <= 'Z') by {
        assert(dedup(lowered).contains(tags[i]));
        assert(lowered.contains(tags[i]));
        let m = choose|m: int| 0 <= m < lowered.len() && lowered[m] == tags[i];
        assert(lowered[m] == lower_seq(raw[m]));
        assert(tags[i][k] == lower(raw[m][k]));
    }
}

// ── the site ─────────────────────────────────────────────────────────────────

/// The last cell read with this ID.
pub open spec fn last_read(read: Seq<CellView>, id: Seq<char>) -> Option<CellView>
    decreases read.len(),
{
    if read.len() == 0 {
        None
    } else {
        match last_read(read.drop_first(), id) {
            Some(c) => Some(c),
            None => if read[0].id == id {
                Some(read[0])
            } else {
                None
            },
        }
    }
}

proof fn lemma_last_read_some(read: Seq<CellView>, id: Seq<char>)
    ensures
        last_read(read, id) is Some <==> has_id(read, id),
        last_read(read, id) matches Some(c) ==> c.id == id,
    decreases read.len(),
{
    if read.len() > 0 {
        let t = read.drop_first();
        lemma_last_read_some(t, id);
        if has_id(t, id) {
            let k = choose|k: int| 0 <= k < t.len() && t[k].id == id;
            assert(read[k + 1].id == id);
        }
        if has_id(read, id) && read[0].id != id {
            let k = choose|k: int| 0 <= k < read.len() && read[k].id == id;
            assert(t[k - 1].id == id);
        }
    }
}

/// A cell is found by its ID: where two cells read share an ID, the one
/// read last is the one found.
pub proof fn law_last_read_wins(read: Seq<CellView>, id: Seq<char>)
    ensures
        find_cell(latest(read), id) == last_read(read, id),
    decreases read.len(),
{
    if read.len() > 0 {
        let t = read.drop_first();
        law_last_read_wins(t, id);
        lemma_last_read_some(t, id);
        if !has_id(t, read[0].id) {
            let l = latest(read);
            assert(l == seq![read[0]] + latest(t));
            assert(l[0] == read[0]);
            assert(l.drop_first() =~= latest(t));
        }
    }
}

proof fn lemma_find_cell(cells: Seq<CellView>, id: Seq<char>)
    ensures
        find_cell(cells, id) is Some <==> has_id(cells, id),
        find_cell(cells, id) matches Some(c) ==> c.id == id && cells.contains(c),
    decreases cells.len(),
{
    if cells.len() > 0 {
        let t = cells.drop_first();
        lemma_find_cell(t, id);
        if has_id(t, id) {
            let k = choose|k: int| 0 <= k < t.len() && t[k].id == id;
            assert(cells[k + 1].id == id);
        }
        if has_id(cells, id) && cells[0].id != id {
            let k = choose|k: int| 0 <= k < cells.len() && cells[k].id == id;
            assert(t[k - 1].id == id);
        }
        if cells[0].id == id {
            assert(cells[0] == cells[0]);
            assert(cells.contains(cells[0]));
        } else if let Some(c) = find_cell(t, id) {
            let k = choose|k: int| 0 <= k < t.len() && t[k] == c;
            assert(cells[k + 1] == c);
        }
    }
}

proof fn lemma_slug_target_read(read: Seq<CellView>, slug: Seq<char>)
    ensures
        slug_target(slug_pairs(read), slug) matches Some(id) ==> has_id(read, id),
    decreases read.len(),
{
    if read.len() > 0 {
        let p = slug_pairs(read);
        assert(p.drop_last() =~= slug_pairs(read.drop_last()));
        lemma_slug_target_read(read.drop_last(), slug);
        if let Some(id) = slug_target(p, slug) {
            if p.last().0 == slug {
                assert(read[read.len() - 1].id == id);
            } else {
                let k = choose|k: int| 0 <= k < read.drop_last().len() && read.drop_last()[k].id == id;
                assert(read[k].id == id);
            }
        }
    }
}

/// Every slug that was read leads to a cell: the ID it stands for is that
/// of a cell of the site.
pub proof fn law_slugs_resolve(read: Seq<CellView>, slug: Seq<char>)
    ensures
        slug_target(slug_pairs(read), slug) matches Some(id) ==> find_cell(latest(read), id) is Some,
{
    lemma_slug_target_read(read, slug);
    lemma_latest(read);
    if let Some(id) = slug_target(slug_pairs(read), slug) {
        lemma_find_cell(latest(read), id);
    }
}

/// No two of these cells share a slug.
pub open spec fn slugs_unique(cells: Seq<CellView>) -> bool {
    forall|i: int, j: int| 0 <= i < j < cells.len() ==> #[trigger] cells[i].slug != #[trigger] cells[j].slug
}

proof fn lemma_latest_of_unique(s: Seq<CellView>)
    requires
        ids_unique(s),
    ensures
        latest(s) == s,
    decreases s.len(),
{
    if s.len() > 0 {
        let t = s.drop_first();
        assert(ids_unique(t)) by {
            assert forall|i: int, j: int| 0 <= i < j < t.len() implies #[trigger] t[i].id != #[trigger] t[j].id by {
                assert(t[i] == s[i + 1] && t[j] == s[j + 1]);
            }
        }
        lemma_latest_of_unique(t);
        assert(!has_id(t, s[0].id)) by {
            if has_id(t, s[0].id) {
                let k = choose|k: int| 0 <= k < t.len() && t[k].id == s[0].id;
                assert(s[k + 1].id == s[0].id);
            }
        }
        assert(seq![s[0]] + t =~= s);
    }
}

proof fn lemma_find_unique(s: Seq<CellView>, k: int)
    requires
        ids_unique(s),
        0 <= k < s.len(),
    ensures
        find_cell(s, s[k].id) == Some(s[k]),
    decreases k,
{
    if k > 0 {
        let t = s.drop_first();
        assert(ids_unique(t)) by {
            assert forall|i: int, j: int| 0 <= i < j < t.len() implies #[trigger] t[i].id != #[trigger] t[j].id by {
                assert(t[i] == s[i + 1] && t[j] == s[j + 1]);
            }
        }
        assert(t[k - 1] == s[k]);
        lemma_find_unique(t, k - 1);
        assert(s[0].id != s[k].id);
    }
}

proof fn lemma_slug_target_unique(s: Seq<CellView>, slug: Seq<char>)
    requires
        slugs_unique(s),
    ensures
        forall|k: int| 0 <= k < s.len() && s[k].slug == slug ==> slug_target(slug_pairs(s), slug) == Some(
            #[trigger] s[k].id,
        ),
        (slug_target(slug_pairs(s), slug) is None) <==> (forall|k: int| 0 <= k < s.len() ==> #[trigger] s[k].slug != slug),
    decreases s.len(),
{
    if s.len() > 0 {
        let t = s.drop_last();
        let n = s.len() - 1;
        assert(slug_pairs(s).drop_last() =~= slug_pairs(t));
        assert(slugs_unique(t)) by {
            assert forall|i: int, j: int| 0 <= i < j < t.len() implies #[trigger] t[i].slug != #[trigger] t[j].slug by {
                assert(t[i] == s[i] && t[j] == s[j]);
            }
        }
        lemma_slug_target_unique(t, slug);
        assert forall|k: int| 0 <= k < s.len() && s[k].slug == slug implies slug_target(slug_pairs(s), slug) == Some(
            #[trigger] s[k].id,
        ) by {
            if k < n {
                assert(s[n].slug != s[k].slug);
                assert(t[k] == s[k]);
            }
        }
        if s[n].slug != slug {
            if forall|k: int| 0 <= k < t.len() ==> #[trigger] t[k].slug != slug {
                assert forall|k: int| 0 <= k < s.len() implies #[trigger] s[k].slug != slug by {
                    if k < n {
                        assert(t[k] == s[k]);
                    }
                }
            }
            if forall|k: int| 0 <= k < s.len() ==> #[trigger] s[k].slug != slug {
                assert forall|k: int| 0 <= k < t.len() implies #[trigger] t[k].slug != slug by {
                    assert(t[k] == s[k]);
                }
            }
        } else {
            assert(s[n].slug == slug);
        }
    }
}

/// Slugs lead back to their cells: where no two cells read share an ID or
/// a slug, every cell read stays in the site, is found again by its ID and
/// by its slug, and a slug that no cell read has leads nowhere.
pub proof fn law_slug_round_trip(read: Seq<CellView>, slug: Seq<char>)
    requires
        ids_unique(read),
        slugs_unique(read),
    ensures
        latest(read) == read,
        forall|k: int|
            0 <= k < read.len() ==> slug_target(slug_pairs(read), #[trigger] read[k].slug) == Some(read[k].id)
                && find_cell(latest(read), read[k].id) == Some(read[k]),
        (slug_target(slug_pairs(read), slug) is None) <==> (forall|k: int|
            0 <= k < read.len() ==> #[trigger] read[k].slug != slug),
{
    lemma_latest_of_unique(read);
    lemma_slug_target_unique(read, slug);
    assert forall|k: int| 0 <= k < read.len() implies slug_target(slug_pairs(read), #[trigger] read[k].slug)
        == Some(read[k].id) && find_cell(latest(read), read[k].id) == Some(read[k]) by {
        lemma_slug_target_unique(read, read[k].slug);
        lemma_find_unique(read, k);
    }
}

/// The reference is that of a page of `cells` that links to `target`.
pub open spec fn is_link_from(cells: Seq<CellView>, target: Seq<char>, r: PageRefView) -> bool {
    exists|k: int| 0 <= k < cells.len() && cells[k].outlinks.contains(target) && r == page_ref_of(cells[k])
}

/// Backlinks are tracked: each page that links to `target`, the home page
/// included, is among its backlinks, and each backlink is such a page.
pub proof fn law_backlinks(cells: Seq<CellView>, target: Seq<char>)
    ensures
        forall|k: int|
            0 <= k < cells.len() && cells[k].outlinks.contains(target)
                ==> backlinks_of(cells, target).contains(page_ref_of(#[trigger] cells[k])),
        forall|i: int|
            0 <= i < backlinks_of(cells, target).len() ==> is_link_from(
                cells,
                target,
                #[trigger] backlinks_of(cells, target)[i],
            ),
    decreases cells.len(),
{
    if cells.len() > 0 {
        let t = cells.drop_last();
        law_backlinks(t, target);
        let b = backlinks_of(cells, target);
        let bt = backlinks_of(t, target);
        let c = cells.last();
        assert forall|k: int|
            0 <= k < cells.len() && cells[k].outlinks.contains(target)
                implies b.contains(page_ref_of(#[trigger] cells[k])) by {
            if k < t.len() {
                assert(t[k] == cells[k]);
                assert(bt.contains(page_ref_of(t[k])));
                let m = choose|m: int| 0 <= m < bt.len() && bt[m] == page_ref_of(t[k]);
                assert(b[m] == bt[m]);
            } else {
                assert(b[bt.len() as int] == page_ref_of(c));
            }
        }
        assert forall|i: int| 0 <= i < b.len() implies is_link_from(cells, target, #[trigger] b[i]) by {
            if i < bt.len() {
                assert(b[i] == bt[i]);
                assert(is_link_from(t, target, bt[i]));
                let k = choose|k: int|
                    0 <= k < t.len() && t[k].outlinks.contains(target) && bt[i] == page_ref_of(t[k]);
                assert(cells[k] == t[k]);
            } else {
                assert(cells[cells.len() - 1] == c);
            }
        }
    }
}

/// The newest pages are listed newest first (by ID, greatest first), each
/// is a page of the site, and the home page is not among them.
pub proof fn law_recent_pages(cells: Seq<CellView>, recent: Seq<Seq<char>>)
    requires
        is_recent(recent, page_ids(cells)),
    ensures
        refs_for_ids(cells, recent).len() == recent.len(),
        forall|i: int|
            0 <= i < recent.len() ==> (#[trigger] refs_for_ids(cells, recent)[i]).id == recent[i]
                && recent[i] != index_id() && has_id(cells, recent[i]),
        forall|i: int, j: int|
            0 <= i < j < recent.len() ==> lex_lt(
                refs_for_ids(cells, recent)[j].id,
                refs_for_ids(cells, recent)[i].id,
            ),
{
    lemma_refs_for_ids(cells, recent);
    let r = refs_for_ids(cells, recent);
    assert forall|i: int| 0 <= i < recent.len() implies (#[trigger] r[i]).id == recent[i]
        && recent[i] != index_id() && has_id(cells, recent[i]) by {
        assert(page_ids(cells).contains(recent[i]));
    }
    assert forall|i: int, j: int| 0 <= i < j < recent.len() implies lex_lt(r[j].id, r[i].id) by {
        assert(lex_lt(recent[j], recent[i]));
    }
}

proof fn lemma_refs_for_ids(cells: Seq<CellView>, ids: Seq<Seq<char>>)
    requires
        forall|i: int| 0 <= i < ids.len() ==> has_id(cells, #[trigger] ids[i]),
    ensures
        refs_for_ids(cells, ids).len() == ids.len(),
        forall|i: int| 0 <= i < ids.len() ==> (#[trigger] refs_for_ids(cells, ids)[i]).id == ids[i],
    decreases ids.len(),
{
    if ids.len() > 0 {
        let t = ids.drop_last();
        assert forall|i: int| 0 <= i < t.len() implies has_id(cells, #[trigger] t[i]) by {
            assert(t[i] == ids[i]);
        }
        lemma_refs_for_ids(cells, t);
        lemma_find_cell(cells, ids.last());
        assert(has_id(cells, ids[ids.len() - 1]));
        let r = refs_for_ids(cells, ids);
        assert forall|i: int| 0 <= i < ids.len() implies (#[trigger] r[i]).id == ids[i] by {
            if i < t.len() {
                assert(r[i] == refs_for_ids(cells, t)[i]);
                assert(t[i] == ids[i]);
            }
        }
    }
}

// ── the graph ────────────────────────────────────────────────────────────────

/// The graph has a node with this ID.
pub open spec fn has_node(cells: Seq<CellView>, id: Seq<char>) -> bool {
    exists|i: int| 0 <= i < nodes_of(cells).len() && (#[trigger] nodes_of(cells)[i]).id == id
}

proof fn lemma_edges_from(c: CellView, targets: Seq<Seq<char>>, cells: Seq<CellView>)
    ensures
        forall|i: int|
            0 <= i < edges_from(c, targets, cells).len() ==> (#[trigger] edges_from(c, targets, cells)[i]).source
                == c.id && find_cell(
                cells,
                edges_from(c, targets, cells)[i].target,
            ) is Some && targets.contains(edges_from(c, targets, cells)[i].target),
    decreases targets.len(),
{
    if targets.len() > 0 {
        let tl = targets.drop_last();
        lemma_edges_from(c, tl, cells);
        let e = edges_from(c, targets, cells);
        let et = edges_from(c, tl, cells);
        assert forall|i: int| 0 <= i < e.len() implies (#[trigger] e[i]).source == c.id
            && find_cell(cells, e[i].target) is Some && targets.contains(e[i].target) by {
            if i < et.len() {
                assert(e[i] == et[i]);
                let m = choose|m: int| 0 <= m < tl.len() && tl[m] == et[i].target;
                assert(targets[m] == tl[m]);
            } else {
                assert(targets[targets.len() - 1] == e[i].target);
            }
        }
    }
}

proof fn lemma_edges_of(part: Seq<CellView>, cells: Seq<CellView>)
    requires
        forall|k: int| 0 <= k < part.len() ==> cells.contains(#[trigger] part[k]),
    ensures
        forall|i: int|
            0 <= i < edges_of(part, cells).len() ==> has_node(cells, (#[trigger] edges_of(part, cells)[i]).source)
                && has_node(cells, edges_of(part, cells)[i].target),
    decreases part.len(),
{
    if part.len() > 0 {
        let t = part.drop_last();
        assert forall|k: int| 0 <= k < t.len() implies cells.contains(#[trigger] t[k]) by {
            assert(t[k] == part[k]);
        }
        lemma_edges_of(t, cells);
        let c = part.last();
        lemma_edges_from(c, c.outlinks, cells);
        let e = edges_of(part, cells);
        let et = edges_of(t, cells);
        assert forall|i: int| 0 <= i < e.len() implies has_node(cells, (#[trigger] e[i]).source)
            && has_node(cells, e[i].target) by {
            if i < et.len() {
                assert(e[i] == et[i]);
            } else {
                let ef = edges_from(c, c.outlinks, cells);
                assert(e[i] == ef[i - et.len()]);
                assert(cells.contains(part[part.len() - 1]));
                let k = choose|k: int| 0 <= k < cells.len() && cells[k] == c;
                assert(nodes_of(cells)[k].id == e[i].source);
                lemma_find_cell(cells, e[i].target);
                let x = find_cell(cells, e[i].target)->0;
                let k2 = choose|k2: int| 0 <= k2 < cells.len() && cells[k2] == x;
                assert(nodes_of(cells)[k2].id == e[i].target);
            }
        }
    }
}

/// The graph's edges join its nodes: each link that is an edge goes from a
/// page that is a node to a page that is a node.
pub proof fn law_edges_join_nodes(cells: Seq<CellView>)
    ensures
        forall|i: int|
            0 <= i < graph_of(cells).edges.len() ==> has_node(cells, (#[trigger] graph_of(cells).edges[i]).source)
                && has_node(cells, graph_of(cells).edges[i].target),
{
    lemma_edges_of(cells, cells);
}

/// The graph has one node for each page, the home page included, in the
/// order of the pages; where no two pages share an ID, no two nodes do.
pub proof fn law_one_node_per_page(cells: Seq<CellView>)
    ensures
        nodes_of(cells).len() == cells.len(),
        forall|k: int| 0 <= k < cells.len() ==> #[trigger] nodes_of(cells)[k] == node_of(cells[k]),
        ids_unique(cells) ==> forall|i: int, j: int|
            0 <= i < j < nodes_of(cells).len() ==> #[trigger] nodes_of(cells)[i].id
                != #[trigger] nodes_of(cells)[j].id,
{
    if ids_unique(cells) {
        assert forall|i: int, j: int| 0 <= i < j < nodes_of(cells).len() implies #[trigger] nodes_of(
            cells,
        )[i].id != #[trigger] nodes_of(cells)[j].id by {
            assert(cells[i].id != cells[j].id);
        }
    }
}

// ── text ─────────────────────────────────────────────────────────────────────

proof fn lemma_squeeze_from(s: Seq<char>, i: int, started: bool, gap: bool)
    requires
        0 <= i,
    ensures
        forall|k: int|
            0 <= k < squeeze_from(s, i, started, gap).len() && is_ws(
                #[trigger] squeeze_from(s, i, started, gap)[k],
            ) ==> squeeze_from(s, i, started, gap)[k] == ' ' && k + 1 < squeeze_from(s, i, started, gap).len()
                && !is_ws(squeeze_from(s, i, started, gap)[k + 1]),
        (squeeze_from(s, i, started, gap).len() > 0 && squeeze_from(s, i, started, gap)[0] == ' ')
            ==> started,
    decreases s.len() - i,
{
    let r = squeeze_from(s, i, started, gap);
    if i < s.len() {
        if is_ws(s[i]) {
            lemma_squeeze_from(s, i + 1, started, true);
            assert(r == squeeze_from(s, i + 1, started, true));
        } else {
            lemma_squeeze_from(s, i + 1, true, false);
            let rest = squeeze_from(s, i + 1, true, false);
            let pre: Seq<char> = if started && gap { seq![' '] } else { seq![] };
            assert(r == pre + seq![s[i]] + rest);
            assert forall|k: int| 0 <= k < r.len() && is_ws(#[trigger] r[k]) implies r[k] == ' ' && k + 1
                < r.len() && !is_ws(r[k + 1]) by {
                if k < pre.len() {
                    assert(r[k + 1] == s[i]);
                } else if k == pre.len() {
                    assert(r[k] == s[i]);
                } else {
                    assert(r[k] == rest[k - pre.len() - 1]);
                    assert(is_ws(rest[k - pre.len() - 1]));
                    assert(r[k + 1] == rest[k - pre.len()]);
                }
            }
            if r.len() > 0 && r[0] == ' ' {
                if pre.len() == 0 {
                    assert(r[0] == s[i]);
                }
            }
        }
    } else {
        assert(r.len() == 0);
    }
}

/// The plain text of a page is its words joined by single spaces: it holds
/// no whitespace but spaces, starts and ends with none, and no two spaces
/// stand together.
pub proof fn law_plain_text_spacing(content: Seq<char>)
    ensures
        ({
            let t = plain_text_of(content);
            &&& forall|k: int| 0 <= k < t.len() && is_ws(#[trigger] t[k]) ==> t[k] == ' ' && 0 < k && k + 1 < t.len() && t[k + 1] != ' '
        }),
{
    let s = spaced_text_from(md_events(content, false), 0);
    lemma_squeeze_from(s, 0, false, false);
    let t = plain_text_of(content);
    assert forall|k: int| 0 <= k < t.len() && is_ws(#[trigger] t[k]) implies t[k] == ' ' && 0 < k && k + 1 < t.len() && t[k + 1] != ' ' by {
        if k == 0 {
            assert(t[0] == ' ');
        }
    }
}

// ── diffs ────────────────────────────────────────────────────────────────────

/// The number of bytes that `s` takes in UTF-8.
pub open spec fn utf8_bytes(s: Seq<char>) -> int
    decreases s.len(),
{
    if s.len() == 0 {
        0
    } else {
        utf8_bytes(s.drop_last()) + utf8_len(s.last())
    }
}

proof fn lemma_utf8_bytes_split(a: Seq<char>, b: Seq<char>)
    ensures
        utf8_bytes(a + b) == utf8_bytes(a) + utf8_bytes(b),
    decreases b.len(),
{
    if b.len() == 0 {
        assert(a + b =~= a);
    } else {
        assert((a + b).drop_last() =~= a + b.drop_last());
        lemma_utf8_bytes_split(a, b.drop_last());
    }
}

proof fn lemma_fitting_chars(s: Seq<char>, i: int, limit: int)
    requires
        0 <= i <= s.len(),
        limit >= 0,
    ensures
        ({
            let k = fitting_chars(s, i, limit);
            &&& 0 <= k <= s.len() - i
            &&& utf8_bytes(s.subrange(i, i + k)) <= limit
            &&& i + k < s.len() ==> utf8_bytes(s.subrange(i, i + k + 1)) > limit
        }),
    decreases s.len() - i,
{
    let k = fitting_chars(s, i, limit);
    if i < s.len() && utf8_len(s[i]) <= limit {
        let l2 = limit - utf8_len(s[i]);
        lemma_fitting_chars(s, i + 1, l2);
        let k2 = fitting_chars(s, i + 1, l2);
        assert(s.subrange(i, i + k) =~= seq![s[i]] + s.subrange(i + 1, i + 1 + k2));
        lemma_utf8_bytes_split(seq![s[i]], s.subrange(i + 1, i + 1 + k2));
        assert(seq![s[i]].drop_last() =~= Seq::<char>::empty());
        assert(utf8_bytes(Seq::<char>::empty()) == 0);
        assert(utf8_bytes(seq![s[i]]) == utf8_len(s[i]));
        if i + k < s.len() {
            assert(s.subrange(i, i + k + 1) =~= seq![s[i]] + s.subrange(i + 1, i + 1 + k2 + 1));
            lemma_utf8_bytes_split(seq![s[i]], s.subrange(i + 1, i + 1 + k2 + 1));
        }
    } else {
        assert(s.subrange(i, i) =~= Seq::<char>::empty());
        assert(utf8_bytes(Seq::<char>::empty()) == 0);
        if i < s.len() {
            assert(s.subrange(i, i + 1).drop_last() =~= Seq::<char>::empty());
            assert(utf8_bytes(s.subrange(i, i + 1)) == utf8_len(s[i]));
        }
    }
}

/// Diffs are cut at 8 KB: a commit's diff of a file is never empty, and it
/// is either at most 8192 bytes long in UTF-8, or the longest prefix of the
/// text within 8192 bytes followed by `…(truncated)`.
pub proof fn law_diff_within_limit(touches: bool, lines: Seq<DiffLine>)
    ensures
        diff_text(touches, lines) matches Some(d) ==> d.len() > 0 && (utf8_bytes(d) <= diff_limit() || (
        d.len() > truncation_mark().len() && d.skip(d.len() - truncation_mark().len())
            == truncation_mark() && utf8_bytes(d.take(d.len() - truncation_mark().len()))
            <= diff_limit())),
{
    let t = trim_end(patch_text(lines));
    lemma_fitting_chars(t, 0, diff_limit());
    let k = fitting_chars(t, 0, diff_limit());
    assert(t.subrange(0, k) =~= t.take(k));
    if let Some(d) = diff_text(touches, lines) {
        if k == t.len() {
            assert(t.take(k) =~= t);
        } else {
            let m = truncation_mark();
            lemma_fitting_chars(t, 1, diff_limit() - utf8_len(t[0]));
            assert(k >= 1);
            assert(d == t.take(k) + m);
            assert(d.skip(d.len() - m.len()) =~= m);
            assert(d.take(d.len() - m.len()) =~= t.take(k));
        }
    }
}

// ── file names and links ────────────────────────────────────────────────────

proof fn lemma_digits_run(s: Seq<char>, n: int, i: int)
    requires
        0 <= i <= n < s.len(),
        forall|j: int| 0 <= j < n ==> is_digit(#[trigger] s[j]),
        !is_digit(s[n]),
    ensures
        digits_end(s, i) == n,
    decreases n - i,
{
    if i < n {
        lemma_digits_run(s, n, i + 1);
    }
}

/// A file named `ID-slug.md`, with an ID of digits and a valid slug, is
/// read with that ID and slug.
pub proof fn law_filename_round_trip(id: Seq<char>, slug: Seq<char>)
    requires
        id.len() >= 1,
        forall|j: int| 0 <= j < id.len() ==> is_digit(#[trigger] id[j]),
        is_slug(slug),
    ensures
        filename_parts(id + seq!['-'] + slug + seq!['.', 'm', 'd']) == Some((id, slug)),
{
    let name = id + seq!['-'] + slug + seq!['.', 'm', 'd'];
    let n = name.len() as int;
    let stem = name.subrange(0, n - 3);
    assert(stem =~= id + seq!['-'] + slug);
    assert forall|j: int| 0 <= j < id.len() implies is_digit(#[trigger] stem[j]) by {
        assert(stem[j] == id[j]);
    }
    assert(stem[id.len() as int] == '-');
    lemma_digits_run(stem, id.len() as int, 0);
    assert(stem.subrange(0, id.len() as int) =~= id);
    assert(stem.subrange(id.len() as int + 1, stem.len() as int) =~= slug);
    assert(name[n - 3] == '.' && name[n - 2] == 'm' && name[n - 1] == 'd');
}

/// A link `[[ID]]` to a cell of the site becomes a Markdown link labelled
/// with the cell's title; one to an ID that no cell has stays as it is; and
/// either way the cell's outlinks list the ID.
pub proof fn law_link_round_trip(id: Seq<char>, cells: Seq<CellView>)
    requires
        id.len() >= 1,
        forall|j: int| 0 <= j < id.len() ==> is_digit(#[trigger] id[j]),
    ensures
        ({
            let s = seq!['[', '['] + id + seq![']', ']'];
            &&& outlinks_from(s, 0) == seq![id]
            &&& resolve_from(s, 0, cells) == match find_cell(cells, id) {
                Some(c) => seq!['['] + c.title + seq![']', '('] + url_of(c.slug) + seq![')'],
                None => s,
            }
        }),
{
    let s = seq!['[', '['] + id + seq![']', ']'];
    let n = id.len() as int;
    assert forall|j: int| 0 <= j < n + 2 implies is_digit(#[trigger] s[j]) || j < 2 by {
        if j >= 2 {
            assert(s[j] == id[j - 2]);
        }
    }
    lemma_digits_run_from(s, 2, n + 2);
    assert(link_at(s, 0) == Some((n + 2, n + 4)));
    assert(s.subrange(2, n + 2) =~= id);
    assert(s.subrange(0, n + 4) =~= s);
    assert(link_label(s, 0) is None);
    assert(s.len() == n + 4);
    assert(outlinks_from(s, n + 4) == Seq::<Seq<char>>::empty());
    assert(outlinks_from(s, 0) == seq![s.subrange(2, n + 2)] + outlinks_from(s, n + 4));
    assert(outlinks_from(s, 0) =~= seq![id]);
    assert(resolve_from(s, n + 4, cells) == Seq::<char>::empty());
    match find_cell(cells, id) {
        Some(c) => {
            assert(resolve_from(s, 0, cells) == markdown_link(None, c) + resolve_from(s, n + 4, cells));
            assert(resolve_from(s, 0, cells) =~= seq!['['] + c.title + seq![']', '('] + url_of(c.slug) + seq![')']);
        },
        None => {
            assert(resolve_from(s, 0, cells) == s.subrange(0, n + 4) + resolve_from(s, n + 4, cells));
            assert(resolve_from(s, 0, cells) =~= s);
        },
    }
}

proof fn lemma_digits_run_from(s: Seq<char>, i: int, n: int)
    requires
        0 <= i <= n < s.len(),
        forall|j: int| i <= j < n ==> is_digit(#[trigger] s[j]),
        !is_digit(s[n]),
    ensures
        digits_end(s, i) == n,
    decreases n - i,
{
    if i < n {
        lemma_digits_run_from(s, i + 1, n);
    }
}

/// The home page is the page at `/`: a cell read from a file has an empty
/// slug, and so the URL `/`, exactly when it is the home page `index.md`.
pub proof fn law_home_page_route(filename: Seq<char>, content: Seq<char>)
    ensures
        cell_of(filename, content) matches Some(v) ==> ((v.id == index_id()) <==> v.slug.len() == 0)
            && ((v.slug.len() == 0) <==> url_of(v.slug) == seq!['/']),
{
    if let Some(v) = cell_of(filename, content) {
        if filename != index_filename() {
            let (id, slug) = filename_parts(filename)->0;
            let n = filename.len() as int;
            let stem = filename.subrange(0, n - 3);
            let k = digits_end(stem, 0);
            lemma_digits_end(stem, 0);
            assert(is_digit(id[0]));
            assert(index_id()[0] == 'i');
            assert(id != index_id());
        }
        if v.slug.len() > 0 {
            assert(url_of(v.slug).len() >= 3);
        }
    }
}

proof fn lemma_runs_stop_at_line_break(s: Seq<char>, m: int, i: int)
    requires
        0 <= i <= m < s.len(),
        s[m] == '\n',
    ensures
        digits_end(s, i) <= m,
        digits_end(s.take(m), i) == digits_end(s, i),
        bracket_end(s, i) <= m,
        bracket_end(s.take(m), i) == bracket_end(s, i),
    decreases m - i,
{
    if i < m {
        lemma_runs_stop_at_line_break(s, m, i + 1);
    }
}

proof fn lemma_runs_shift(s: Seq<char>, off: int, i: int)
    requires
        0 <= off <= s.len(),
        0 <= i <= s.len() - off,
    ensures
        digits_end(s, off + i) == off + digits_end(s.skip(off), i),
        bracket_end(s, off + i) == off + bracket_end(s.skip(off), i),
    decreases s.len() - off - i,
{
    if i < s.len() - off {
        lemma_runs_shift(s, off, i + 1);
    }
}

proof fn lemma_link_before_line_break(s: Seq<char>, m: int, p: int)
    requires
        0 <= p < m < s.len(),
        s[m] == '\n',
    ensures
        link_at(s.take(m), p) == link_at(s, p),
        link_at(s, p) matches Some((k, e)) ==> e <= m,
{
    let a = s.take(m);
    if p + 1 < s.len() && s[p] == '[' && s[p + 1] == '[' {
        if p + 1 < m {
            lemma_runs_stop_at_line_break(s, m, p + 2);
            lemma_digits_end(s, p + 2);
            let k = digits_end(s, p + 2);
            if k + 1 <= m {
                lemma_runs_stop_at_line_break(s, m, k + 1);
            }
        }
    }
}

proof fn lemma_link_shift(s: Seq<char>, off: int, q: int)
    requires
        0 <= off <= s.len(),
        0 <= q <= s.len() - off,
    ensures
        link_at(s, off + q) == match link_at(s.skip(off), q) {
            Some((k, e)) => Some((off + k, off + e)),
            None => None,
        },
{
    let t = s.skip(off);
    if q + 1 < t.len() && t[q] == '[' && t[q + 1] == '[' {
        lemma_runs_shift(s, off, q + 2);
        lemma_digits_end(t, q + 2);
        let k = digits_end(t, q + 2);
        if k < t.len() {
            lemma_runs_shift(s, off, k + 1);
        }
    }
}

proof fn lemma_outlinks_before_line_break(s: Seq<char>, m: int, p: int)
    requires
        0 <= p <= m < s.len(),
        s[m] == '\n',
    ensures
        outlinks_from(s, p) == outlinks_from(s.take(m), p) + outlinks_from(s, m),
    decreases m - p,
{
    let a = s.take(m);
    if p < m {
        lemma_link_before_line_break(s, m, p);
        lemma_link_at(s, p);
        match link_at(s, p) {
            Some((k, e)) => {
                lemma_outlinks_before_line_break(s, m, e);
                assert(a.subrange(p + 2, k) =~= s.subrange(p + 2, k));
                assert(outlinks_from(s, p) == seq![s.subrange(p + 2, k)] + outlinks_from(s, e));
                assert(outlinks_from(a, p) == seq![a.subrange(p + 2, k)] + outlinks_from(a, e));
            },
            None => {
                lemma_outlinks_before_line_break(s, m, p + 1);
            },
        }
    } else {
        assert(outlinks_from(a, p) == Seq::<Seq<char>>::empty());
    }
}

proof fn lemma_outlinks_shift(s: Seq<char>, off: int, q: int)
    requires
        0 <= off <= s.len(),
        0 <= q <= s.len() - off,
    ensures
        outlinks_from(s, off + q) == outlinks_from(s.skip(off), q),
    decreases s.len() - off - q,
{
    let t = s.skip(off);
    if q < t.len() {
        lemma_link_shift(s, off, q);
        lemma_link_at(t, q);
        match link_at(t, q) {
            Some((k, e)) => {
                lemma_outlinks_shift(s, off, e);
                assert(s.subrange(off + q + 2, off + k) =~= t.subrange(q + 2, k));
            },
            None => {
                lemma_outlinks_shift(s, off, q + 1);
            },
        }
    }
}

/// A link never spans a line break: the links of two texts joined by a line
/// break are those of the first, then those of the second.
pub proof fn law_links_stay_on_their_line(a: Seq<char>, b: Seq<char>)
    ensures
        outlinks_from(a + seq!['\n'] + b, 0) == outlinks_from(a, 0) + outlinks_from(b, 0),
{
    let s = a + seq!['\n'] + b;
    let m = a.len() as int;
    assert(s[m] == '\n');
    assert(s.take(m) =~= a);
    assert(s.skip(m + 1) =~= b);
    lemma_outlinks_before_line_break(s, m, 0);
    assert(link_at(s, m) is None);
    assert(outlinks_from(s, m) == outlinks_from(s, m + 1));
    lemma_outlinks_shift(s, m + 1, 0);
}

// ── HTML ─────────────────────────────────────────────────────────────────────

proof fn lemma_find_char_run(s: Seq<char>, i: int, k: int, c: char)
    requires
        0 <= i <= k <= s.len(),
        k < s.len() ==> s[k] == c,
        forall|j: int| i <= j < k ==> #[trigger] s[j] != c,
    ensures
        find_char(s, i, c) == k,
    decreases k - i,
{
    if i < k {
        lemma_find_char_run(s, i + 1, k, c);
    }
}

proof fn lemma_alnum_run(s: Seq<char>, i: int)
    requires
        0 <= i <= s.len(),
        forall|j: int| i <= j < s.len() ==> is_alnum(#[trigger] s[j]),
    ensures
        alnum_end(s, i) == s.len(),
    decreases s.len() - i,
{
    if i < s.len() {
        lemma_alnum_run(s, i + 1);
    }
}

/// `<code>`
pub open spec fn code_open() -> Seq<char> {
    seq!['<', 'c', 'o', 'd', 'e', '>']
}

/// `</code>`
pub open spec fn code_close() -> Seq<char> {
    seq!['<', '/', 'c', 'o', 'd', 'e', '>']
}

/// Code is left alone: text inside a `code` element is not marked up, so
/// neither a URL nor a `#` in it becomes a link or a tag.
pub proof fn law_code_left_alone(t: Seq<char>)
    requires
        forall|j: int| 0 <= j < t.len() ==> #[trigger] t[j] != '<',
    ensures
        postprocessed(code_open() + t + code_close()) == code_open() + t + code_close(),
{
    let s = code_open() + t + code_close();
    let n = t.len() as int;
    assert(s.len() == n + 13);
    assert(s[0] == '<' && s[5] == '>');
    lemma_find_char_run(s, 0, 0, '<');
    assert forall|j: int| 1 <= j < 5 implies #[trigger] s[j] != '>' by {}
    lemma_find_char_run(s, 1, 5, '>');
    assert(next_tag(s, 0) == Some((0int, 6int)));
    let inner1 = s.subrange(1, 5);
    assert(inner1 =~= seq!['c', 'o', 'd', 'e']);
    assert(!is_ws(inner1[0]));
    lemma_alnum_run(inner1, 0);
    assert(tag_name(inner1) =~= seq!['c', 'o', 'd', 'e']);
    assert forall|j: int| 6 <= j < n + 6 implies #[trigger] s[j] != '<' by {
        assert(s[j] == t[j - 6]);
    }
    assert(s[n + 6] == '<');
    lemma_find_char_run(s, 6, n + 6, '<');
    assert forall|j: int| n + 7 <= j < n + 12 implies #[trigger] s[j] != '>' by {}
    assert(s[n + 12] == '>');
    lemma_find_char_run(s, n + 7, n + 12, '>');
    assert(next_tag(s, 6) == Some((n + 6, n + 13)));
    let inner2 = s.subrange(n + 7, n + 12);
    assert(inner2 =~= seq!['/', 'c', 'o', 'd', 'e']);
    assert(is_closing(inner2));
    assert(!is_ws(inner2[1]));
    lemma_alnum_run(inner2, 1);
    assert(tag_name(inner2) =~= seq!['c', 'o', 'd', 'e']);
    lemma_find_char_run(s, n + 13, n + 13, '<');
    assert(next_tag(s, n + 13) is None);
    assert(s.subrange(n + 13, n + 13) =~= Seq::<char>::empty());
    assert(postprocess_from(s, n + 13, 0, 0) =~= Seq::<char>::empty());
    assert(s.subrange(6, n + 6) =~= t);
    assert(postprocess_from(s, 6, 1, 0) =~= t + code_close());
    assert(s.subrange(0, 0) =~= Seq::<char>::empty());
    assert(postprocess_from(s, 0, 0, 0) =~= code_open() + (t + code_close()));
}

// ── rendering ────────────────────────────────────────────────────────────────

/// Whether the event starts (`start`) or ends a level-1 heading.
pub open spec fn is_h1_mark(e: MdEvent, start: bool) -> bool {
    if start {
        e is H1Start
    } else {
        e is H1End
    }
}

proof fn lemma_find_h1_skips(kinds: Seq<MdEvent>, i: int, start: bool)
    requires
        0 <= i <= kinds.len(),
    ensures
        i <= find_h1(kinds, i, start) <= kinds.len(),
        find_h1(kinds, i, start) < kinds.len() ==> is_h1_mark(kinds[find_h1(kinds, i, start)], start),
        forall|j: int| i <= j < find_h1(kinds, i, start) ==> !is_h1_mark(#[trigger] kinds[j], start),
    decreases kinds.len() - i,
{
    if i < kinds.len() && !is_h1_mark(kinds[i], start) {
        lemma_find_h1_skips(kinds, i + 1, start);
    }
}

/// The body without its title is the body with its first level-1 heading
/// left out, and nothing else: both write the events of the same parse,
/// the one all of them and the other all but one span of them. That span is
/// empty where the text has no level-1 heading; otherwise it starts at the
/// first heading's start, holds no heading end but its last event, and ends
/// after the heading's end (or with the text, where the heading is not
/// closed). Every event before it stays, and so does every later heading.
pub proof fn law_title_removed(text: Seq<char>)
    ensures
        ({
            let ev = md_events(text, true);
            let n = ev.len() as int;
            let (a, b) = first_h1_span(ev);
            &&& page_html(text) == postprocessed(md_html(text, true, positions(n)))
            &&& page_html_without_title(text) == postprocessed(
                md_html(text, true, positions(n).take(a) + positions(n).skip(b)),
            )
            &&& 0 <= a <= b <= n
            &&& forall|i: int| 0 <= i < a ==> !(#[trigger] ev[i] is H1Start)
            &&& a == n ==> b == n
            &&& a < n ==> {
                &&& ev[a] is H1Start
                &&& a < b
                &&& forall|i: int| a < i < b - 1 ==> !(#[trigger] ev[i] is H1End)
                &&& (ev[b - 1] is H1End || forall|i: int| a < i < n ==> !(#[trigger] ev[i] is H1End))
            }
        }),
{
    let ev = md_events(text, true);
    let n = ev.len() as int;
    lemma_find_h1_skips(ev, 0, true);
    let a = find_h1(ev, 0, true);
    assert forall|i: int| 0 <= i < a implies !(#[trigger] ev[i] is H1Start) by {
        assert(!is_h1_mark(ev[i], true));
    }
    if a < n {
        lemma_find_h1_skips(ev, a + 1, false);
        let e = find_h1(ev, a + 1, false);
        assert(is_h1_mark(ev[a], true));
        let b = first_h1_span(ev).1;
        assert forall|i: int| a < i < b - 1 implies !(#[trigger] ev[i] is H1End) by {
            assert(!is_h1_mark(ev[i], false));
        }
        if e < n {
            assert(is_h1_mark(ev[e], false));
        } else {
            assert forall|i: int| a < i < n implies !(#[trigger] ev[i] is H1End) by {
                assert(!is_h1_mark(ev[i], false));
            }
        }
    }
}

// ── what the auditor's cases turn on ────────────────────────────────────────

/// The last-modified date is the date part of the newest commit: with a
/// history listed newest first, it is the author date of the first entry
/// up to (not including) its first space, and it is empty without history.
pub proof fn law_last_modified_is_newest(history: Seq<GitCommitView>)
    ensures
        history.len() == 0 ==> last_modified_of(history).len() == 0,
        history.len() > 0 ==> ({
            let d = history[0].author_date;
            let r = last_modified_of(history);
            &&& r.len() <= d.len()
            &&& r == d.take(r.len() as int)
            &&& forall|j: int| 0 <= j < r.len() ==> #[trigger] r[j] != ' '
            &&& (r.len() == d.len() || d[r.len() as int] == ' ')
        }),
{
    if history.len() > 0 {
        let d = history[0].author_date;
        lemma_find_char_stops(d, 0, ' ');
        let r = last_modified_of(history);
        assert forall|j: int| 0 <= j < r.len() implies #[trigger] r[j] != ' ' by {
            assert(r[j] == d[j]);
        }
    }
}

proof fn lemma_find_char_stops(s: Seq<char>, i: int, c: char)
    requires
        0 <= i <= s.len(),
    ensures
        i <= find_char(s, i, c) <= s.len(),
        find_char(s, i, c) < s.len() ==> s[find_char(s, i, c)] == c,
        forall|j: int| i <= j < find_char(s, i, c) ==> #[trigger] s[j] != c,
    decreases s.len() - i,
{
    if i < s.len() && s[i] != c {
        lemma_find_char_stops(s, i + 1, c);
    }
}

proof fn lemma_edges_from_complete(c: CellView, targets: Seq<Seq<char>>, cells: Seq<CellView>)
    ensures
        forall|j: int|
            0 <= j < targets.len() && has_id(cells, #[trigger] targets[j]) ==> edges_from(c, targets, cells).contains(
                SiteEdgeView { source: c.id, target: targets[j] },
            ),
    decreases targets.len(),
{
    if targets.len() > 0 {
        let t = targets.drop_last();
        lemma_edges_from_complete(c, t, cells);
        let e = edges_from(c, targets, cells);
        let et = edges_from(c, t, cells);
        assert forall|j: int| 0 <= j < targets.len() && has_id(cells, #[trigger] targets[j]) implies e.contains(
            SiteEdgeView { source: c.id, target: targets[j] },
        ) by {
            lemma_find_cell(cells, targets[j]);
            if j < t.len() {
                assert(t[j] == targets[j]);
                let m = choose|m: int| 0 <= m < et.len() && et[m] == SiteEdgeView { source: c.id, target: t[j] };
                assert(e[m] == et[m]);
            } else {
                assert(e[et.len() as int] == SiteEdgeView { source: c.id, target: targets[j] });
            }
        }
    }
}

proof fn lemma_edges_of_complete(part: Seq<CellView>, cells: Seq<CellView>)
    ensures
        forall|k: int, j: int|
            0 <= k < part.len() && 0 <= j < part[k].outlinks.len() && has_id(cells, #[trigger] part[k].outlinks[j])
                ==> edges_of(part, cells).contains(SiteEdgeView { source: part[k].id, target: part[k].outlinks[j] }),
    decreases part.len(),
{
    if part.len() > 0 {
        let t = part.drop_last();
        lemma_edges_of_complete(t, cells);
        let c = part.last();
        lemma_edges_from_complete(c, c.outlinks, cells);
        let e = edges_of(part, cells);
        let et = edges_of(t, cells);
        let ef = edges_from(c, c.outlinks, cells);
        assert(e == et + ef);
        assert forall|k: int, j: int|
            0 <= k < part.len() && 0 <= j < part[k].outlinks.len() && has_id(cells, #[trigger] part[k].outlinks[j])
                implies e.contains(SiteEdgeView { source: part[k].id, target: part[k].outlinks[j] }) by {
            let edge = SiteEdgeView { source: part[k].id, target: part[k].outlinks[j] };
            if k < t.len() {
                assert(t[k] == part[k]);
                assert(has_id(cells, t[k].outlinks[j]));
                assert(et.contains(edge));
                let m = choose|m: int| 0 <= m < et.len() && et[m] == edge;
                assert(e[m] == et[m]);
            } else {
                assert(part[k] == c);
                assert(has_id(cells, c.outlinks[j]));
                assert(ef.contains(edge));
                let m = choose|m: int| 0 <= m < ef.len() && ef[m] == edge;
                assert(e[et.len() + m] == ef[m]);
            }
        }
    }
}

/// Every link to a page of the site is an edge of the graph: for each page
/// and each of its links whose target is the ID of some page, the graph has
/// the edge from the page to that target, whatever the order of the two.
pub proof fn law_edges_complete(cells: Seq<CellView>)
    ensures
        forall|k: int, j: int|
            0 <= k < cells.len() && 0 <= j < cells[k].outlinks.len() && (exists|m: int|
                0 <= m < cells.len() && cells[m].id == #[trigger] cells[k].outlinks[j]) ==> graph_of(
                cells,
            ).edges.contains(SiteEdgeView { source: cells[k].id, target: cells[k].outlinks[j] }),
{
    lemma_edges_of_complete(cells, cells);
    assert forall|k: int, j: int|
        0 <= k < cells.len() && 0 <= j < cells[k].outlinks.len() && (exists|m: int|
            0 <= m < cells.len() && cells[m].id == #[trigger] cells[k].outlinks[j]) implies graph_of(
            cells,
        ).edges.contains(SiteEdgeView { source: cells[k].id, target: cells[k].outlinks[j] }) by {
        assert(has_id(cells, cells[k].outlinks[j]));
    }
}

/// A character takes as many bytes in UTF-8 as its code point needs: one
/// below U+0080, two below U+0800, three below U+10000, four above.
pub proof fn law_utf8_widths(c: char)
    ensures
        (c as u32) < 0x80 ==> utf8_len(c) == 1,
        0x80 <= (c as u32) < 0x800 ==> utf8_len(c) == 2,
        0x800 <= (c as u32) < 0x10000 ==> utf8_len(c) == 3,
        0x10000 <= (c as u32) ==> utf8_len(c) == 4,
{
}

proof fn lemma_fits_whole(s: Seq<char>, i: int, limit: int)
    requires
        0 <= i <= s.len(),
        utf8_bytes(s.skip(i)) <= limit,
    ensures
        fitting_chars(s, i, limit) == s.len() - i,
    decreases s.len() - i,
{
    if i < s.len() {
        lemma_utf8_bytes_split(seq![s[i]], s.skip(i + 1));
        assert(seq![s[i]] + s.skip(i + 1) =~= s.skip(i));
        assert(seq![s[i]].drop_last() =~= Seq::<char>::empty());
        assert(utf8_bytes(Seq::<char>::empty()) == 0);
        assert(utf8_bytes(seq![s[i]]) == utf8_len(s[i]));
        lemma_utf8_bytes_nonneg(s.skip(i + 1));
        lemma_fits_whole(s, i + 1, limit - utf8_len(s[i]));
    }
}

proof fn lemma_utf8_bytes_nonneg(s: Seq<char>)
    ensures
        utf8_bytes(s) >= 0,
    decreases s.len(),
{
    if s.len() > 0 {
        lemma_utf8_bytes_nonneg(s.drop_last());
    }
}

/// A diff within the limit is kept whole: where the file's trimmed patch
/// text is not empty and takes at most 8192 bytes in UTF-8, the diff is
/// exactly that text, not cut and not marked.
pub proof fn law_short_diffs_kept_whole(lines: Seq<DiffLine>)
    ensures
        ({
            let t = trim_end(patch_text(lines));
            t.len() > 0 && utf8_bytes(t) <= diff_limit() ==> diff_text(true, lines) == Some(t)
        }),
{
    let t = trim_end(patch_text(lines));
    if t.len() > 0 && utf8_bytes(t) <= diff_limit() {
        assert(t.skip(0) =~= t);
        lemma_fits_whole(t, 0, diff_limit());
    }
}

/// `<a` followed by `attrs` and `>`: an opening link tag.
pub open spec fn a_open(attrs: Seq<char>) -> Seq<char> {
    seq!['<', 'a'] + attrs + seq!['>']
}

/// `</a>`
pub open spec fn a_close() -> Seq<char> {
    seq!['<', '/', 'a', '>']
}

proof fn lemma_a_open_tag(attrs: Seq<char>, x: Seq<char>, rest: Seq<char>)
    requires
        attrs.len() == 0 || is_ws(attrs[0]),
        forall|j: int| 0 <= j < attrs.len() ==> #[trigger] attrs[j] != '<' && attrs[j] != '>',
        forall|j: int| 0 <= j < x.len() as int ==> #[trigger] x[j] != '<',
        forall|j: int| 0 <= j < rest.len() ==> #[trigger] rest[j] != '<',
    ensures
        ({
            let h = a_open(attrs) + x + a_close() + rest;
            let inner = h.subrange(1, attrs.len() as int + 2);
            &&& next_tag(h, 0) == Some((0int, attrs.len() as int + 3))
            &&& !is_closing(inner)
            &&& tag_name(inner) == seq!['a']
        }),
{
    let h = a_open(attrs) + x + a_close() + rest;
    let m = attrs.len() as int;
    let inner1 = h.subrange(1, m + 2);
    assert(h[0] == '<');
    lemma_find_char_run(h, 0, 0, '<');
    assert forall|j: int| 1 <= j < m + 2 implies #[trigger] h[j] != '>' by {
        if j >= 2 {
            assert(h[j] == attrs[j - 2]);
        }
    }
    assert(h[m + 2] == '>');
    lemma_find_char_run(h, 1, m + 2, '>');
    assert(inner1 =~= seq!['a'] + attrs);
    assert(!is_ws(inner1[0]));
    assert(inner1.len() == 1 || !is_alnum(inner1[1]));
    assert(alnum_end(inner1, 1) == 1);
    assert(tag_name(inner1) =~= seq!['a']);
}

proof fn lemma_a_close_tag(attrs: Seq<char>, x: Seq<char>, rest: Seq<char>)
    requires
        attrs.len() == 0 || is_ws(attrs[0]),
        forall|j: int| 0 <= j < attrs.len() ==> #[trigger] attrs[j] != '<' && attrs[j] != '>',
        forall|j: int| 0 <= j < x.len() as int ==> #[trigger] x[j] != '<',
        forall|j: int| 0 <= j < rest.len() ==> #[trigger] rest[j] != '<',
    ensures
        ({
            let h = a_open(attrs) + x + a_close() + rest;
            let c = attrs.len() as int + 3 + x.len() as int;
            let inner = h.subrange(c + 1, c + 3);
            &&& next_tag(h, attrs.len() as int + 3) == Some((c, c + 4))
            &&& is_closing(inner)
            &&& tag_name(inner) == seq!['a']
        }),
{
    let h = a_open(attrs) + x + a_close() + rest;
    let o = attrs.len() as int + 3;
    let c = o + x.len() as int;
    let inner2 = h.subrange(c + 1, c + 3);
    assert forall|j: int| o <= j < c implies #[trigger] h[j] != '<' by {
        assert(h[j] == x[j - o]);
    }
    assert(h[c] == '<');
    lemma_find_char_run(h, o, c, '<');
    assert forall|j: int| c + 1 <= j < c + 3 implies #[trigger] h[j] != '>' by {}
    assert(h[c + 3] == '>');
    lemma_find_char_run(h, c + 1, c + 3, '>');
    assert(inner2 =~= seq!['/', 'a']);
    assert(!is_ws(inner2[1]));
    assert(alnum_end(inner2, 2) == 2);
    assert(tag_name(inner2) =~= seq!['a']);
}

proof fn lemma_after_a_close(attrs: Seq<char>, x: Seq<char>, rest: Seq<char>)
    requires
        attrs.len() == 0 || is_ws(attrs[0]),
        forall|j: int| 0 <= j < attrs.len() ==> #[trigger] attrs[j] != '<' && attrs[j] != '>',
        forall|j: int| 0 <= j < x.len() as int ==> #[trigger] x[j] != '<',
        forall|j: int| 0 <= j < rest.len() ==> #[trigger] rest[j] != '<',
    ensures
        ({
            let h = a_open(attrs) + x + a_close() + rest;
            postprocess_from(h, attrs.len() as int + 3 + x.len() as int + 4, 0, 0) == decorate(rest, false)
        }),
{
    let h = a_open(attrs) + x + a_close() + rest;
    let r = attrs.len() as int + 3 + x.len() as int + 4;
    assert(h.len() == r + rest.len());
    assert forall|j: int| r <= j < h.len() implies #[trigger] h[j] != '<' by {
        assert(h[j] == rest[j - r]);
    }
    lemma_find_char_run(h, r, h.len() as int, '<');
    assert(next_tag(h, r) is None);
    assert(h.subrange(r, h.len() as int) =~= rest);
    assert(decorate(Seq::<char>::empty(), false) =~= Seq::<char>::empty());
}

/// A link ends where its element closes: in `<a ...>x</a>s`, with no tags
/// in `x` and `s`, the text `x` inside the link has only its tags marked
/// up, and the text `s` after `</a>` is marked up as text outside any link,
/// its URLs included.
pub proof fn law_link_ends_at_close(attrs: Seq<char>, x: Seq<char>, rest: Seq<char>)
    requires
        attrs.len() == 0 || is_ws(attrs[0]),
        forall|j: int| 0 <= j < attrs.len() ==> #[trigger] attrs[j] != '<' && attrs[j] != '>',
        forall|j: int| 0 <= j < x.len() as int ==> #[trigger] x[j] != '<',
        forall|j: int| 0 <= j < rest.len() ==> #[trigger] rest[j] != '<',
    ensures
        postprocessed(a_open(attrs) + x + a_close() + rest) == a_open(attrs) + decorate(x, true) + a_close()
            + decorate(rest, false),
{
    let h = a_open(attrs) + x + a_close() + rest;
    let o = attrs.len() as int + 3;
    let c = o + x.len() as int;
    let r = c + 4;
    lemma_a_open_tag(attrs, x, rest);
    lemma_a_close_tag(attrs, x, rest);
    lemma_after_a_close(attrs, x, rest);
    assert(h.subrange(o, c) =~= x);
    assert(h.subrange(c, r) =~= a_close());
    assert(decorate(Seq::<char>::empty(), true) =~= Seq::<char>::empty());
    assert(postprocess_from(h, o, 0, 1) == decorate(x, true) + a_close() + decorate(rest, false));
    assert(h.subrange(0, 0) =~= Seq::<char>::empty());
    assert(h.subrange(0, o) =~= a_open(attrs));
    assert(postprocess_from(h, 0, 0, 0) =~= a_open(attrs) + (decorate(x, true) + a_close() + decorate(rest, false)));
}

proof fn lemma_tag_run_ends(s: Seq<char>, i: int, e: int)
    requires
        0 <= i <= e <= s.len(),
        forall|j: int| i <= j < e ==> is_tag_char(#[trigger] s[j]),
        e == s.len() || !is_tag_char(s[e]),
    ensures
        tag_chars_end(s, i) == e,
    decreases e - i,
{
    if i < e {
        lemma_tag_run_ends(s, i + 1, e);
    }
}

proof fn lemma_tag_run_stops(s: Seq<char>, i: int, q: int)
    requires
        0 <= i <= q < s.len(),
        !is_tag_char(s[q]),
    ensures
        tag_chars_end(s, i) <= q,
    decreases q - i,
{
    if i < q && is_tag_char(s[i]) {
        lemma_tag_run_stops(s, i + 1, q);
    }
}

/// Where the search for tags stands at `q`, at or before the position `r`
/// just before the tag at `p` (or at `p` itself where `p` is 0), it finds
/// that tag.
proof fn lemma_search_reaches_tag(s: Seq<char>, p: int, e: int, q: int)
    requires
        0 <= p,
        p + 1 < e <= s.len(),
        s[p] == '#',
        is_alpha(s[p + 1]),
        forall|j: int| p + 1 <= j < e ==> is_tag_char(#[trigger] s[j]),
        e == s.len() || !is_tag_char(s[e]),
        p == 0 || is_tag_prefix(s[p - 1]),
        forall|j: int| 0 <= j < p ==> #[trigger] s[j] != ':',
        0 <= q,
        q <= if p == 0 { 0 } else { p - 1 },
    ensures
        tags_from(s, q).contains(s.subrange(p + 1, e)),
    decreases p - q,
{
    let r = if p == 0 { 0 } else { p - 1 };
    let name = s.subrange(p + 1, e);
    assert(!is_tag_char('#'));
    // No URL starts at `q`: its scheme would hold a `:` before `p`.
    assert(url_at(s, q) is None) by {
        if starts_with_at(s, q, seq!['h', 't', 't', 'p', 's', ':', '/', '/']) {
            assert(s.subrange(q, q + 8)[5] == ':');
            assert(s.subrange(q, q + 8)[0] == 'h');
            assert(s[q + 5] == ':');
            if q + 5 >= p {
                assert(s.subrange(q, q + 8)[p - q] == s[p]);
            }
        } else if starts_with_at(s, q, seq!['h', 't', 't', 'p', ':', '/', '/']) {
            assert(s.subrange(q, q + 7)[4] == ':');
            assert(s[q + 4] == ':');
            if q + 4 >= p {
                assert(s.subrange(q, q + 7)[p - q] == s[p]);
            }
        }
    }
    if q == r {
        if p == 0 {
            lemma_tag_run_ends(s, 2, e);
            assert(tag_at(s, 0) == Some((1int, e)));
        } else {
            assert(s[p - 1] != '#');
            lemma_tag_run_ends(s, p + 2, e);
            assert(tag_at(s, p - 1) == Some((p + 1, e)));
        }
        lemma_tag_at(s, q);
        assert(tags_from(s, q) == seq![name] + tags_from(s, e));
        assert(tags_from(s, q)[0] == name);
    } else {
        lemma_tag_at(s, q);
        match tag_at(s, q) {
            Some((b, f)) => {
                // The tag found at `q` ends by `r`: its name is a run of tag
                // characters that starts before `r`, and `s[r]` is none.
                assert(!is_tag_char(s[r])) by {
                    if p > 0 {
                        assert(is_tag_prefix(s[p - 1]));
                    }
                }
                assert(s[b - 1] == '#');
                assert(b < r);
                lemma_tag_run_stops(s, b + 1, r);
                assert(f <= r);
                lemma_search_reaches_tag(s, p, e, f);
                assert(tags_from(s, q) == seq![s.subrange(b, f)] + tags_from(s, f));
                let m = choose|m: int| 0 <= m < tags_from(s, f).len() && tags_from(s, f)[m] == name;
                assert(tags_from(s, q)[m + 1] == name);
            },
            None => {
                lemma_search_reaches_tag(s, p, e, q + 1);
            },
        }
    }
}

/// Every tag is found where it stands, at the very start of a text or of a
/// line, or after a space or punctuation: a `#`, an ASCII letter and the
/// tag characters after it give that name among the tags of the text, so
/// long as no URL could start before it (no `:` precedes it).
pub proof fn law_tag_found(s: Seq<char>, p: int, e: int)
    requires
        0 <= p,
        p + 1 < e <= s.len(),
        s[p] == '#',
        is_alpha(s[p + 1]),
        forall|j: int| p + 1 <= j < e ==> is_tag_char(#[trigger] s[j]),
        e == s.len() || !is_tag_char(s[e]),
        p == 0 || s[p - 1] == '\n' || is_ws(s[p - 1]) || is_tag_prefix(s[p - 1]),
        forall|j: int| 0 <= j < p ==> #[trigger] s[j] != ':',
    ensures
        tags_from(s, 0).contains(s.subrange(p + 1, e)),
{
    if p > 0 {
        assert(is_tag_prefix(s[p - 1]));
    }
    lemma_search_reaches_tag(s, p, e, 0);
}

/// Between event `i` (included) and event `k`, given whether the scan was
/// inside a code block at `i`, the scan is outside one at `k`: the last
/// code-block mark in between ends a block, or there is none and the scan
/// was outside at `i`.
pub open spec fn outside_code(ev: Seq<MdEvent>, i: int, k: int, in_code: bool) -> bool {
    ||| exists|j: int|
        i <= j < k && #[trigger] ev[j] is CodeBlockEnd && forall|m: int| j < m < k ==> !(#[trigger] ev[m] is CodeBlockStart)
    ||| !in_code && forall|m: int| i <= m < k ==> !(#[trigger] ev[m] is CodeBlockStart)
}

proof fn lemma_raw_tags_complete(ev: Seq<MdEvent>, i: int, in_code: bool, k: int)
    requires
        0 <= i <= k < ev.len(),
        ev[k] is Text,
        outside_code(ev, i, k, in_code),
    ensures
        forall|n: int|
            0 <= n < tags_from(ev[k]->Text_0@, 0).len() ==> raw_tags_from(ev, i, in_code).contains(
                #[trigger] tags_from(ev[k]->Text_0@, 0)[n],
            ),
    decreases k - i,
{
    let tk = tags_from(ev[k]->Text_0@, 0);
    if i == k {
        assert(!in_code);
        assert(raw_tags_from(ev, i, in_code) == tk + raw_tags_from(ev, i + 1, in_code));
        assert forall|n: int| 0 <= n < tk.len() implies raw_tags_from(ev, i, in_code).contains(#[trigger] tk[n]) by {
            assert(raw_tags_from(ev, i, in_code)[n] == tk[n]);
        }
    } else {
        let next = match ev[i] {
            MdEvent::CodeBlockStart => true,
            MdEvent::CodeBlockEnd => false,
            _ => in_code,
        };
        assert(outside_code(ev, i + 1, k, next)) by {
            if exists|j: int|
                i <= j < k && #[trigger] ev[j] is CodeBlockEnd && forall|m: int| j < m < k ==> !(#[trigger] ev[m] is CodeBlockStart) {
                let j = choose|j: int|
                    i <= j < k && #[trigger] ev[j] is CodeBlockEnd && forall|m: int| j < m < k ==> !(#[trigger] ev[m] is CodeBlockStart);
                if j == i {
                    assert(!next);
                    assert forall|m: int| i + 1 <= m < k implies !(#[trigger] ev[m] is CodeBlockStart) by {}
                } else {
                    assert(i + 1 <= j < k && ev[j] is CodeBlockEnd);
                }
            } else {
                assert(!(ev[i] is CodeBlockStart));
                assert(!next);
            }
        }
        lemma_raw_tags_complete(ev, i + 1, next, k);
        let rest = raw_tags_from(ev, i + 1, next);
        let r = raw_tags_from(ev, i, in_code);
        let head: Seq<Seq<char>> = match ev[i] {
            MdEvent::Text(t) => if in_code {
                seq![]
            } else {
                tags_from(t@, 0)
            },
            _ => seq![],
        };
        assert(r == head + rest);
        assert forall|n: int| 0 <= n < tk.len() implies r.contains(#[trigger] tk[n]) by {
            let m = choose|m: int| 0 <= m < rest.len() && rest[m] == tk[n];
            assert(r[head.len() + m] == rest[m]);
        }
    }
}

/// No tag of the body is lost: each tag found in a text of the parsed
/// content that stands outside code blocks is, in lower case, among the
/// cell's tags.
pub proof fn law_tags_complete(content: Seq<char>)
    ensures
        ({
            let ev = md_events(content, false);
            forall|k: int, n: int|
                0 <= k < ev.len() && ev[k] is Text && outside_code(ev, 0, k, false) && 0 <= n < tags_from(
                    ev[k]->Text_0@,
                    0,
                ).len() ==> tags_of(content).contains(lower_seq(#[trigger] tags_from(ev[k]->Text_0@, 0)[n]))
        }),
{
    let ev = md_events(content, false);
    let raw = raw_tags_from(ev, 0, false);
    lemma_dedup_unique(lower_all(raw));
    assert forall|k: int, n: int|
        0 <= k < ev.len() && ev[k] is Text && outside_code(ev, 0, k, false) && 0 <= n < tags_from(
            ev[k]->Text_0@,
            0,
        ).len() implies tags_of(content).contains(lower_seq(#[trigger] tags_from(ev[k]->Text_0@, 0)[n])) by {
        lemma_raw_tags_complete(ev, 0, false, k);
        let name = tags_from(ev[k]->Text_0@, 0)[n];
        assert(raw.contains(name));
        let m = choose|m: int| 0 <= m < raw.len() && raw[m] == name;
        assert(lower_all(raw)[m] == lower_seq(name));
        assert(lower_all(raw).contains(lower_seq(name)));
    }
}

/// The edge comes from a link: some page has the edge's source as its ID,
/// links to its target, and the target is the ID of a page.
pub open spec fn is_link_edge(cells: Seq<CellView>, edge: SiteEdgeView) -> bool {
    &&& exists|k: int| 0 <= k < cells.len() && cells[k].id == edge.source && cells[k].outlinks.contains(edge.target)
    &&& exists|m: int| 0 <= m < cells.len() && cells[m].id == edge.target
}

proof fn lemma_edges_of_sound(part: Seq<CellView>, cells: Seq<CellView>)
    requires
        forall|k: int| 0 <= k < part.len() ==> cells.contains(#[trigger] part[k]),
    ensures
        forall|i: int| 0 <= i < edges_of(part, cells).len() ==> is_link_edge(cells, #[trigger] edges_of(part, cells)[i]),
    decreases part.len(),
{
    if part.len() > 0 {
        let t = part.drop_last();
        assert forall|k: int| 0 <= k < t.len() implies cells.contains(#[trigger] t[k]) by {
            assert(t[k] == part[k]);
        }
        lemma_edges_of_sound(t, cells);
        let c = part.last();
        lemma_edges_from(c, c.outlinks, cells);
        let e = edges_of(part, cells);
        let et = edges_of(t, cells);
        let ef = edges_from(c, c.outlinks, cells);
        assert(e == et + ef);
        assert forall|i: int| 0 <= i < e.len() implies is_link_edge(cells, #[trigger] e[i]) by {
            if i < et.len() {
                assert(e[i] == et[i]);
            } else {
                assert(e[i] == ef[i - et.len()]);
                assert(cells.contains(part[part.len() - 1]));
                let k = choose|k: int| 0 <= k < cells.len() && cells[k] == c;
                assert(cells[k].id == e[i].source && cells[k].outlinks.contains(e[i].target));
                lemma_find_cell(cells, e[i].target);
            }
        }
    }
}

/// Every edge of the graph is a link: it goes from a page that links to its
/// target, and the target is a page of the site.
pub proof fn law_edges_sound(cells: Seq<CellView>)
    ensures
        forall|i: int| 0 <= i < graph_of(cells).edges.len() ==> is_link_edge(cells, #[trigger] graph_of(cells).edges[i]),
{
    lemma_edges_of_sound(cells, cells);
}

/// `name` is a tag name that stands in `s`, at or after `p`, right after a
/// `#`: it starts with an ASCII letter and is made of tag characters.
pub open spec fn is_tag_in(s: Seq<char>, p: int, name: Seq<char>) -> bool {
    &&& name.len() > 0
    &&& is_alpha(name[0])
    &&& forall|j: int| 0 <= j < name.len() ==> is_tag_char(#[trigger] name[j])
    &&& exists|q: int| p <= q && q + 1 + name.len() <= s.len() && #[trigger] s[q] == '#' && s.subrange(q + 1, q + 1 + name.len()) == name
}

proof fn lemma_tag_in_earlier(s: Seq<char>, p: int, e: int, name: Seq<char>)
    requires
        p <= e,
        is_tag_in(s, e, name),
    ensures
        is_tag_in(s, p, name),
{
    let q = choose|q: int| e <= q && q + 1 + name.len() <= s.len() && #[trigger] s[q] == '#' && s.subrange(q + 1, q + 1 + name.len()) == name;
    assert(p <= q && s[q] == '#');
}

/// Every tag found is a real one: a name that starts with an ASCII letter,
/// is made of tag characters, and stands in the text right after a `#`.
pub proof fn law_tags_sound(s: Seq<char>, p: int)
    requires
        0 <= p,
    ensures
        forall|n: int| 0 <= n < tags_from(s, p).len() ==> is_tag_in(s, p, #[trigger] tags_from(s, p)[n]),
    decreases s.len() - p,
{
    let r = tags_from(s, p);
    if p < s.len() {
        if url_at(s, p) is Some {
            lemma_url_at(s, p);
            let e = url_at(s, p)->0;
            law_tags_sound(s, e);
            assert forall|n: int| 0 <= n < r.len() implies is_tag_in(s, p, #[trigger] r[n]) by {
                assert(r[n] == tags_from(s, e)[n]);
                lemma_tag_in_earlier(s, p, e, r[n]);
            }
        } else if tag_at(s, p) is Some {
            lemma_tag_at(s, p);
            let (b, e) = tag_at(s, p)->0;
            law_tags_sound(s, e);
            let tail = tags_from(s, e);
            let name0 = s.subrange(b, e);
            assert(r == seq![name0] + tail);
            assert(is_alpha(s[b]));
            assert(tag_chars_end(s, b + 1) == e);
            lemma_tag_chars_end(s, b + 1);
            assert forall|n: int| 0 <= n < r.len() implies is_tag_in(s, p, #[trigger] r[n]) by {
                if n == 0 {
                    assert(r[0] == name0);
                    assert forall|j: int| 0 <= j < name0.len() implies is_tag_char(#[trigger] name0[j]) by {
                        assert(name0[j] == s[b + j]);
                    }
                    assert(s.subrange(b, b + name0.len()) == name0);
                    assert(s[b - 1] == '#');
                } else {
                    assert(r[n] == tail[n - 1]);
                    lemma_tag_in_earlier(s, p, e, r[n]);
                }
            }
        } else {
            law_tags_sound(s, p + 1);
            assert forall|n: int| 0 <= n < r.len() implies is_tag_in(s, p, #[trigger] r[n]) by {
                assert(r[n] == tags_from(s, p + 1)[n]);
                lemma_tag_in_earlier(s, p, p + 1, r[n]);
            }
        }
    }
}

/// Text with no tags in it is marked up as text outside any link: URLs
/// become links and tags become spans.
pub proof fn law_plain_text_marked_up(t: Seq<char>)
    requires
        t.len() > 0,
        forall|j: int| 0 <= j < t.len() ==> #[trigger] t[j] != '<',
    ensures
        postprocessed(t) == decorate(t, false),
{
    lemma_find_char_run(t, 0, t.len() as int, '<');
    assert(next_tag(t, 0) is None);
    assert(t.subrange(0, t.len() as int) =~= t);
}

/// A diff is cut only as far as it must be: it is the whole trimmed text,
/// or its longest prefix within 8192 bytes (one character more would not
/// fit) followed by `…(truncated)`.
pub proof fn law_diff_cut_is_longest(touches: bool, lines: Seq<DiffLine>)
    ensures
        ({
            let t = trim_end(patch_text(lines));
            diff_text(touches, lines) matches Some(d) ==> (d == t || exists|k: int|
                0 <= k < t.len() && d == t.take(k) + truncation_mark() && utf8_bytes(t.take(k))
                    <= diff_limit() && utf8_bytes(#[trigger] t.take(k + 1)) > diff_limit())
        }),
{
    let t = trim_end(patch_text(lines));
    lemma_fitting_chars(t, 0, diff_limit());
    let k = fitting_chars(t, 0, diff_limit());
    assert(t.subrange(0, k) =~= t.take(k));
    if k < t.len() {
        assert(t.subrange(0, k + 1) =~= t.take(k + 1));
    }
}

proof fn lemma_url_run(s: Seq<char>, i: int)
    requires
        0 <= i <= s.len(),
        forall|j: int| i <= j < s.len() ==> !is_url_stop(#[trigger] s[j]),
    ensures
        url_chars_end(s, i) == s.len(),
    decreases s.len() - i,
{
    if i < s.len() {
        lemma_url_run(s, i + 1);
    }
}

proof fn lemma_no_hash_kept(s: Seq<char>, p: int)
    requires
        0 <= p <= s.len(),
        forall|j: int| 0 <= j < s.len() ==> #[trigger] s[j] != '#',
    ensures
        decorate_from(s, p, true) == s.skip(p),
    decreases s.len() - p,
{
    if p < s.len() {
        if p + 1 < s.len() {
            assert(s[p + 1] != '#');
        }
        assert(tag_at(s, p) is None);
        lemma_no_hash_kept(s, p + 1);
        assert(s.skip(p) =~= seq![s[p]] + s.skip(p + 1));
    } else {
        assert(s.skip(p) =~= Seq::<char>::empty());
    }
}

/// A bare URL becomes a link to itself: `https://` and a rest with no
/// whitespace, `<`, `>` or quotes, ending in a character other than
/// trailing punctuation, is marked up as `<a href="URL">URL</a>` outside a
/// link; inside one it is left as it is (where it holds no `#`).
pub proof fn law_url_linked(rest: Seq<char>)
    requires
        rest.len() > 0,
        forall|j: int| 0 <= j < rest.len() ==> !is_url_stop(#[trigger] rest[j]),
        !is_url_trailer(rest.last()),
    ensures
        ({
            let u = seq!['h', 't', 't', 'p', 's', ':', '/', '/'] + rest;
            &&& decorate(u, false) == url_html(u)
            &&& (forall|j: int| 0 <= j < rest.len() ==> #[trigger] rest[j] != '#') ==> decorate(u, true) == u
        }),
{
    let sch = seq!['h', 't', 't', 'p', 's', ':', '/', '/'];
    let u = sch + rest;
    let n = u.len() as int;
    assert(u.subrange(0, 8) =~= sch);
    assert(scheme_end(u, 0) == Some(8int));
    assert forall|j: int| 8 <= j < n implies !is_url_stop(#[trigger] u[j]) by {
        assert(u[j] == rest[j - 8]);
    }
    lemma_url_run(u, 8);
    assert(u[n - 1] == rest.last());
    assert(last_url_char(u, 8, n) == n - 1);
    assert(url_at(u, 0) == Some(n));
    assert(u.subrange(0, n) =~= u);
    assert(decorate_from(u, n, false) == Seq::<char>::empty());
    assert(decorate(u, false) == url_html(u) + Seq::<char>::empty());
    assert(url_html(u) + Seq::<char>::empty() =~= url_html(u));
    if forall|j: int| 0 <= j < rest.len() ==> #[trigger] rest[j] != '#' {
        assert forall|j: int| 0 <= j < u.len() implies #[trigger] u[j] != '#' by {
            if j >= 8 {
                assert(u[j] == rest[j - 8]);
            }
        }
        lemma_no_hash_kept(u, 0);
        assert(u.skip(0) =~= u);
    }
}

} // verus!
