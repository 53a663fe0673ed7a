//! The site: every cell that was read, found by ID or by slug, with the
//! links between them and the list of the newest.
use vstd::prelude::*;
use crate::cell::{clone_strings, index_id, strs, url_of, Cell, CellView};
use crate::text::{chars_of, same_text, string_of};

verus! {

/// What a page lists of another page: its ID, slug, date, title, URL and
/// tags.
pub struct PageRef {
    pub id: String,
    pub slug: String,
    pub date: String,
    pub title: String,
    pub url: String,
    pub tags: Vec<String>,
}

pub struct PageRefView {
    pub id: Seq<char>,
    pub slug: Seq<char>,
    pub date: Seq<char>,
    pub title: Seq<char>,
    pub url: Seq<char>,
    pub tags: Seq<Seq<char>>,
}

impl View for PageRef {
    type V = PageRefView;

    open spec fn view(&self) -> PageRefView {
        PageRefView {
            id: self.id@,
            slug: self.slug@,
            date: self.date@,
            title: self.title@,
            url: self.url@,
            tags: strs(self.tags@),
        }
    }
}

/// The reference to a cell.
pub open spec fn page_ref_of(c: CellView) -> PageRefView {
    PageRefView { id: c.id, slug: c.slug, date: c.date, title: c.title, url: url_of(c.slug), tags: c.tags }
}

/// The views of a sequence of page references.
pub open spec fn page_refs(v: Seq<PageRef>) -> Seq<PageRefView> {
    v.map_values(|p: PageRef| p@)
}

/// The views of a sequence of cells.
pub open spec fn cell_views(v: Seq<Cell>) -> Seq<CellView> {
    v.map_values(|c: Cell| c@)
}

impl PageRef {
    pub fn from_cell(cell: &Cell) -> (r: PageRef)
        ensures
            r@ == page_ref_of(cell@),
    {
        PageRef {
            id: cell.id.clone(),
            slug: cell.slug.clone(),
            date: String::from_str(cell.created_date()),
            title: cell.title.clone(),
            url: cell.url(),
            tags: clone_strings(&cell.tags),
        }
    }
}

// ── the cells of a site ──────────────────────────────────────────────────────

pub open spec fn has_id(s: Seq<CellView>, id: Seq<char>) -> bool {
    exists|i: int| 0 <= i < s.len() && s[i].id == id
}

/// No two of these cells share an ID.
pub open spec fn ids_unique(cells: Seq<CellView>) -> bool {
    forall|i: int, j: int| 0 <= i < j < cells.len() ==> #[trigger] cells[i].id != #[trigger] cells[j].id
}

/// The cells that were read, each ID kept only in the last cell read with
/// it, in the order they were read.
pub open spec fn latest(s: Seq<CellView>) -> Seq<CellView>
    decreases s.len(),
{
    if s.len() == 0 {
        s
    } else if has_id(s.drop_first(), s[0].id) {
        latest(s.drop_first())
    } else {
        seq![s[0]] + latest(s.drop_first())
    }
}

/// The first cell of `s` with this ID.
pub open spec fn find_cell(s: Seq<CellView>, id: Seq<char>) -> Option<CellView>
    decreases s.len(),
{
    if s.len() == 0 {
        None
    } else if s[0].id == id {
        Some(s[0])
    } else {
        find_cell(s.drop_first(), id)
    }
}

/// The ID that a slug leads to: that of the last cell read with the slug.
pub open spec fn slug_target(read: Seq<(Seq<char>, Seq<char>)>, slug: Seq<char>) -> Option<Seq<char>>
    decreases read.len(),
{
    if read.len() == 0 {
        None
    } else if read.last().0 == slug {
        Some(read.last().1)
    } else {
        slug_target(read.drop_last(), slug)
    }
}

/// The slug and the ID of each cell that was read, in order.
pub open spec fn slug_pairs(s: Seq<CellView>) -> Seq<(Seq<char>, Seq<char>)> {
    s.map_values(|c: CellView| (c.slug, c.id))
}

// ── the order of IDs ─────────────────────────────────────────────────────────

/// `a` comes before `b` in the order of `str`: character by character, a
/// proper prefix first.
pub open spec fn lex_lt(a: Seq<char>, b: Seq<char>) -> bool
    decreases a.len(),
{
    if a.len() == 0 {
        b.len() > 0
    } else if b.len() == 0 {
        false
    } else if a[0] != b[0] {
        a[0] < b[0]
    } else {
        lex_lt(a.drop_first(), b.drop_first())
    }
}

pub proof fn lemma_lex_irreflexive(a: Seq<char>)
    ensures
        !lex_lt(a, a),
    decreases a.len(),
{
    if a.len() > 0 {
        lemma_lex_irreflexive(a.drop_first());
    }
}

pub proof fn lemma_lex_asymmetric(a: Seq<char>, b: Seq<char>)
    ensures
        !(lex_lt(a, b) && lex_lt(b, a)),
    decreases a.len(),
{
    if a.len() > 0 && b.len() > 0 && a[0] == b[0] {
        lemma_lex_asymmetric(a.drop_first(), b.drop_first());
    }
}

pub proof fn lemma_lex_transitive(a: Seq<char>, b: Seq<char>, c: Seq<char>)
    requires
        lex_lt(a, b),
        lex_lt(b, c),
    ensures
        lex_lt(a, c),
    decreases a.len(),
{
    if a.len() > 0 && b.len() > 0 && c.len() > 0 && a[0] == b[0] && b[0] == c[0] {
        lemma_lex_transitive(a.drop_first(), b.drop_first(), c.drop_first());
    }
}

pub proof fn lemma_lex_total(a: Seq<char>, b: Seq<char>)
    requires
        a != b,
    ensures
        lex_lt(a, b) || lex_lt(b, a),
    decreases a.len(),
{
    if a.len() > 0 && b.len() > 0 && a[0] == b[0] {
        if a.drop_first() == b.drop_first() {
            assert(a =~= seq![a[0]] + a.drop_first());
            assert(b =~= seq![b[0]] + b.drop_first());
        }
        lemma_lex_total(a.drop_first(), b.drop_first());
    } else if a.len() == 0 && b.len() == 0 {
        assert(a =~= b);
    }
}

/// Whether `a` comes before `b`; see `lex_lt`.
pub fn lex_less(a: &Vec<char>, b: &Vec<char>) -> (r: bool)
    ensures
        r == lex_lt(a@, b@),
{
    let mut i: usize = 0;
    assert(a@.skip(0) =~= a@);
    assert(b@.skip(0) =~= b@);
    while i < a.len() && i < b.len() && a[i] == b[i]
        invariant
            i <= a.len(),
            i <= b.len(),
            lex_lt(a@, b@) == lex_lt(a@.skip(i as int), b@.skip(i as int)),
        decreases a.len() - i,
    {
        assert(a@.skip(i as int).drop_first() =~= a@.skip(i + 1));
        assert(b@.skip(i as int).drop_first() =~= b@.skip(i + 1));
        i = i + 1;
    }
    if i == a.len() {
        i < b.len()
    } else if i == b.len() {
        false
    } else {
        a[i] < b[i]
    }
}

/// `r` lists the newest of `ids`, as `Site` keeps them: the greatest in the
/// order of `str`, at most 20, greatest first.
pub open spec fn is_recent(r: Seq<Seq<char>>, ids: Set<Seq<char>>) -> bool {
    &&& r.len() <= 20
    &&& forall|i: int, j: int| 0 <= i < j < r.len() ==> lex_lt(#[trigger] r[j], #[trigger] r[i])
    &&& forall|i: int| 0 <= i < r.len() ==> ids.contains(#[trigger] r[i])
    &&& forall|x: Seq<char>|
        #![trigger ids.contains(x)]
        ids.contains(x) && !r.contains(x) ==> r.len() == 20 && forall|i: int|
            0 <= i < r.len() ==> lex_lt(x, #[trigger] r[i])
}

/// Adds `x` to the newest of `ids`.
fn insert_recent(r: &mut Vec<Vec<char>>, x: Vec<char>, Ghost(ids): Ghost<Set<Seq<char>>>)
    requires
        is_recent(old(r)@.map_values(|v: Vec<char>| v@), ids),
        !ids.contains(x@),
    ensures
        is_recent(final(r)@.map_values(|v: Vec<char>| v@), ids.insert(x@)),
{
    let ghost old_r = r@.map_values(|v: Vec<char>| v@);
    let mut p: usize = 0;
    while p < r.len() && !lex_less(&r[p], &x)
        invariant
            p <= r.len(),
            r@.map_values(|v: Vec<char>| v@) == old_r,
            is_recent(old_r, ids),
            !ids.contains(x@),
            forall|i: int| 0 <= i < p ==> lex_lt(x@, #[trigger] old_r[i]),
        decreases r.len() - p,
    {
        proof {
            assert(old_r[p as int] == r@[p as int]@);
            assert(ids.contains(old_r[p as int]));
            lemma_lex_total(x@, old_r[p as int]);
        }
        p = p + 1;
    }
    let ghost xs = x@;
    assert(p < old_r.len() ==> lex_lt(old_r[p as int], xs)) by {
        if p < old_r.len() {
            assert(old_r[p as int] == r@[p as int]@);
        }
    }
    r.insert(p, x);
    let ghost mid = r@.map_values(|v: Vec<char>| v@);
    assert(mid =~= old_r.take(p as int) + seq![xs] + old_r.skip(p as int));
    if r.len() > 20 {
        r.pop();
    }
    let ghost new_r = r@.map_values(|v: Vec<char>| v@);
    let ghost ids2 = ids.insert(xs);
    proof {
        assert(new_r.len() <= 20);
        assert forall|i: int, j: int| 0 <= i < j < new_r.len() implies lex_lt(
            #[trigger] new_r[j],
            #[trigger] new_r[i],
        ) by {
            assert(new_r[i] == mid[i] && new_r[j] == mid[j]);
            if i < p && j < p {
            } else if i < p && j == p {
            } else if i < p && j > p {
                assert(mid[j] == old_r[j - 1]);
            } else if i == p {
                assert(mid[j] == old_r[j - 1]);
                if j - 1 > p {
                    lemma_lex_transitive(old_r[j - 1], old_r[p as int], xs);
                }
            } else {
                assert(mid[j] == old_r[j - 1] && mid[i] == old_r[i - 1]);
            }
        }
        assert forall|i: int| 0 <= i < new_r.len() implies ids2.contains(#[trigger] new_r[i]) by {
            assert(new_r[i] == mid[i]);
            if i > p {
                assert(mid[i] == old_r[i - 1]);
            }
        }
        assert forall|y: Seq<char>| ids2.contains(y) && !new_r.contains(y) implies new_r.len() == 20
            && forall|i: int| 0 <= i < new_r.len() ==> lex_lt(y, #[trigger] new_r[i]) by {
            if mid.len() > 20 {
                // The smallest, at the end, left.
                let last = mid[20];
                if y == last {
                    assert forall|i: int| 0 <= i < new_r.len() implies lex_lt(y, #[trigger] new_r[i]) by {
                        assert(new_r[i] == mid[i]);
                        if i < 20 {
                            assert(lex_lt(mid[20], mid[i])) by {
                                if i < p && 20 > p {
                                    assert(mid[20] == old_r[19]);
                                    if 19 > p {
                                    }
                                } else if i == p {
                                    assert(mid[20] == old_r[19]);
                                    if 19 > p {
                                        lemma_lex_transitive(old_r[19], old_r[p as int], xs);
                                    }
                                } else if i > p {
                                    assert(mid[20] == old_r[19] && mid[i] == old_r[i - 1]);
                                }
                            }
                        }
                    }
                } else {
                    assert(!mid.contains(y)) by {
                        if mid.contains(y) {
                            let k = choose|k: int| 0 <= k < mid.len() && mid[k] == y;
                            if k < 20 {
                                assert(new_r[k] == y);
                            }
                        }
                    }
                    assert(y != xs) by {
                        assert(mid[p as int] == xs);
                    }
                    assert(!old_r.contains(y)) by {
                        if old_r.contains(y) {
                            let k = choose|k: int| 0 <= k < old_r.len() && old_r[k] == y;
                            if k < p {
                                assert(mid[k] == y);
                            } else {
                                assert(mid[k + 1] == y);
                            }
                        }
                    }
                    assert forall|i: int| 0 <= i < new_r.len() implies lex_lt(y, #[trigger] new_r[i]) by {
                        assert(new_r[i] == mid[i]);
                        if i < p {
                            assert(mid[i] == old_r[i]);
                        } else if i == p {
                            if 19 > p {
                                lemma_lex_transitive(old_r[19], old_r[p as int], xs);
                            }
                            lemma_lex_transitive(y, old_r[19], xs);
                        } else {
                            assert(mid[i] == old_r[i - 1]);
                        }
                    }
                }
            } else {
                assert(y != xs) by {
                    assert(mid[p as int] == xs);
                    assert(new_r[p as int] == xs);
                }
                assert(!old_r.contains(y)) by {
                    if old_r.contains(y) {
                        let k = choose|k: int| 0 <= k < old_r.len() && old_r[k] == y;
                        if k < p {
                            assert(new_r[k] == y);
                        } else {
                            assert(new_r[k + 1] == y);
                        }
                    }
                }
                assert(old_r.len() == 20);
                assert(false);
            }
        }
    }
}

// ── the site ─────────────────────────────────────────────────────────────────

/// The cells of a site, and what it knows to find them by.
pub struct Site {
    cells: Vec<Cell>,
    slugs: Vec<(String, String)>,
    recent_ids: Vec<Vec<char>>,
}

pub struct SiteView {
    /// The cells, one for each ID.
    pub cells: Seq<CellView>,
    /// The slug and the ID of each cell read, in the order read.
    pub slugs: Seq<(Seq<char>, Seq<char>)>,
    /// The IDs of the newest cells.
    pub recent: Seq<Seq<char>>,
}

impl Site {
    /// Each ID is that of one cell at most.
    #[verifier::type_invariant]
    spec fn one_cell_per_id(self) -> bool {
        ids_unique(cell_views(self.cells@))
    }
}

impl View for Site {
    type V = SiteView;

    closed spec fn view(&self) -> SiteView {
        SiteView {
            cells: cell_views(self.cells@),
            slugs: self.slugs@.map_values(|p: (String, String)| (p.0@, p.1@)),
            recent: self.recent_ids@.map_values(|v: Vec<char>| v@),
        }
    }
}

/// The IDs of the cells other than the home page.
pub open spec fn page_ids(cells: Seq<CellView>) -> Set<Seq<char>> {
    Set::new(|x: Seq<char>| has_id(cells, x) && x != index_id())
}

/// The references to the cells with these IDs, skipping an ID no cell has.
pub open spec fn refs_for_ids(cells: Seq<CellView>, ids: Seq<Seq<char>>) -> Seq<PageRefView>
    decreases ids.len(),
{
    if ids.len() == 0 {
        seq![]
    } else {
        refs_for_ids(cells, ids.drop_last()) + match find_cell(cells, ids.last()) {
            Some(c) => seq![page_ref_of(c)],
            None => seq![],
        }
    }
}

/// The references to the cells that link to `target`, in the order of
/// `cells`.
pub open spec fn backlinks_of(cells: Seq<CellView>, target: Seq<char>) -> Seq<PageRefView>
    decreases cells.len(),
{
    if cells.len() == 0 {
        seq![]
    } else {
        let c = cells.last();
        backlinks_of(cells.drop_last(), target) + if c.outlinks.contains(target) {
            seq![page_ref_of(c)]
        } else {
            seq![]
        }
    }
}

/// What `latest` keeps: the same IDs, each once.
pub proof fn lemma_latest(s: Seq<CellView>)
    ensures
        forall|id: Seq<char>| has_id(latest(s), id) == has_id(s, id),
        forall|i: int, j: int|
            0 <= i < j < latest(s).len() ==> #[trigger] latest(s)[i].id != #[trigger] latest(s)[j].id,
        forall|i: int|
            0 <= i < latest(s).len() ==> exists|k: int| 0 <= k < s.len() && s[k] == #[trigger] latest(s)[i],
    decreases s.len(),
{
    if s.len() > 0 {
        let t = s.drop_first();
        lemma_latest(t);
        let l = latest(s);
        let lt = latest(t);
        assert forall|id: Seq<char>| has_id(l, id) == has_id(s, id) by {
            if has_id(s, id) {
                let k = choose|k: int| 0 <= k < s.len() && s[k].id == id;
                if k > 0 {
                    assert(t[k - 1].id == id);
                    assert(has_id(t, id));
                    assert(has_id(lt, id));
                    let m = choose|m: int| 0 <= m < lt.len() && lt[m].id == id;
                    if !has_id(t, s[0].id) {
                        assert(l[m + 1].id == id);
                    }
                } else if has_id(t, s[0].id) {
                    assert(has_id(t, id));
                    assert(has_id(lt, id));
                } else {
                    assert(l[0].id == id);
                }
            }
            if has_id(l, id) {
                let m = choose|m: int| 0 <= m < l.len() && l[m].id == id;
                if has_id(t, s[0].id) {
                    assert(has_id(lt, id));
                    let k = choose|k: int| 0 <= k < t.len() && t[k].id == id;
                    assert(s[k + 1].id == id);
                } else if m == 0 {
                    assert(s[0].id == id);
                } else {
                    assert(lt[m - 1].id == id);
                    assert(has_id(lt, id));
                    let k = choose|k: int| 0 <= k < t.len() && t[k].id == id;
                    assert(s[k + 1].id == id);
                }
            }
        }
        assert forall|i: int|
            0 <= i < l.len() implies exists|k: int| 0 <= k < s.len() && s[k] == #[trigger] l[i] by {
            if has_id(t, s[0].id) {
                let k = choose|k: int| 0 <= k < t.len() && t[k] == lt[i];
                assert(s[k + 1] == l[i]);
            } else if i == 0 {
                assert(s[0] == l[0]);
            } else {
                let k = choose|k: int| 0 <= k < t.len() && t[k] == lt[i - 1];
                assert(s[k + 1] == l[i]);
            }
        }
        assert forall|i: int, j: int|
            0 <= i < j < l.len() implies #[trigger] l[i].id != #[trigger] l[j].id by {
            if !has_id(t, s[0].id) {
                if i == 0 {
                    assert(l[j] == lt[j - 1]);
                    if lt[j - 1].id == s[0].id {
                        assert(has_id(lt, s[0].id));
                    }
                } else {
                    assert(l[i] == lt[i - 1] && l[j] == lt[j - 1]);
                }
            }
        }
    }
}

impl Site {
    /// The site made of the cells that were read, in the order they were
    /// read: where two share an ID, the one read last stands; a slug leads
    /// to the ID of the last cell read with it; the newest are the (at most
    /// 20) greatest IDs other than that of the home page.
    pub fn from_cells(read: Vec<Cell>) -> (r: Site)
        ensures
            r@.cells == latest(cell_views(read@)),
            r@.slugs == slug_pairs(cell_views(read@)),
            is_recent(r@.recent, page_ids(r@.cells)),
    {
        let ghost rv = cell_views(read@);
        let n = read.len();
        let mut cells: Vec<Cell> = Vec::new();
        let mut slugs: Vec<(String, String)> = Vec::new();
        let mut i: usize = 0;
        assert(rv.skip(0) =~= rv);
        assert(cell_views(cells@) =~= Seq::<CellView>::empty());
        assert(slugs@.map_values(|p: (String, String)| (p.0@, p.1@)) =~= slug_pairs(rv.take(0)));
        while i < n
            invariant
                n == read.len(),
                rv == cell_views(read@),
                i <= n,
                latest(rv) == cell_views(cells@) + latest(rv.skip(i as int)),
                slugs@.map_values(|p: (String, String)| (p.0@, p.1@)) == slug_pairs(rv.take(i as int)),
            decreases n - i,
        {
            let mut dup = false;
            let mut j = i + 1;
            while j < n
                invariant
                    n == read.len(),
                    i < j <= n,
                    dup == exists|k: int| i < k < j && read@[k].id@ == read@[i as int].id@,
                decreases n - j,
            {
                if same_text(read[j].id.as_str(), read[i].id.as_str()) {
                    dup = true;
                }
                j = j + 1;
            }
            let ghost t = rv.skip(i as int);
            proof {
                assert(t[0] == rv[i as int]);
                assert(t.drop_first() =~= rv.skip(i + 1));
                assert(has_id(t.drop_first(), t[0].id) == dup) by {
                    if dup {
                        let k = choose|k: int| i < k < n && read@[k].id@ == read@[i as int].id@;
                        assert(t.drop_first()[k - i - 1].id == t[0].id);
                    }
                    if has_id(t.drop_first(), t[0].id) {
                        let k = choose|k: int| 0 <= k < t.drop_first().len() && t.drop_first()[k].id == t[0].id;
                        assert(read@[k + i + 1].id@ == read@[i as int].id@);
                    }
                }
            }
            if !dup {
                let ghost before = cell_views(cells@);
                cells.push(read[i].clone());
                assert(cell_views(cells@) =~= before.push(rv[i as int]));
                assert(before.push(rv[i as int]) + latest(rv.skip(i + 1)) =~= before + (seq![t[0]] + latest(t.drop_first())));
            }
            let ghost sb = slugs@.map_values(|p: (String, String)| (p.0@, p.1@));
            slugs.push((read[i].slug.clone(), read[i].id.clone()));
            assert(rv.take(i + 1) =~= rv.take(i as int).push(rv[i as int]));
            assert(slugs@.map_values(|p: (String, String)| (p.0@, p.1@)) =~= sb.push((rv[i as int].slug, rv[i as int].id)));
            i = i + 1;
        }
        assert(rv.skip(n as int) =~= Seq::<CellView>::empty());
        assert(rv.take(n as int) =~= rv);
        assert(cell_views(cells@) =~= latest(rv));
        // The newest IDs.
        proof {
            lemma_latest(rv);
        }
        let ghost cv = cell_views(cells@);
        let mut recent: Vec<Vec<char>> = Vec::new();
        let ghost mut seen: Set<Seq<char>> = Set::empty();
        let mut k: usize = 0;
        proof {
            assert(recent@.map_values(|v: Vec<char>| v@) =~= Seq::<Seq<char>>::empty());
        }
        while k < cells.len()
            invariant
                k <= cells.len(),
                cv == cell_views(cells@),
                forall|a: int, b: int| 0 <= a < b < cv.len() ==> #[trigger] cv[a].id != #[trigger] cv[b].id,
                seen == Set::new(|x: Seq<char>| exists|m: int| 0 <= m < k && cv[m].id == x && x != index_id()),
                is_recent(recent@.map_values(|v: Vec<char>| v@), seen),
            decreases cells.len() - k,
        {
            let id = chars_of(cells[k].id.as_str());
            let is_index = same_text(cells[k].id.as_str(), "index");
            proof {
                reveal_strlit("index");
                assert("index"@ =~= index_id());
                assert(cv[k as int].id == id@);
            }
            let ghost next = Set::new(|x: Seq<char>| exists|m: int| 0 <= m < k + 1 && cv[m].id == x && x != index_id());
            if !is_index {
                proof {
                    assert(!seen.contains(id@)) by {
                        if seen.contains(id@) {
                            let m = choose|m: int| 0 <= m < k && cv[m].id == id@ && id@ != index_id();
                        }
                    }
                    assert(seen.insert(id@) =~= next) by {
                        assert forall|x: Seq<char>| next.contains(x) implies seen.insert(id@).contains(x) by {
                            let m = choose|m: int| 0 <= m < k + 1 && cv[m].id == x && x != index_id();
                            if m < k {
                                assert(seen.contains(x));
                            }
                        }
                    }
                }
                insert_recent(&mut recent, id, Ghost(seen));
            } else {
                proof {
                    assert(seen =~= next) by {
                        assert forall|x: Seq<char>| next.contains(x) implies seen.contains(x) by {
                            let m = choose|m: int| 0 <= m < k + 1 && cv[m].id == x && x != index_id();
                            if m < k {
                            }
                        }
                    }
                }
            }
            proof {
                seen = next;
            }
            k = k + 1;
        }
        proof {
            assert(seen =~= page_ids(cv)) by {
                assert forall|x: Seq<char>| page_ids(cv).contains(x) implies seen.contains(x) by {
                    let m = choose|m: int| 0 <= m < cv.len() && cv[m].id == x;
                }
            }
        }
        assert(ids_unique(cell_views(cells@)));
        let site = Site { cells, slugs, recent_ids: recent };
        site
    }
}

impl Site {
    /// The cell with this ID.
    pub fn get_by_id(&self, id: &str) -> (r: Option<&Cell>)
        ensures
            match r {
                Some(c) => find_cell(self@.cells, id@) == Some(c@),
                None => find_cell(self@.cells, id@) is None,
            },
    {
        let ghost cv = self@.cells;
        let mut i: usize = 0;
        assert(cv.skip(0) =~= cv);
        while i < self.cells.len()
            invariant
                i <= self.cells.len(),
                cv == cell_views(self.cells@),
                find_cell(cv, id@) == find_cell(cv.skip(i as int), id@),
            decreases self.cells.len() - i,
        {
            assert(cv.skip(i as int)[0] == cv[i as int]);
            if same_text(self.cells[i].id.as_str(), id) {
                return Some(&self.cells[i]);
            }
            assert(cv.skip(i as int).drop_first() =~= cv.skip(i + 1));
            i = i + 1;
        }
        None
    }

    /// The cell that a slug leads to: the cell with the ID of the last cell
    /// read with that slug.
    pub fn get_by_slug(&self, slug: &str) -> (r: Option<&Cell>)
        ensures
            match slug_target(self@.slugs, slug@) {
                Some(id) => match r {
                    Some(c) => find_cell(self@.cells, id) == Some(c@),
                    None => find_cell(self@.cells, id) is None,
                },
                None => r is None,
            },
    {
        let ghost sv = self@.slugs;
        let mut i = self.slugs.len();
        assert(sv.take(i as int) =~= sv);
        while i > 0
            invariant
                i <= self.slugs.len(),
                sv == self.slugs@.map_values(|p: (String, String)| (p.0@, p.1@)),
                slug_target(sv, slug@) == slug_target(sv.take(i as int), slug@),
            decreases i,
        {
            assert(sv.take(i as int).drop_last() =~= sv.take(i - 1));
            assert(sv.take(i as int).last() == sv[i - 1]);
            if same_text(self.slugs[i - 1].0.as_str(), slug) {
                return self.get_by_id(self.slugs[i - 1].1.as_str());
            }
            i = i - 1;
        }
        None
    }

    /// All the cells, one for each ID.
    pub fn all_cells(&self) -> (r: &Vec<Cell>)
        ensures
            cell_views(r@) == self@.cells,
            ids_unique(self@.cells),
    {
        proof {
            use_type_invariant(self);
        }
        &self.cells
    }

    /// The references to the newest cells, newest first.
    pub fn recent_pagerefs(&self) -> (r: Vec<PageRef>)
        ensures
            page_refs(r@) == refs_for_ids(self@.cells, self@.recent),
    {
        let ghost ids = self@.recent;
        let mut out: Vec<PageRef> = Vec::new();
        let mut i: usize = 0;
        while i < self.recent_ids.len()
            invariant
                i <= self.recent_ids.len(),
                ids == self@.recent,
                page_refs(out@) == refs_for_ids(self@.cells, ids.take(i as int)),
            decreases self.recent_ids.len() - i,
        {
            let id = string_of(&self.recent_ids[i]);
            assert(ids.take(i + 1).drop_last() =~= ids.take(i as int));
            assert(ids.take(i + 1).last() == id@);
            match self.get_by_id(id.as_str()) {
                Some(c) => {
                    let ghost before = page_refs(out@);
                    out.push(PageRef::from_cell(c));
                    assert(page_refs(out@) =~= before.push(page_ref_of(c@)));
                },
                None => {},
            }
            i = i + 1;
        }
        assert(ids.take(ids.len() as int) =~= ids);
        out
    }

    /// The references to the cells that link to the cell with this ID, the
    /// home page among them.
    pub fn backlink_pagerefs(&self, id: &str) -> (r: Vec<PageRef>)
        ensures
            page_refs(r@) == backlinks_of(self@.cells, id@),
    {
        let ghost cv = self@.cells;
        let mut out: Vec<PageRef> = Vec::new();
        let mut i: usize = 0;
        while i < self.cells.len()
            invariant
                i <= self.cells.len(),
                cv == cell_views(self.cells@),
                page_refs(out@) == backlinks_of(cv.take(i as int), id@),
            decreases self.cells.len() - i,
        {
            let c = &self.cells[i];
            assert(cv.take(i + 1).drop_last() =~= cv.take(i as int));
            assert(cv.take(i + 1).last() == c@);
            let mut links = false;
            let mut j: usize = 0;
            while j < c.outlinks.len()
                invariant
                    j <= c.outlinks.len(),
                    links == exists|m: int| 0 <= m < j && c.outlinks@[m]@ == id@,
                decreases c.outlinks.len() - j,
            {
                if same_text(c.outlinks[j].as_str(), id) {
                    links = true;
                }
                j = j + 1;
            }
            proof {
                assert(links == c@.outlinks.contains(id@)) by {
                    if links {
                        let m = choose|m: int| 0 <= m < c.outlinks.len() && c.outlinks@[m]@ == id@;
                        assert(c@.outlinks[m] == id@);
                    }
                    if c@.outlinks.contains(id@) {
                        let m = choose|m: int| 0 <= m < c@.outlinks.len() && c@.outlinks[m] == id@;
                        assert(c.outlinks@[m]@ == id@);
                    }
                }
            }
            if links {
                let ghost before = page_refs(out@);
                out.push(PageRef::from_cell(c));
                assert(page_refs(out@) =~= before.push(page_ref_of(c@)));
            }
            i = i + 1;
        }
        assert(cv.take(cv.len() as int) =~= cv);
        out
    }
}

} // verus!
