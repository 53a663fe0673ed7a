use mycells::cell::Cell;
use mycells::site::{PageRef, Site};

fn cell(filename: &str, content: &str) -> Cell {
    Cell::from_file(filename, content).unwrap()
}

fn ids(refs: &[PageRef]) -> Vec<String> {
    refs.iter().map(|p| p.id.clone()).collect()
}

#[test]
fn cells_are_found_by_id_and_slug() {
    let site = Site::from_cells(vec![
        cell("index.md", "# Home\n\n[[2026053101]]\n"),
        cell("2026053101-atomic-notes.md", "# Atomic\n"),
        cell("2026053102-links.md", "# Links\n\nSee [[2026053101]].\n"),
    ]);
    assert_eq!(site.all_cells().len(), 3);
    assert_eq!(site.get_by_id("2026053101").unwrap().title, "Atomic");
    assert!(site.get_by_id("2026053199").is_none());
    assert_eq!(site.get_by_slug("links").unwrap().id, "2026053102");
    assert_eq!(site.get_by_slug("").unwrap().id, "index");
    assert!(site.get_by_slug("nope").is_none());
}

#[test]
fn the_last_cell_read_with_an_id_stands() {
    let site = Site::from_cells(vec![
        cell("2026053101-first.md", "# First\n"),
        cell("2026053101-second.md", "# Second\n"),
    ]);
    assert_eq!(site.all_cells().len(), 1);
    assert_eq!(site.get_by_id("2026053101").unwrap().title, "Second");
    // The first slug still leads to the ID, which now holds the second cell.
    assert_eq!(site.get_by_slug("first").unwrap().title, "Second");
    assert_eq!(site.get_by_slug("second").unwrap().title, "Second");
}

#[test]
fn recent_pages_are_the_newest_twenty_without_the_home_page() {
    let mut cells = vec![cell("index.md", "# Home\n")];
    for n in 0..25 {
        let name = format!("20260101{:02}-n{}.md", n, n);
        cells.push(cell(&name, "# N\n"));
    }
    let site = Site::from_cells(cells);
    let recent = site.recent_pagerefs();
    assert_eq!(recent.len(), 20);
    assert_eq!(recent[0].id, "2026010124");
    assert_eq!(recent[19].id, "2026010105");
    assert!(recent.iter().all(|p| p.id != "index"));
    let got = ids(&recent);
    let mut sorted = got.clone();
    sorted.sort_by(|a, b| b.cmp(a));
    assert_eq!(got, sorted);
}

#[test]
fn recent_pages_follow_string_order() {
    let site = Site::from_cells(vec![
        cell("9-a.md", "# A\n"),
        cell("10-b.md", "# B\n"),
        cell("100-c.md", "# C\n"),
    ]);
    assert_eq!(ids(&site.recent_pagerefs()), vec!["9", "100", "10"]);
}

#[test]
fn backlinks_list_each_linking_page_once_home_page_included() {
    let site = Site::from_cells(vec![
        cell("index.md", "# Home\n\n[[2026053101]]\n"),
        cell("2026053101-a.md", "# A\n"),
        cell("2026053102-b.md", "# B\n\n[[2026053101]] and again [[2026053101|A]]\n"),
        cell("2026053103-c.md", "# C #tag\n\n[[2026053101]]\n"),
        cell("2026053104-d.md", "# D\n\n[[2026053102]]\n"),
    ]);
    let back = site.backlink_pagerefs("2026053101");
    assert_eq!(ids(&back), vec!["index", "2026053102", "2026053103"]);
    assert_eq!(back[0].url, "/");
    assert_eq!(back[2].title, "C #tag");
    assert_eq!(back[2].url, "/c/");
    assert_eq!(back[2].date, "20260531");
    assert_eq!(back[2].tags, vec!["tag".to_string()]);
    assert!(site.backlink_pagerefs("2026053104").is_empty());
}

#[test]
fn page_refs_copy_the_cell() {
    let c = cell("2026053101-atomic-notes.md", "# Atomic #One\n");
    let p = PageRef::from_cell(&c);
    assert_eq!(p.id, "2026053101");
    assert_eq!(p.slug, "atomic-notes");
    assert_eq!(p.date, "20260531");
    assert_eq!(p.title, "Atomic #One");
    assert_eq!(p.url, "/atomic-notes/");
    assert_eq!(p.tags, vec!["one".to_string()]);
}
