use mycells::cell::Cell;
use mycells::markdown::MdEvent;
use mycells::render::{
    build_context, build_graph, postprocess_html, render_to_html, render_without_title, resolve_links,
    without_first_h1,
};
use mycells::site::Site;

fn site() -> Site {
    Site::from_cells(vec![
        Cell::from_file("index.md", "# Home\n\nStart at [[2026053101]].\n").unwrap(),
        Cell::from_file("2026053101-atomic-notes.md", "# Atomic Notes\n\nOne idea. #zettelkasten\n").unwrap(),
        Cell::from_file(
            "2026053102-links.md",
            "# Linking\n\nBuilds on [[2026053101]] and [[2026053101|this]], not [[999]] or [[index]].\n",
        )
        .unwrap(),
    ])
}

#[test]
fn urls_and_tags_are_marked_up() {
    assert_eq!(
        postprocess_html("<p>See https://example.com/a. #Tag</p>"),
        "<p>See <a href=\"https://example.com/a\">https://example.com/a</a>. <span class=\"tag\">#Tag</span></p>"
    );
    assert_eq!(postprocess_html("#start"), "<span class=\"tag\">#start</span>");
    assert_eq!(postprocess_html("a#b (#c)"), "a#b (<span class=\"tag\">#c</span>)");
}

#[test]
fn code_is_left_alone() {
    let html = "<pre><code>#x https://a.b</code></pre><p><code>#y</code> #z</p>";
    assert_eq!(
        postprocess_html(html),
        "<pre><code>#x https://a.b</code></pre><p><code>#y</code> <span class=\"tag\">#z</span></p>"
    );
    assert_eq!(postprocess_html("<PRE>#x</PRE> #w"), "<PRE>#x</PRE> <span class=\"tag\">#w</span>");
}

#[test]
fn links_are_not_nested() {
    assert_eq!(
        postprocess_html("<a href=\"x\">http://x.org #t</a>"),
        "<a href=\"x\">http://x.org <span class=\"tag\">#t</span></a>"
    );
}

#[test]
fn a_tag_without_end_is_text() {
    assert_eq!(postprocess_html("a < #b"), "a < <span class=\"tag\">#b</span>");
}

#[test]
fn links_resolve_to_titles_and_urls() {
    let s = site();
    assert_eq!(
        resolve_links("Builds on [[2026053101]] and [[2026053101|this]], not [[999]] or [[999|x]].", &s),
        "Builds on [Atomic Notes](/atomic-notes/) and [this](/atomic-notes/), not [[999]] or [[999|x]]."
    );
    assert_eq!(resolve_links("no links", &s), "no links");
}

#[test]
fn the_graph_joins_all_pages() {
    let g = build_graph(&site());
    let ids: Vec<&str> = g.nodes.iter().map(|n| n.id.as_str()).collect();
    assert_eq!(ids, vec!["index", "2026053101", "2026053102"]);
    assert_eq!(g.nodes[0].url, "/");
    assert_eq!(g.nodes[1].url, "/atomic-notes/");
    assert_eq!(g.nodes[1].text, "Atomic Notes One idea. #zettelkasten");
    assert_eq!(g.nodes[1].tags, vec!["zettelkasten".to_string()]);
    let edges: Vec<(&str, &str)> = g.edges.iter().map(|e| (e.source.as_str(), e.target.as_str())).collect();
    assert_eq!(
        edges,
        vec![("index", "2026053101"), ("2026053102", "2026053101"), ("2026053102", "2026053101")]
    );
}

#[test]
fn graph_nodes_have_distinct_ids() {
    let s = Site::from_cells(vec![
        Cell::from_file("2026053101-first.md", "# First\n").unwrap(),
        Cell::from_file("2026053101-second.md", "# Second [[2026053101]]\n").unwrap(),
        Cell::from_file("index.md", "# Home\n").unwrap(),
    ]);
    let g = build_graph(&s);
    let ids: Vec<&str> = g.nodes.iter().map(|n| n.id.as_str()).collect();
    assert_eq!(ids, vec!["2026053101", "index"]);
    assert_eq!(g.nodes[0].title, "Second [[2026053101]]");
    assert_eq!(g.edges.len(), 1);
}

#[test]
fn the_first_title_is_dropped() {
    let kinds = vec![
        MdEvent::Other,
        MdEvent::H1Start,
        MdEvent::Text("T".to_string()),
        MdEvent::H1End,
        MdEvent::H1Start,
        MdEvent::H1End,
    ];
    assert_eq!(without_first_h1(vec![0, 1, 2, 3, 4, 5], &kinds), vec![0, 4, 5]);
    let none = vec![MdEvent::Other, MdEvent::Break];
    assert_eq!(without_first_h1(vec![7, 8], &none), vec![7, 8]);
    let open = vec![MdEvent::Other, MdEvent::H1Start, MdEvent::Other];
    assert_eq!(without_first_h1(vec![1, 2, 3], &open), vec![1]);
}

#[test]
fn pages_render_to_html() {
    let s = site();
    assert_eq!(
        render_to_html("# Title\n\nSee [[2026053101]] #tag\n", &s),
        "<h1>Title</h1>\n<p>See <a href=\"/atomic-notes/\">Atomic Notes</a> <span class=\"tag\">#tag</span></p>\n"
    );
    assert_eq!(
        render_without_title("# Title\n\nBody https://x.org\n", &s),
        "<p>Body <a href=\"https://x.org\">https://x.org</a></p>\n"
    );
}

#[test]
fn only_the_first_title_is_dropped() {
    let s = site();
    assert_eq!(render_without_title("# A\n\n# B\n", &s), "<h1>B</h1>\n");
    assert_eq!(render_to_html("# A\n\n# B\n", &s), "<h1>A</h1>\n<h1>B</h1>\n");
    assert_eq!(render_without_title("Intro\n\n# T\n\nEnd\n", &s), "<p>Intro</p>\n<p>End</p>\n");
    assert_eq!(render_without_title("No title\n", &s), render_to_html("No title\n", &s));
    let body = render_to_html("# Tt9\n\nrest [[2026053101]]\n", &s);
    let rest = render_without_title("# Tt9\n\nrest [[2026053101]]\n", &s);
    assert_eq!(body, format!("<h1>Tt9</h1>\n{}", rest));
}

#[test]
fn the_template_context_is_built() {
    let s = site();
    let g = build_graph(&s);
    let cell = s.get_by_id("2026053101").unwrap();
    let vars = vec![("site_title".to_string(), "Notes".to_string())];
    let ctx = build_context(cell, &s, &g, &vars);
    assert_eq!(ctx.page.id, "2026053101");
    assert_eq!(ctx.page.date, "20260531");
    assert_eq!(ctx.page.date_formatted, "2026-05-31");
    assert_eq!(ctx.page.last_modified, "");
    assert_eq!(ctx.page.url, "/atomic-notes/");
    assert_eq!(ctx.page.body_without_title, "<p>One idea. <span class=\"tag\">#zettelkasten</span></p>\n");
    let back: Vec<&str> = ctx.page.backlinks.iter().map(|p| p.id.as_str()).collect();
    assert_eq!(back, vec!["index", "2026053102"]);
    let recent: Vec<&str> = ctx.recent_pages.iter().map(|p| p.id.as_str()).collect();
    assert_eq!(recent, vec!["2026053102", "2026053101"]);
    assert_eq!(ctx.site_graph.nodes.len(), 3);
    assert_eq!(ctx.vars, vars);
}
