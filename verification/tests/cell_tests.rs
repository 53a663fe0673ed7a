use mycells::cell::{extract_outlinks, extract_plain_text, extract_tags, extract_title, format_date, Cell};

#[test]
fn from_file_reads_an_id_slug_file() {
    let content = "# The Principle of Atomic Notes\n\nOne note, one idea. #zettelkasten #learning\n";
    let cell = Cell::from_file("2026053101-atomic-notes.md", content).unwrap();
    assert_eq!(cell.id, "2026053101");
    assert_eq!(cell.slug, "atomic-notes");
    assert_eq!(cell.date, "20260531");
    assert_eq!(cell.created_date(), "20260531");
    assert_eq!(cell.title, "The Principle of Atomic Notes");
    assert_eq!(cell.raw, content);
    assert_eq!(cell.tags, vec!["zettelkasten".to_string(), "learning".to_string()]);
    assert!(cell.outlinks.is_empty());
    assert!(cell.history.is_empty());
    assert_eq!(cell.url(), "/atomic-notes/");
}

#[test]
fn from_file_reads_the_home_page() {
    let cell = Cell::from_file("index.md", "# My Notes\n\nWelcome to my notes.\n").unwrap();
    assert_eq!(cell.id, "index");
    assert_eq!(cell.slug, "");
    assert_eq!(cell.date, "");
    assert_eq!(cell.title, "My Notes");
    assert_eq!(cell.url(), "/");
}

#[test]
fn from_file_takes_any_digit_id() {
    let cell = Cell::from_file("42-short.md", "# Short\n").unwrap();
    assert_eq!(cell.id, "42");
    assert_eq!(cell.slug, "short");
    assert_eq!(cell.date, "");
    let long = Cell::from_file("202605310123-x.md", "# Long\n").unwrap();
    assert_eq!(long.id, "202605310123");
    assert_eq!(long.date, "20260531");
}

#[test]
fn from_file_refuses_other_names() {
    let content = "# Title\n";
    assert!(Cell::from_file("notes.md", content).is_none());
    assert!(Cell::from_file("2026053101-Atomic.md", content).is_none());
    assert!(Cell::from_file("2026053101-.md", content).is_none());
    assert!(Cell::from_file("2026053101--a.md", content).is_none());
    assert!(Cell::from_file("-a.md", content).is_none());
    assert!(Cell::from_file("2026053101-a.txt", content).is_none());
    assert!(Cell::from_file("2026053101-a.b.md", content).is_none());
    assert!(Cell::from_file("2026053101-a-.md", content).is_some());
}

#[test]
fn from_file_refuses_a_content_without_title() {
    assert!(Cell::from_file("2026053101-a.md", "no heading here\n").is_none());
    assert!(Cell::from_file("index.md", "## only a second level\n").is_none());
    assert!(Cell::from_file("2026053101-a.md", "# \n").is_none());
}

#[test]
fn title_is_the_first_level_one_heading() {
    assert_eq!(extract_title("intro\n\n# First `code` title\n\n# Second\n"), Some("First code title".to_string()));
    assert_eq!(extract_title("# *Emphasis* here\n"), Some("Emphasis here".to_string()));
    assert_eq!(extract_title("Setext\n======\n"), Some("Setext".to_string()));
    assert_eq!(extract_title("nothing"), None);
}

#[test]
fn outlinks_are_ids_in_double_brackets() {
    let content = "See [[2026053101]] and [[2026053102|that note]], not [[abc]] or [[12|]] or [12].";
    assert_eq!(extract_outlinks(content), vec!["2026053101".to_string(), "2026053102".to_string()]);
    assert_eq!(extract_outlinks("[[[1]]]"), vec!["1".to_string()]);
    assert_eq!(extract_outlinks("[[1]"), Vec::<String>::new());
    assert_eq!(extract_outlinks("[[1|a]b]]"), Vec::<String>::new());
    assert_eq!(extract_outlinks("[[7]][[8]]"), vec!["7".to_string(), "8".to_string()]);
}

#[test]
fn links_never_span_a_line_break() {
    assert_eq!(extract_outlinks("[[1|a\nb]]"), Vec::<String>::new());
    assert_eq!(extract_outlinks("[[1\n]]"), Vec::<String>::new());
    let a = "see [[1|one]] and [[2";
    let b = "|x]] then [[3]]";
    let joined = format!("{}\n{}", a, b);
    let mut both = extract_outlinks(a);
    both.extend(extract_outlinks(b));
    assert_eq!(extract_outlinks(&joined), both);
    assert_eq!(both, vec!["1".to_string(), "3".to_string()]);
}

#[test]
fn tags_are_lower_case_and_listed_once() {
    let content = "# T\n\nA #Zettel note, #zettel again and #learning.\n(#paren) x#no\n";
    assert_eq!(
        extract_tags(content),
        vec!["zettel".to_string(), "learning".to_string(), "paren".to_string()]
    );
}

#[test]
fn tags_are_not_taken_from_code_or_urls() {
    let content = "# T\n\n`#incode` and https://example.com/a.#frag and #real\n\n```\n#inblock\n```\n";
    assert_eq!(extract_tags(content), vec!["real".to_string()]);
}

#[test]
fn tags_need_a_letter_first() {
    assert_eq!(extract_tags("# T\n\n#1abc #_x #a_b-c9\n"), vec!["a_b-c9".to_string()]);
}

#[test]
fn plain_text_joins_words_with_single_spaces() {
    assert_eq!(
        extract_plain_text("# Title\n\nSome  *words*\nhere `code`.\n"),
        "Title Some words here code ."
    );
    assert_eq!(extract_plain_text(""), "");
}

#[test]
fn dates_are_written_with_hyphens() {
    assert_eq!(format_date("20260531"), "2026-05-31");
    assert_eq!(format_date(""), "");
    assert_eq!(format_date("123"), "123");
}
