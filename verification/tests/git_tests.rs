use mycells::git::{
    days_to_ymd, file_diff, format_author_date, format_unix_time, history_is_full, DiffLine, GitCommit,
};

#[test]
fn days_count_from_the_epoch() {
    assert_eq!(days_to_ymd(0), (1970, 1, 1));
    assert_eq!(days_to_ymd(-1), (1969, 12, 31));
    assert_eq!(days_to_ymd(19723), (2024, 1, 1));
    assert_eq!(days_to_ymd(11016), (2000, 2, 29));
    assert_eq!(days_to_ymd(2932896), (9999, 12, 31));
    assert_eq!(days_to_ymd(-719468), (0, 3, 1));
    assert_eq!(days_to_ymd(-719469), (0, 2, 29));
}

#[test]
fn each_day_is_followed_by_the_next_date() {
    assert_eq!(days_to_ymd(58), (1970, 2, 28));
    assert_eq!(days_to_ymd(59), (1970, 3, 1));
    assert_eq!(days_to_ymd(11015), (2000, 2, 28));
    assert_eq!(days_to_ymd(11016), (2000, 2, 29));
    assert_eq!(days_to_ymd(11017), (2000, 3, 1));
    assert_eq!(days_to_ymd(-2), (1969, 12, 30));
    assert_eq!(days_to_ymd(364), (1970, 12, 31));
    assert_eq!(days_to_ymd(365), (1971, 1, 1));
    let mut prev = days_to_ymd(-800);
    for n in -799..800 {
        let d = days_to_ymd(n);
        assert!(d > prev);
        prev = d;
    }
}

#[test]
fn unix_times_are_written_in_iso_form() {
    assert_eq!(format_unix_time(0), "1970-01-01 00:00:00");
    assert_eq!(format_unix_time(1717200000), "2024-06-01 00:00:00");
    assert_eq!(format_unix_time(1717245296), "2024-06-01 12:34:56");
    assert_eq!(format_unix_time(-86400), "1969-12-31 00:00:00");
}

#[test]
fn times_before_the_epoch_count_back_from_midnight() {
    assert_eq!(format_unix_time(-1), "1969-12-31 23:59:59");
    assert_eq!(format_unix_time(-3661), "1969-12-31 22:58:59");
    assert_eq!(format_unix_time(-86401), "1969-12-30 23:59:59");
}

#[test]
fn author_dates_show_the_local_time_and_the_offset() {
    assert_eq!(format_author_date(1780196400, 540), "2026-05-31 12:00:00 +0900");
    assert_eq!(format_author_date(0, -330), "1969-12-31 18:30:00 -0530");
    assert_eq!(format_author_date(0, 0), "1970-01-01 00:00:00 +0000");
    assert_eq!(format_author_date(1780225200, 0), "2026-05-31 11:00:00 +0000");
}

fn line(origin: char, in_file: bool, content: &str) -> DiffLine {
    DiffLine { origin, in_file, content: Some(content.to_string()) }
}

#[test]
fn diffs_keep_the_lines_of_the_file() {
    let lines = vec![
        line('F', true, "diff --git a/x.md b/x.md\n"),
        line('H', true, "@@ -1 +1 @@\n"),
        line('-', true, "old\n"),
        line('+', true, "new\n"),
        line(' ', true, "same\n"),
        line('+', false, "other file\n"),
        DiffLine { origin: '+', in_file: true, content: None },
    ];
    assert_eq!(
        file_diff(true, &lines),
        Some("diff --git a/x.md b/x.md\n@@ -1 +1 @@\n-old\n+new\n same\n+".to_string())
    );
}

#[test]
fn diffs_of_untouched_or_empty_files_are_none() {
    let lines = vec![line('+', true, "new\n")];
    assert_eq!(file_diff(false, &lines), None);
    assert_eq!(file_diff(true, &vec![]), None);
    assert_eq!(file_diff(true, &vec![line('H', true, "  \n\t")]), None);
}

#[test]
fn long_diffs_are_cut_at_8192_bytes() {
    let big = "a".repeat(9000);
    let d = file_diff(true, &vec![line('H', true, &big)]).unwrap();
    assert_eq!(d, format!("{}…(truncated)", "a".repeat(8192)));
    // A character is never split: 8191 bytes of ASCII, then a two-byte one.
    let mixed = format!("{}é{}", "b".repeat(8191), "c".repeat(10));
    let d = file_diff(true, &vec![line('H', true, &mixed)]).unwrap();
    assert_eq!(d, format!("{}…(truncated)", "b".repeat(8191)));
    let exact = "d".repeat(8192);
    assert_eq!(file_diff(true, &vec![line('H', true, &exact)]), Some(exact.clone()));
}

#[test]
fn histories_hold_thirty_commits() {
    let c = GitCommit {
        hash: "h".to_string(),
        author: "a".to_string(),
        author_date: "d".to_string(),
        message: "m".to_string(),
        diff: "x".to_string(),
    };
    let mut v = Vec::new();
    for _ in 0..29 {
        v.push(c.clone());
    }
    assert!(!history_is_full(&v));
    v.push(c.clone());
    assert!(history_is_full(&v));
}
