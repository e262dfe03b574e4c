use bms_score_manager::song_norm::{
    estimate_package_meta, estimate_package_meta_checked, normalize_artist,
    normalize_artist_checked, normalize_song_key, normalize_song_key_checked, normalize_title,
};

fn row(t: Option<&str>, a: Option<&str>) -> (Option<String>, Option<String>) {
    (t.map(|s| s.to_string()), a.map(|s| s.to_string()))
}

#[test]
fn title_drops_trailing_brackets() {
    assert_eq!(normalize_title("  Song Title [SPH]  "), "songtitle");
    assert_eq!(normalize_title("Song (7KEYS) [HARD]"), "song7keys");
    assert_eq!(normalize_title("Song [HARD] (7KEYS)"), "song");
    assert_eq!(normalize_title("曲名（ANOTHER）"), "曲名");
    assert_eq!(normalize_title("Name <EX>"), "name");
}

#[test]
fn title_drops_trailing_delimited_blocks() {
    assert_eq!(normalize_title("Abc -Remix-"), "abc");
    assert_eq!(normalize_title("Abc ～another～"), "abc");
    assert_eq!(normalize_title("Abc \"x\""), "abc");
    // A lone trailing delimiter is kept as part of the text, then filtered out.
    assert_eq!(normalize_title("Abc-"), "abc");
}

#[test]
fn title_cuts_at_double_space() {
    assert_eq!(normalize_title("Title  extra words"), "title");
}

#[test]
fn title_keeps_only_alphanumerics() {
    assert_eq!(normalize_title("Hello, World! 2"), "helloworld2");
    assert_eq!(normalize_title(""), "");
    assert_eq!(normalize_title("   "), "");
    for c in normalize_title("Ä-ß λ_9 !?").chars() {
        assert!(c.is_alphanumeric());
    }
}

#[test]
fn artist_cuts_at_markers() {
    assert_eq!(normalize_artist("Artist obj:someone"), "artist");
    assert_eq!(normalize_artist("Artist OBJ. someone"), "artist");
    assert_eq!(normalize_artist("Artist note: x"), "artist");
    assert_eq!(normalize_artist("Foo 差分:bar"), "foo");
}

#[test]
fn artist_takes_first_segment() {
    assert_eq!(normalize_artist("A / B"), "a");
    assert_eq!(normalize_artist(" / B feat. C"), "bfeatc");
    assert_eq!(normalize_artist(""), "");
}

#[test]
fn artist_checked_agrees() {
    assert_eq!(normalize_artist_checked("Artist obj:x"), Some("artist".to_string()));
    assert_eq!(normalize_artist_checked("x / y"), Some("x".to_string()));
}

#[test]
fn song_key_joins_title_and_artist() {
    assert_eq!(
        normalize_song_key(Some("Song [A]"), Some("Artist / x")),
        Some("song|artist".to_string())
    );
    assert_eq!(normalize_song_key(Some(""), Some("x")), None);
    assert_eq!(normalize_song_key(Some("x"), None), None);
    assert_eq!(normalize_song_key(None, None), None);
    assert_eq!(
        normalize_song_key_checked(Some("T"), Some("A")),
        Some(Some("t|a".to_string()))
    );
}

#[test]
fn package_meta_from_shared_prefix() {
    let rows = vec![
        row(Some("Song [7KEYS]"), Some("Art")),
        row(Some("Song [14KEYS]"), Some("Art")),
        row(Some("Song [HARD]"), Some("Art obj:x")),
    ];
    assert_eq!(
        estimate_package_meta(&rows),
        (Some("song".to_string()), Some("art".to_string()))
    );
}

#[test]
fn package_meta_allows_one_outlier() {
    let rows = vec![
        row(Some("Great Song [N]"), Some("Composer")),
        row(Some("Great Song [H]"), Some("Composer")),
        row(Some("Other"), Some("Composer")),
    ];
    assert_eq!(
        estimate_package_meta(&rows),
        (Some("greatsong".to_string()), Some("composer".to_string()))
    );
}

#[test]
fn package_meta_two_values_share_nothing() {
    let rows = vec![row(Some("Alpha"), Some("X")), row(Some("Beta"), Some("Y"))];
    assert_eq!(estimate_package_meta(&rows), (None, None));
}

#[test]
fn package_meta_skips_blank_fields() {
    let rows = vec![
        row(None, Some("   ")),
        row(Some("  Only  "), None),
        row(Some(""), Some("Solo")),
    ];
    assert_eq!(
        estimate_package_meta(&rows),
        (Some("only".to_string()), Some("solo".to_string()))
    );
    assert_eq!(estimate_package_meta(&[]), (None, None));
}

#[test]
fn package_meta_checked_agrees() {
    let rows = vec![row(Some("Song"), Some("Art"))];
    assert_eq!(
        estimate_package_meta_checked(&rows),
        Some((Some("song".to_string()), Some("art".to_string())))
    );
}

#[test]
fn package_meta_ignores_row_order_and_blank_rows() {
    let rows = vec![
        row(Some("Great Song [N]"), Some("Composer")),
        row(Some("Great Song [H]"), Some("Composer obj: a")),
        row(Some("Other"), Some("Composer / b")),
    ];
    let expected = estimate_package_meta(&rows);
    let mut reordered = vec![rows[2].clone(), rows[0].clone(), rows[1].clone()];
    assert_eq!(estimate_package_meta(&reordered), expected);
    reordered.push(row(None, Some("  ")));
    reordered.push(row(Some("\t"), None));
    assert_eq!(estimate_package_meta(&reordered), expected);
}

#[test]
fn normalising_a_title_twice_changes_nothing() {
    for s in ["  Song Title [SPH]  ", "Abc -Remix-", "Title  extra", "A (B) <C>", "x\"y\"", "42 Go!", ""] {
        let once = normalize_title(s);
        assert_eq!(normalize_title(&once), once);
        assert!(once.chars().all(|c| c.is_ascii_lowercase() || c.is_ascii_digit()));
    }
    let once = normalize_title("Ärger ～Ω～");
    assert_eq!(normalize_title(&once), once);
}

#[test]
fn only_the_first_credit_counts() {
    for (s, t) in [("  Composer ", " feat. Singer obj: x"), ("DJ Foo", "note: bar/baz"), ("A-B_C", "")] {
        let joined = format!("{s}/{t}");
        let expected: String = s.trim().to_lowercase().chars().filter(|c| c.is_alphanumeric()).collect();
        assert_eq!(normalize_artist(&joined), normalize_artist(s));
        assert_eq!(normalize_artist(s), expected);
    }
}
