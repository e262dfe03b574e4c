use bms_score_manager::scan::{
    group_package_charts, is_chart_extension, lower_extension, order_packages, package_song, package_song_checked,
    relative_text, scan_dir, sort_by_key, ChartFile, DirChild, PackageRow,
};

fn file(name: &str, size: i64, mtime: i64) -> DirChild {
    DirChild { name: name.to_string(), raw_name: name.as_bytes().to_vec(), is_file: true, size, mtime }
}

fn dir(name: &str) -> DirChild {
    DirChild { name: name.to_string(), raw_name: name.as_bytes().to_vec(), is_file: false, size: 4096, mtime: 0 }
}

fn chars(s: &str) -> Vec<char> {
    s.chars().collect()
}

#[test]
fn relative_text_uses_slashes_and_dot() {
    assert_eq!(relative_text(""), ".");
    assert_eq!(relative_text("a\\b\\c.bms"), "a/b/c.bms");
    assert_eq!(relative_text("pkg/x"), "pkg/x");
}

#[test]
fn extension_is_lowercased_path_extension() {
    assert_eq!(lower_extension("song.BMS"), "bms");
    assert_eq!(lower_extension("a.b.Bme"), "bme");
    assert_eq!(lower_extension(".bms"), "");
    assert_eq!(lower_extension("noext"), "");
    assert_eq!(lower_extension("trailing."), "");
}

#[test]
fn chart_extensions() {
    for e in ["bms", "bme", "bml", "pms"] {
        assert!(is_chart_extension(e));
    }
    for e in ["BMS", "wav", "ogg", "", "bmson"] {
        assert!(!is_chart_extension(e));
    }
}

#[test]
fn chart_extension_ignores_case_of_the_name() {
    for (a, b) in [("X.BmS", "x.bms"), ("Y.PMS", "y.pms"), ("Z.WAV", "z.wav")] {
        assert_eq!(
            is_chart_extension(&lower_extension(a)),
            is_chart_extension(&lower_extension(b))
        );
    }
}

#[test]
fn directory_without_charts_is_no_package() {
    let children = vec![file("a.wav", 10, 1), dir("sub"), file("readme.txt", 5, 2)];
    assert!(scan_dir("pkg", 7, &children).is_none());
    assert!(scan_dir("empty", 7, &Vec::new()).is_none());
    // A subdirectory named like a chart is no chart.
    assert!(scan_dir("d", 7, &vec![dir("x.bms")]).is_none());
}

#[test]
fn package_counts_all_files_and_sorts_charts() {
    let children = vec![
        file("b_hard.bme", 100, 11),
        file("bgm.wav", 1000, 12),
        dir("images"),
        file("A_normal.BMS", 50, 13),
        file("a_another.pms", 70, 14),
    ];
    let (pkg, charts) = scan_dir("songs\\pkg", 99, &children).unwrap();
    assert_eq!(pkg.rel_path, "songs\\pkg");
    assert_eq!(pkg.mtime, 99);
    assert_eq!(pkg.file_count, 4);
    assert_eq!(pkg.total_size, 1220);
    assert_eq!(pkg.chart_count, 3);
    let names: Vec<&str> = charts.iter().map(|c| c.file_name.as_str()).collect();
    assert_eq!(names, vec!["A_normal.BMS", "a_another.pms", "b_hard.bme"]);
    assert_eq!(charts[0].ext, "bms");
    assert_eq!(charts[0].rel_path, "A_normal.BMS");
    assert_eq!(charts[0].package_rel, "songs\\pkg");
    assert_eq!(charts[0].file_size, 50);
    assert_eq!(charts[0].mtime, 13);
    assert_eq!(charts[2].ext, "bme");
}

#[test]
fn chart_rel_path_turns_backslashes() {
    let children = vec![file("odd\\name.bms", 1, 1)];
    let (_, charts) = scan_dir(".", 0, &children).unwrap();
    assert_eq!(charts[0].rel_path, "odd/name.bms");
    assert_eq!(charts[0].file_name, "odd\\name.bms");
}

fn package(rel: &str) -> (PackageRow, Vec<ChartFile>) {
    (
        PackageRow { rel_path: rel.to_string(), mtime: 0, total_size: 0, file_count: 1, chart_count: 0 },
        Vec::new(),
    )
}

#[test]
fn packages_are_ordered_by_path() {
    let found = vec![package("b"), package("a/z"), package("a-c"), package("."), package("a")];
    let ordered = order_packages(found);
    let paths: Vec<&str> = ordered.iter().map(|p| p.0.rel_path.as_str()).collect();
    assert_eq!(paths, vec![".", "a", "a-c", "a/z", "b"]);
}

#[test]
fn sort_by_key_orders_by_code_point_and_keeps_items() {
    let items = vec![
        (chars("beta"), 1),
        (chars("Alpha"), 2),
        (chars("alpha"), 3),
        (chars("é"), 4),
        (chars(""), 5),
    ];
    let sorted = sort_by_key(items);
    let values: Vec<i32> = sorted.iter().map(|p| p.1).collect();
    assert_eq!(values, vec![5, 2, 3, 1, 4]);
    assert!(sort_by_key::<u8>(Vec::new()).is_empty());
}

fn song_row(t: Option<&str>, a: Option<&str>) -> (Option<String>, Option<String>) {
    (t.map(|s| s.to_string()), a.map(|s| s.to_string()))
}

#[test]
fn package_song_from_estimate() {
    let rows = vec![song_row(Some("Song [N]"), Some("Art")), song_row(Some("Song [H]"), Some("Art"))];
    assert_eq!(package_song(&rows), Some(("song".to_string(), "art".to_string())));
}

#[test]
fn package_song_falls_back_to_first_named_chart() {
    // Two titles share no prefix, so the estimate names no title.
    let rows = vec![
        song_row(Some("!!!"), Some("Art")),
        song_row(Some("Zeta"), Some("Someone")),
        song_row(Some("Omega"), Some("Other")),
    ];
    assert_eq!(package_song(&rows), Some(("zeta".to_string(), "someone".to_string())));
}

#[test]
fn package_song_none_without_named_chart() {
    let rows = vec![song_row(None, Some("A")), song_row(Some("!!"), None)];
    assert_eq!(package_song(&rows), None);
    // Split over two charts, a title and an artist still make a song.
    let split = vec![song_row(None, Some("A")), song_row(Some("T"), None)];
    assert_eq!(package_song(&split), Some(("t".to_string(), "a".to_string())));
    assert_eq!(package_song(&[]), None);
    assert_eq!(package_song_checked(&rows), Some(None));
}

#[test]
fn charts_grouped_by_package() {
    let s = |x: &str| Some(x.to_string());
    let rows = vec![
        (1, Some(10), s("a"), s("x")),
        (2, None, None, None),
        (3, Some(30), s("c"), None),
        (1, Some(11), None, s("y")),
        (3, Some(31), s("d"), s("z")),
    ];
    let groups = group_package_charts(&rows);
    assert_eq!(groups.len(), 2);
    assert_eq!(groups[0].0, 1);
    assert_eq!(groups[0].1, vec![(10, s("a"), s("x")), (11, None, s("y"))]);
    assert_eq!(groups[1].0, 3);
    assert_eq!(groups[1].1, vec![(30, s("c"), None), (31, s("d"), s("z"))]);
    assert!(group_package_charts(&Vec::new()).is_empty());
}

#[test]
fn charts_are_ordered_by_raw_name_bytes() {
    // A name that is not UTF-8 reads as U+FFFD, which orders before U+10000 as a
    // character, but its first byte 0xF8 orders after 0xF0.
    let odd = DirChild {
        name: "\u{fffd}x.bms".to_string(),
        raw_name: vec![0xf8, b'x', b'.', b'b', b'm', b's'],
        is_file: true,
        size: 1,
        mtime: 1,
    };
    let children = vec![odd, file("\u{10000}.bms", 2, 2), file("a.bms", 3, 3)];
    let (_, charts) = scan_dir("p", 0, &children).unwrap();
    let sizes: Vec<i64> = charts.iter().map(|c| c.file_size).collect();
    assert_eq!(sizes, vec![3, 2, 1]);
    assert_eq!(charts[2].file_name, "\u{fffd}x.bms");
    assert_eq!(charts[2].raw_name, vec![0xf8, b'x', b'.', b'b', b'm', b's']);
}
