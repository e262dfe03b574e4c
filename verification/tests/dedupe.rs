use bms_score_manager::dedupe::{
    detect_duplicates, preview_merge, ChartLocation, DedupePreviewRequest, DuplicateChart,
    MergeState, MergeStep,
};

fn chart(id: i64, root: i64, pkg: &str, rel: &str) -> DuplicateChart {
    DuplicateChart {
        chart_id: id,
        root_id: root,
        root_path: format!("/r{root}"),
        package_path: pkg.to_string(),
        rel_path: rel.to_string(),
        full_path: String::new(),
        file_md5: String::new(),
        title: Some(format!("t{id}")),
        artist: None,
    }
}

fn loc(root: i64, pkg: &str, rel: &str) -> ChartLocation {
    ChartLocation {
        root_id: root,
        root_path: format!("/r{root}"),
        package_path: pkg.to_string(),
        rel_path: rel.to_string(),
    }
}

#[test]
fn groups_only_shared_md5s() {
    let rows = vec![
        ("aaa".to_string(), chart(1, 1, "p1", "x.bms")),
        ("aaa".to_string(), chart(2, 2, "p2", "y.bms")),
        ("bbb".to_string(), chart(3, 1, "p3", "z.bms")),
        ("ccc".to_string(), chart(4, 1, "p4", "w.bms")),
        ("ccc".to_string(), chart(5, 1, "p5", "v.bms")),
        ("ccc".to_string(), chart(6, 1, "p6", "u.bms")),
    ];
    let mut groups = detect_duplicates(&rows);
    assert!(groups.iter().all(|g| g.kind == "file_md5"));
    groups.sort_by(|a, b| a.key.cmp(&b.key));
    assert_eq!(groups.len(), 2);
    assert_eq!(groups[0].key, "aaa");
    assert_eq!(groups[0].kind, "file_md5");
    let ids: Vec<i64> = groups[0].charts.iter().map(|c| c.chart_id).collect();
    assert_eq!(ids, vec![1, 2]);
    assert_eq!(groups[0].charts[1].full_path, "/r2/p2/y.bms");
    assert_eq!(groups[0].charts[1].file_md5, "aaa");
    assert_eq!(groups[0].charts[0].title.as_deref(), Some("t1"));
    assert_eq!(groups[1].key, "ccc");
    assert_eq!(groups[1].charts.len(), 3);
}

#[test]
fn no_duplicates_no_groups() {
    let rows = vec![("a".to_string(), chart(1, 1, "p", "x")), ("b".to_string(), chart(2, 1, "p", "y"))];
    assert!(detect_duplicates(&rows).is_empty());
    assert!(detect_duplicates(&Vec::new()).is_empty());
}

#[test]
fn preview_reports_cross_root_and_paths() {
    let req = DedupePreviewRequest { keep_chart_id: 9, remove_chart_ids: vec![1, 2] };
    let targets = vec![loc(1, "p", "a.bms"), loc(2, "q", "b.bms")];
    let p = preview_merge(&req, 1, &targets);
    assert_eq!(p.keep_chart_id, 9);
    assert_eq!(p.remove_count, 2);
    assert!(p.cross_root);
    assert_eq!(p.targets, vec!["/r1/p/a.bms".to_string(), "/r2/q/b.bms".to_string()]);

    let same = preview_merge(&req, 2, &vec![loc(2, "p", "a"), loc(2, "q", "b")]);
    assert!(!same.cross_root);
}

#[test]
fn merge_refuses_other_root_by_default() {
    let mut st = MergeState::new(1, false);
    match st.plan(&loc(1, "p", "a.bms")) {
        MergeStep::Trash { root_path, package_path, rel_path } => {
            assert_eq!((root_path.as_str(), package_path.as_str(), rel_path.as_str()), ("/r1", "p", "a.bms"));
        }
        MergeStep::Refuse { .. } => panic!("same-root target refused"),
    }
    st.record_removed();
    match st.plan(&loc(2, "q", "b.bms")) {
        MergeStep::Refuse { keep_root, target_root } => {
            assert_eq!((keep_root, target_root), (1, 2));
        }
        MergeStep::Trash { .. } => panic!("cross-root target accepted"),
    }
    let r = st.finish();
    assert_eq!(r.removed, 1);
    assert_eq!(r.rescanned_root_ids, vec![1]);
}

#[test]
fn merge_with_cross_root_allowed_rescans_each_root_once() {
    let mut st = MergeState::new(1, true);
    for t in [loc(2, "a", "x"), loc(1, "b", "y"), loc(2, "c", "z"), loc(3, "d", "w")] {
        match st.plan(&t) {
            MergeStep::Trash { .. } => st.record_removed(),
            MergeStep::Refuse { .. } => panic!("refused although allowed"),
        }
    }
    let r = st.finish();
    assert_eq!(r.removed, 4);
    assert_eq!(r.rescanned_root_ids, vec![1, 2, 3]);
}

#[test]
fn preview_predicts_refusal() {
    let req = DedupePreviewRequest { keep_chart_id: 1, remove_chart_ids: vec![2, 3] };
    let targets = vec![loc(1, "p", "a"), loc(5, "q", "b")];
    let preview = preview_merge(&req, 1, &targets);
    let mut st = MergeState::new(1, false);
    let refused = targets.iter().any(|t| matches!(st.plan(t), MergeStep::Refuse { .. }));
    assert_eq!(refused, preview.cross_root);
}

#[test]
fn same_song_groups_by_normalised_title_and_artist() {
    let mut a = chart(1, 1, "p1", "a.bms");
    a.title = Some("Song [NORMAL]".to_string());
    a.artist = Some("Composer / obj: x".to_string());
    let mut b = chart(2, 2, "p2", "b.bms");
    b.title = Some("song (HYPER)".to_string());
    b.artist = Some("COMPOSER".to_string());
    let mut c = chart(3, 1, "p3", "c.bms");
    c.title = Some("Other".to_string());
    c.artist = Some("Composer".to_string());
    let mut d = chart(4, 1, "p4", "d.bms");
    d.title = Some("Song".to_string());
    d.artist = None;
    let rows = vec![
        ("m1".to_string(), a),
        ("m2".to_string(), b),
        ("m3".to_string(), c),
        ("m1".to_string(), d),
    ];
    let groups = detect_duplicates(&rows);
    let md5: Vec<&str> = groups.iter().filter(|g| g.kind == "file_md5").map(|g| g.key.as_str()).collect();
    assert_eq!(md5, vec!["m1"]);
    let songs: Vec<_> = groups.iter().filter(|g| g.kind == "song_key").collect();
    assert_eq!(songs.len(), 1);
    assert_eq!(songs[0].key, "song|composer");
    let ids: Vec<i64> = songs[0].charts.iter().map(|c| c.chart_id).collect();
    assert_eq!(ids, vec![1, 2]);
    assert_eq!(songs[0].charts[1].file_md5, "m2");
    assert_eq!(songs[0].charts[1].full_path, "/r2/p2/b.bms");
    assert_eq!(groups.iter().filter(|g| g.kind != "file_md5" && g.kind != "song_key").count(), 0);
}
