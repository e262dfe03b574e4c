use bms_score_manager::json::{json_as_array, json_as_str, json_get_exec, to_raw_json, JsonValue};
use bms_score_manager::tables::classify::{classify, pattern_name, TablePattern};
use bms_score_manager::tables::fetch::{
    check_json_response, extract_meta_bmstable, fetched_table, resolve_data_url,
    resolve_header_url, sha256_hex, validate_http_url, FetchAction, FetchError, FetchStage,
    TableFetch,
};
use bms_score_manager::tables::upsert::{imported_result, parse_by_pattern, skip_by_hash, skipped_result};
use bms_score_manager::tables::{lower_md5, parse_a, parse_b, parse_c, parse_d, string_field};

fn to_model(v: &serde_json::Value) -> JsonValue {
    match v {
        serde_json::Value::Null => JsonValue::Null,
        serde_json::Value::Bool(b) => JsonValue::Bool(*b),
        serde_json::Value::Number(n) => JsonValue::Number(n.to_string()),
        serde_json::Value::String(s) => JsonValue::Str(s.clone()),
        serde_json::Value::Array(a) => JsonValue::Array(a.iter().map(to_model).collect()),
        serde_json::Value::Object(m) => {
            JsonValue::Object(m.iter().map(|(k, v)| (k.clone(), to_model(v))).collect())
        }
    }
}

fn parsed(text: &str) -> (serde_json::Value, JsonValue) {
    let v: serde_json::Value = serde_json::from_str(text).unwrap();
    let m = to_model(&v);
    (v, m)
}

#[test]
fn raw_json_matches_serde_json() {
    let texts = [
        r#"{"md5":"ABC","level":"12+","n":1.5,"neg":-3,"ok":true,"none":null}"#,
        r#"[1,[2,[]],{},"x"]"#,
        "\"quote\\\" back\\\\ slash/ tab\\t nl\\n cr\\r bs\\b ff\\f ctl\\u0001\\u001f del\\u007f é ✓\"",
        r#"{"z":{"b":[{"a":"日本語"}]},"a":""}"#,
    ];
    for t in texts {
        let (v, m) = parsed(t);
        assert_eq!(to_raw_json(&m), serde_json::to_string(&v).unwrap());
    }
}

#[test]
fn json_lookups() {
    let (_, m) = parsed(r#"{"a":"x","b":[1,2],"c":5}"#);
    assert_eq!(json_as_str(json_get_exec(&m, "a").unwrap()).map(|s| s.as_str()), Some("x"));
    assert_eq!(json_as_array(json_get_exec(&m, "b").unwrap()).map(|a| a.len()), Some(2));
    assert!(json_as_str(json_get_exec(&m, "c").unwrap()).is_none());
    assert!(json_get_exec(&m, "missing").is_none());
    assert!(json_get_exec(&JsonValue::Null, "a").is_none());
}

#[test]
fn string_field_and_md5() {
    let (_, m) = parsed(r#"{"title":"  T  ","blank":"  ","num":3,"md5":" ABCdef0 "}"#);
    assert_eq!(string_field(&m, "title"), Some("T".to_string()));
    assert_eq!(string_field(&m, "blank"), None);
    assert_eq!(string_field(&m, "num"), None);
    assert_eq!(string_field(&m, "nope"), None);
    assert_eq!(lower_md5(&m), Some("abcdef0".to_string()));
    let (_, e) = parsed(r#"{"md5":"   "}"#);
    assert_eq!(lower_md5(&e), None);
}

#[test]
fn classify_layouts() {
    let (_, plain) = parsed(r#"{"name":"t","data_url":"d.json"}"#);
    let (_, course) = parsed(r#"{"name":"t","course":[]}"#);
    let (_, grade) = parsed(r#"{"course":[],"grade":[]}"#);
    let (_, modeh) = parsed(r#"{"mode":"beat-7k"}"#);
    let (_, arr) = parsed("[]");
    let (_, obj) = parsed("{}");
    let u = "https://example.com/table/data.json";
    assert_eq!(classify(&plain, &arr, u, u), TablePattern::A);
    assert_eq!(classify(&plain, &obj, u, u), TablePattern::D);
    assert_eq!(classify(&course, &arr, u, u), TablePattern::B);
    assert_eq!(classify(&grade, &arr, u, u), TablePattern::C);
    assert_eq!(classify(&modeh, &arr, u, u), TablePattern::C);
    assert_eq!(classify(&course, &arr, "https://script.google.com/macros/s/x/exec", u), TablePattern::D);
    assert_eq!(classify(&course, &arr, "https://example.com/api/v1", "https://example.com/d"), TablePattern::D);
    assert_eq!(classify(&course, &arr, u, "https://example.com/script.json"), TablePattern::D);
    assert_eq!(pattern_name(TablePattern::A), "A");
    assert_eq!(pattern_name(TablePattern::D), "D");
}

#[test]
fn parse_b_reads_entries_and_courses() {
    let (_, header) = parsed(
        r#"{"name":" Table ","symbol":"★","level_order":["1","2"],
            "course":[{"name":"C1","md5":["AA"," ",3,"bb "],"charts":[{"md5":"CC","title":"t"},{"x":1}],
                       "constraint":["a",""],"trophy":[{"name":"gold"}]},
                      {"name":"C2","constraints":[]}]}"#,
    );
    let (_, data) = parsed(
        r#"[{"md5":"ABC","level":"12","title":"T","artist":"A","sha256":"S","comment":"c"},
            {"title":"no md5"},
            {"md5":"def","song_artist":"SA"}]"#,
    );
    let t = parse_b::parse(&header, &data);
    assert_eq!(t.name.as_deref(), Some("Table"));
    assert_eq!(t.symbol.as_deref(), Some("★"));
    assert_eq!(t.level_order_json.as_deref(), Some(r#"["1","2"]"#));
    assert_eq!(t.attr_json, None);
    assert_eq!(t.entries.len(), 2);
    assert_eq!(t.entries[0].md5, "abc");
    assert_eq!(t.entries[0].level_text.as_deref(), Some("12"));
    assert_eq!(t.entries[0].sha256.as_deref(), Some("S"));
    assert_eq!(t.entries[0].raw_json, r#"{"artist":"A","comment":"c","level":"12","md5":"ABC","sha256":"S","title":"T"}"#);
    assert_eq!(t.entries[1].md5, "def");
    assert_eq!(t.entries[1].artist, None);
    assert_eq!(t.groups.len(), 2);
    let g = &t.groups[0];
    assert_eq!(g.group_type, "course");
    assert_eq!(g.group_set_index, 0);
    assert_eq!(g.name.as_deref(), Some("C1"));
    let items: Vec<(&str, Option<&str>)> = g.items.iter().map(|i| (i.md5.as_str(), i.title_hint.as_deref())).collect();
    assert_eq!(items, vec![("aa", None), ("bb", None), ("cc", Some("t"))]);
    assert_eq!(g.constraints_json.as_deref(), Some(r#"["a"]"#));
    assert_eq!(g.trophies_json.as_deref(), Some(r#"[{"name":"gold"}]"#));
    assert_eq!(t.groups[1].group_set_index, 1);
    assert_eq!(t.groups[1].constraints_json.as_deref(), Some("[]"));
    assert!(t.groups[1].items.is_empty());
    for e in &t.entries {
        assert!(!e.md5.chars().any(|c| c.is_ascii_uppercase()));
    }
}

#[test]
fn parse_d_falls_back_to_song_artist() {
    let (_, header) = parsed(r#"{"name":"API","course":[{"md5":["x"]}]}"#);
    let (_, data) = parsed(
        r#"[{"md5":"A1","song_artist":"SA","charter":"ch"},{"md5":"b2","artist":"  ","song_artist":"Z"},{"md5":"c3","artist":"R","song_artist":"Q"}]"#,
    );
    let t = parse_d::parse(&header, &data);
    assert!(t.groups.is_empty());
    assert_eq!(t.entries.len(), 3);
    assert_eq!(t.entries[0].artist.as_deref(), Some("SA"));
    assert_eq!(t.entries[0].charter.as_deref(), Some("ch"));
    assert_eq!(t.entries[1].artist.as_deref(), Some("Z"));
    assert_eq!(t.entries[2].artist.as_deref(), Some("R"));
    let (_, not_array) = parsed(r#"{"md5":"x"}"#);
    assert!(parse_d::parse(&header, &not_array).entries.is_empty());
}

#[test]
fn parse_by_pattern_reads_every_layout() {
    let (_, h) = parsed(r#"{"grade":[{"name":"G","md5":["y"]}],"course":[{"name":"C"}]}"#);
    let (_, d) = parsed(r#"[{"md5":"x","song_artist":"S"}]"#);
    for p in [TablePattern::A, TablePattern::B, TablePattern::C, TablePattern::D] {
        assert_eq!(parse_by_pattern(p, &h, &d).entries.len(), 1);
    }
    assert!(parse_by_pattern(TablePattern::A, &h, &d).groups.is_empty());
    assert_eq!(parse_by_pattern(TablePattern::B, &h, &d).groups.len(), 1);
    assert_eq!(parse_by_pattern(TablePattern::C, &h, &d).groups.len(), 2);
    assert!(parse_by_pattern(TablePattern::D, &h, &d).groups.is_empty());
    assert_eq!(parse_by_pattern(TablePattern::D, &h, &d).entries[0].artist.as_deref(), Some("S"));
    assert_eq!(parse_by_pattern(TablePattern::C, &h, &d).entries[0].artist, None);
}

#[test]
fn import_skips_only_when_both_hashes_match() {
    let existing = Some((4, "h1".to_string(), "d1".to_string()));
    assert_eq!(skip_by_hash(&existing, "h1", "d1"), Some(4));
    assert_eq!(skip_by_hash(&existing, "h1", "d2"), None);
    assert_eq!(skip_by_hash(&existing, "h2", "d1"), None);
    assert_eq!(skip_by_hash(&None, "h1", "d1"), None);
}

#[test]
fn import_results() {
    let s = skipped_result(1, 2, TablePattern::B);
    assert_eq!((s.source_id, s.table_id, s.pattern.as_str(), s.entry_count, s.group_count, s.skipped_by_hash), (1, 2, "B", 0, 0, true));
    let (_, h) = parsed(r#"{"course":[{"md5":["a"]}]}"#);
    let (_, d) = parsed(r#"[{"md5":"x"},{"md5":"y"}]"#);
    let t = parse_by_pattern(TablePattern::B, &h, &d);
    let r = imported_result(1, 3, TablePattern::B, &t);
    assert_eq!((r.table_id, r.pattern.as_str(), r.entry_count, r.group_count, r.skipped_by_hash), (3, "B", 2, 1, false));
}

#[test]
fn url_validation() {
    assert!(validate_http_url("https://example.com/x", "input_url").is_ok());
    assert_eq!(validate_http_url("http://example.com", "input_url").ok(), Some("http://example.com/".to_string()));
    assert_eq!(validate_http_url("HTTPS://Ex.com/a/../b", "input_url").ok(), Some("https://ex.com/b".to_string()));
    match validate_http_url("ftp://example.com/x", "input_url") {
        Err(FetchError::UnsupportedScheme { field, scheme, url }) => {
            assert_eq!((field.as_str(), scheme.as_str(), url.as_str()), ("input_url", "ftp", "ftp://example.com/x"));
        }
        _ => panic!("expected an unsupported scheme"),
    }
    match validate_http_url("not a url", "data_url") {
        Err(FetchError::InvalidUrl { field, url, .. }) => {
            assert_eq!((field.as_str(), url.as_str()), ("data_url", "not a url"));
        }
        _ => panic!("expected an invalid url"),
    }
}

#[test]
fn meta_extraction() {
    let html = r#"<html><head><meta name="other" content="x"><meta name="bmstable" content="  header.json  "></head></html>"#;
    assert_eq!(extract_meta_bmstable(html).ok(), Some("header.json".to_string()));
    assert!(matches!(extract_meta_bmstable("<html></html>"), Err(FetchError::MetaNotFound)));
    assert!(matches!(
        extract_meta_bmstable(r#"<meta name="bmstable" content="   ">"#),
        Err(FetchError::MetaNotFound)
    ));
}

#[test]
fn header_and_data_urls_resolve_relative() {
    let html = r#"<meta name="bmstable" content="header.json">"#;
    assert_eq!(
        resolve_header_url("https://ex.com/table/index.html", html).ok(),
        Some("https://ex.com/table/header.json".to_string())
    );
    let abs = r#"<meta name="bmstable" content="ftp://ex.com/h.json">"#;
    assert!(matches!(resolve_header_url("https://ex.com/", abs), Err(FetchError::UnsupportedScheme { .. })));
    let (_, header) = parsed(r#"{"data_url":"../data/score.json","data":"ignored"}"#);
    assert_eq!(
        resolve_data_url("https://ex.com/table/header.json", &header).ok(),
        Some("https://ex.com/data/score.json".to_string())
    );
    let (_, header2) = parsed(r#"{"data":"d.json"}"#);
    assert_eq!(resolve_data_url("http://ex.com/h/", &header2).ok(), Some("http://ex.com/h/d.json".to_string()));
    let (_, none) = parsed(r#"{"data_url":5}"#);
    assert!(matches!(resolve_data_url("http://ex.com/", &none), Err(FetchError::MissingDataUrl)));
    assert!(matches!(resolve_data_url("not a url", &header2), Err(FetchError::Resolve { .. })));
}

#[test]
fn response_checks() {
    assert!(check_json_response("https://ex.com/d.json", 200).is_ok());
    assert!(check_json_response("https://ex.com/d.json", 299).is_ok());
    match check_json_response("https://ex.com/d.json", 404) {
        Err(FetchError::HttpStatus { status, url }) => assert_eq!((status, url.as_str()), (404, "https://ex.com/d.json")),
        _ => panic!("expected a status error"),
    }
    assert!(matches!(check_json_response("file:///x", 200), Err(FetchError::UnsupportedScheme { .. })));
}

#[test]
fn sha256_of_text() {
    assert_eq!(sha256_hex(""), "e3b0c44298fc1c149afbf4c8996fb92427ae41e4649b934ca495991b7852b855");
    assert_eq!(sha256_hex("abc"), "ba7816bf8f01cfea414140de5dae2223b00361a396177a9cb410ff61f20015ad");
    let (_, h) = parsed("{}");
    let (_, d) = parsed("[]");
    let t = fetched_table(
        "p".to_string(), "h".to_string(), "d".to_string(), "f".to_string(),
        "{}".to_string(), "[]".to_string(), h, d,
    );
    assert_eq!(t.header_hash, sha256_hex("{}"));
    assert_eq!(t.data_hash, sha256_hex("[]"));
    assert_eq!(t.data_final_url, "f");
}

#[test]
fn fetch_steps_page_header_data() {
    let (mut f, a) = TableFetch::start("https://ex.com/t/");
    match a {
        FetchAction::GetPage { url } => assert_eq!(url, "https://ex.com/t/"),
        _ => panic!("expected a page request"),
    }
    let a = f.page_loaded("https://ex.com/t/index.html", r#"<meta name="bmstable" content="head.json">"#);
    match a {
        FetchAction::GetJson { url } => assert_eq!(url, "https://ex.com/t/head.json"),
        _ => panic!("expected a header request"),
    }
    let (_, header) = parsed(r#"{"data_url":"data/score.json"}"#);
    let a = f.json_loaded("https://cdn.ex.com/h/head.json", r#"{"data_url":"data/score.json"}"#.to_string(), header);
    match a {
        FetchAction::GetJson { url } => assert_eq!(url, "https://cdn.ex.com/h/data/score.json"),
        _ => panic!("expected a data request"),
    }
    let (_, data) = parsed("[]");
    match f.json_loaded("https://cdn.ex.com/final.json", "[]".to_string(), data) {
        FetchAction::Finished(t) => {
            assert_eq!(t.page_url_resolved, "https://ex.com/t/index.html");
            assert_eq!(t.header_url, "https://cdn.ex.com/h/head.json");
            assert_eq!(t.data_url, "https://cdn.ex.com/h/data/score.json");
            assert_eq!(t.data_final_url, "https://cdn.ex.com/final.json");
            assert_eq!(t.header_raw, r#"{"data_url":"data/score.json"}"#);
            assert_eq!(t.data_hash, sha256_hex("[]"));
        }
        _ => panic!("expected the fetched table"),
    }
    assert!(matches!(f.stage, FetchStage::Done));
}

#[test]
fn fetch_steps_fail_early() {
    let (f, a) = TableFetch::start("mailto:x@ex.com");
    assert!(matches!(a, FetchAction::Failed(FetchError::UnsupportedScheme { .. })));
    assert!(matches!(f.stage, FetchStage::Done));
    let (mut f, _) = TableFetch::start("http://ex.com/");
    assert!(matches!(f.page_loaded("http://ex.com/", "<p>no meta</p>"), FetchAction::Failed(FetchError::MetaNotFound)));
    let (mut g, _) = TableFetch::start("http://ex.com/");
    let _ = g.page_loaded("http://ex.com/", r#"<meta name="bmstable" content="h.json">"#);
    let (_, header) = parsed(r#"{"name":"no data"}"#);
    assert!(matches!(g.json_loaded("http://ex.com/h.json", "{}".to_string(), header), FetchAction::Failed(FetchError::MissingDataUrl)));
    assert!(matches!(g.stage, FetchStage::Done));
}

#[test]
fn parse_a_reads_classic_tables() {
    let (_, header) = parsed(r#"{"name":"Classic","symbol":"▽","data_url":"d.json","level_order":["0","1"]}"#);
    let (_, data) = parsed(
        r#"[{"md5":" F00 ","level":"0","title":"T","artist":"A","url":"u","url_diff":"ud","comment":"c","extra":1},{"level":"1"}]"#,
    );
    let t = parse_a::parse(&header, &data);
    assert_eq!(t.name.as_deref(), Some("Classic"));
    assert_eq!(t.level_order_json.as_deref(), Some(r#"["0","1"]"#));
    assert!(t.groups.is_empty());
    assert_eq!(t.entries.len(), 1);
    let e = &t.entries[0];
    assert_eq!(e.md5, "f00");
    assert_eq!(e.level_text.as_deref(), Some("0"));
    assert_eq!(e.url_diff.as_deref(), Some("ud"));
    assert_eq!(e.comment.as_deref(), Some("c"));
    assert_eq!(
        e.raw_json,
        r#"{"artist":"A","comment":"c","extra":1,"level":"0","md5":" F00 ","title":"T","url":"u","url_diff":"ud"}"#
    );
}

#[test]
fn course_constraints_drop_empty_strings() {
    let (_, header) = parsed(
        r#"{"course":[{"name":"C1","constraint":["grade_mirror","","gauge_lr2"],"md5":["aa"]},
                      {"name":"C2","constraints":["", ""]},
                      {"name":"C3","constraint":"ln"}]}"#,
    );
    let (_, data) = parsed("[]");
    let t = parse_b::parse(&header, &data);
    assert_eq!(t.groups[0].constraints_json.as_deref(), Some(r#"["grade_mirror","gauge_lr2"]"#));
    assert_eq!(t.groups[1].constraints_json.as_deref(), Some("[]"));
    assert_eq!(t.groups[2].constraints_json.as_deref(), Some(r#""ln""#));
}

#[test]
fn parse_c_reads_grades_and_course_sets() {
    let (_, header) = parsed(
        r#"{"name":"Ext","mode":"beat-7k","tag":"T","attr":{"k":1},"level_order":["11+","12-","！","？"],
            "grade":[{"name":"初段","style":"7k","md5":["AA","bb"],"constraint":["","no_speed"]},
                     {"name":"二段","charts":[{"md5":"CC","title":"t"}]}],
            "course":[[{"name":"Set0-A","md5":["d1"]},{"name":"Set0-B"}],
                      [{"name":"Set1-A","trophy":[{"name":"gold"}]}]]}"#,
    );
    let (_, data) = parsed(r#"[{"md5":"E1","level":"11+","note":1000,"proposer":"p","artist":"A"}]"#);
    let t = parse_c::parse(&header, &data);
    assert_eq!(t.mode.as_deref(), Some("beat-7k"));
    assert_eq!(t.tag.as_deref(), Some("T"));
    assert_eq!(t.attr_json.as_deref(), Some(r#"{"k":1}"#));
    assert_eq!(t.level_order_json.as_deref(), Some(r#"["11+","12-","！","？"]"#));
    assert_eq!(t.entries.len(), 1);
    assert_eq!(t.entries[0].md5, "e1");
    assert_eq!(t.entries[0].level_text.as_deref(), Some("11+"));
    assert_eq!(t.entries[0].raw_json, r#"{"artist":"A","level":"11+","md5":"E1","note":1000,"proposer":"p"}"#);
    let summary: Vec<(&str, i64, Option<&str>, usize)> = t
        .groups
        .iter()
        .map(|g| (g.group_type.as_str(), g.group_set_index, g.name.as_deref(), g.items.len()))
        .collect();
    assert_eq!(
        summary,
        vec![
            ("grade", 0, Some("初段"), 2),
            ("grade", 0, Some("二段"), 1),
            ("course", 0, Some("Set0-A"), 1),
            ("course", 0, Some("Set0-B"), 0),
            ("course", 1, Some("Set1-A"), 0),
        ]
    );
    assert_eq!(t.groups[0].style.as_deref(), Some("7k"));
    assert_eq!(t.groups[0].items[0].md5, "aa");
    assert_eq!(t.groups[0].constraints_json.as_deref(), Some(r#"["no_speed"]"#));
    assert_eq!(t.groups[1].items[0].title_hint.as_deref(), Some("t"));
    assert_eq!(t.groups[4].trophies_json.as_deref(), Some(r#"[{"name":"gold"}]"#));
    assert_eq!(t.groups[2].raw_json, r#"{"md5":["d1"],"name":"Set0-A"}"#);
}

#[test]
fn parse_c_flat_courses_are_set_zero() {
    let (_, header) = parsed(r#"{"grade":[],"course":[{"name":"A"},{"name":"B"}]}"#);
    let (_, data) = parsed("[]");
    let t = parse_c::parse(&header, &data);
    let sets: Vec<i64> = t.groups.iter().map(|g| g.group_set_index).collect();
    assert_eq!(sets, vec![0, 0]);
}
