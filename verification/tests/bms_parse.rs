use bms_score_manager::bms_parse::parse_chart;

fn md5_hex(bytes: &[u8]) -> String {
    format!("{:x}", md5::compute(bytes))
}

#[test]
fn header_fields_last_value_wins() {
    let src = b"#TITLE Foo\r\n#ARTIST Bar\n  #GENRE:Trance  \nnot a header\n#TITLE Final\n#PLAYLEVEL 12\n#BPM\t150\n#TOTAL 300\n#PLAYER 1\n#SUBTITLE [ANOTHER]\n#SUBARTIST obj: me\n";
    let p = parse_chart(src);
    assert_eq!(p.title.as_deref(), Some("Final"));
    assert_eq!(p.artist.as_deref(), Some("Bar"));
    assert_eq!(p.genre.as_deref(), Some("Trance"));
    assert_eq!(p.playlevel.as_deref(), Some("12"));
    assert_eq!(p.bpm.as_deref(), Some("150"));
    assert_eq!(p.total.as_deref(), Some("300"));
    assert_eq!(p.player.as_deref(), Some("1"));
    assert_eq!(p.subtitle.as_deref(), Some("[ANOTHER]"));
    assert_eq!(p.subartist.as_deref(), Some("obj: me"));
}

#[test]
fn empty_value_clears_field() {
    let p = parse_chart(b"#TITLE Foo\n#TITLE :\n#TITLE   \n#ARTIST x\n");
    assert_eq!(p.title, None);
    assert_eq!(p.artist.as_deref(), Some("x"));
}

#[test]
fn key_needs_a_separator() {
    // "#TITLE" alone has no separator after the key and is not a field.
    let p = parse_chart(b"#TITLE\n#title lower\n");
    assert_eq!(p.title.as_deref(), Some("lower"));
}

#[test]
fn wav_and_bmp_lists_are_sorted_sets() {
    let p = parse_chart(b"#WAV02 b.wav\n#WAV01 a.wav\n#wav03 a.wav\n#WAVZZ \n#BMP01 x.bmp\n#BMPAA  y.bmp\n");
    assert_eq!(p.wav_list, vec!["a.wav".to_string(), "b.wav".to_string()]);
    assert_eq!(p.bmp_list, vec!["x.bmp".to_string(), "y.bmp".to_string()]);
}

#[test]
fn file_md5_is_md5_of_the_bytes() {
    let src: &[u8] = b"#TITLE Foo\n#00111:01\n";
    let p = parse_chart(src);
    assert_eq!(p.file_md5, md5_hex(src));
    assert_eq!(p.file_md5.len(), 32);
    assert!(p.file_md5.chars().all(|c| c.is_ascii_digit() || ('a'..='f').contains(&c)));
}

#[test]
fn empty_file_has_known_md5_and_no_norm_hash() {
    let p = parse_chart(b"");
    assert_eq!(p.file_md5, "d41d8cd98f00b204e9800998ecf8427e");
    assert_eq!(p.bms_norm_hash, None);
    assert_eq!(p.title, None);
    assert!(p.wav_list.is_empty());
}

#[test]
fn norm_hash_covers_lowercased_header_lines() {
    let src = b"#TITLE Foo\r\n  comment\n  #BPM 120  \n";
    let p = parse_chart(src);
    assert_eq!(p.bms_norm_hash, Some(md5_hex(b"#title foo\n#bpm 120")));
}

#[test]
fn invalid_utf8_is_read_lossily() {
    let src: &[u8] = b"#TITLE A\xffB\n";
    let p = parse_chart(src);
    assert_eq!(p.title.as_deref(), Some("A\u{fffd}B"));
    assert_eq!(p.file_md5, md5_hex(src));
}

#[test]
fn norm_hash_sees_only_header_lines_up_to_case() {
    let a = parse_chart(b"#TITLE Foo\r\n*comment\n  #WAV01 a.wav\n\n#00111:0101\n");
    let b = parse_chart(b"other text\n#title FOO\n#wav01 A.WAV   \r\n#00111:0101");
    assert_eq!(a.bms_norm_hash, b.bms_norm_hash);
    assert!(a.bms_norm_hash.is_some());
    assert_ne!(a.file_md5, b.file_md5);
    assert_eq!(parse_chart(b"no header\n  \n").bms_norm_hash, None);
}
