use wavebars::{get_lyric_at_time, parse_lrc_file, parse_time};

fn table(entries: &[(&str, &str)]) -> Vec<(String, String)> {
    entries.iter().map(|(t, l)| (t.to_string(), l.to_string())).collect()
}

#[test]
fn parse_time_whole_seconds() {
    assert_eq!(parse_time("00:10.00"), Ok(10));
    assert_eq!(parse_time("01:05.99"), Ok(65));
    assert_eq!(parse_time("0:0.0"), Ok(0));
    assert_eq!(parse_time("100:00.00"), Ok(6000));
}

#[test]
fn parse_time_rejects_missing_colon() {
    assert_eq!(parse_time("0010.00"), Err("Invalid format".to_string()));
    assert_eq!(parse_time(""), Err("Invalid format".to_string()));
}

#[test]
fn parse_time_rejects_two_colons() {
    assert_eq!(parse_time("1:2.3:4"), Err("Invalid format".to_string()));
}

#[test]
fn parse_time_rejects_bad_minutes() {
    assert_eq!(parse_time("a:10.00"), Err("Invalid minutes".to_string()));
    assert_eq!(parse_time(":10.00"), Err("Invalid minutes".to_string()));
    assert_eq!(parse_time("+5:10.00"), Err("Invalid minutes".to_string()));
}

#[test]
fn parse_time_rejects_missing_dot() {
    assert_eq!(parse_time("00:10"), Err("Invalid seconds format".to_string()));
    assert_eq!(parse_time("00:1.0.0"), Err("Invalid seconds format".to_string()));
}

#[test]
fn parse_time_rejects_bad_seconds() {
    assert_eq!(parse_time("00:x.00"), Err("Invalid seconds".to_string()));
    assert_eq!(parse_time("00:.00"), Err("Invalid seconds".to_string()));
}

#[test]
fn parse_time_rejects_unrepresentable_total() {
    // these minutes alone exceed what 64 bits can hold in seconds
    assert_eq!(
        parse_time("307445734561825861:00.00"),
        Err("Invalid format".to_string())
    );
}

#[test]
fn lyric_lookup_scenario() {
    // table [10 -> A, 20 -> B]: 15 yields A, 5 nothing, 25 yields B
    let t = table(&[("00:10.00", "A"), ("00:20.00", "B")]);
    assert_eq!(get_lyric_at_time(&t, 15), Some("A".to_string()));
    assert_eq!(get_lyric_at_time(&t, 5), None);
    assert_eq!(get_lyric_at_time(&t, 25), Some("B".to_string()));
}

#[test]
fn lyric_lookup_at_exact_timestamp() {
    let t = table(&[("00:10.00", "A"), ("00:20.00", "B")]);
    assert_eq!(get_lyric_at_time(&t, 10), Some("A".to_string()));
    assert_eq!(get_lyric_at_time(&t, 20), Some("B".to_string()));
}

#[test]
fn lyric_lookup_skips_unparsable_entries() {
    let t = table(&[("bad", "X"), ("00:05.00", "Y")]);
    assert_eq!(get_lyric_at_time(&t, 10), Some("Y".to_string()));
}

#[test]
fn lyric_lookup_stops_at_first_later_entry() {
    // the scan breaks at the first parseable entry past the time, so an
    // out-of-order earlier entry behind it is never reached
    let t = table(&[("00:20.00", "late"), ("00:05.00", "early")]);
    assert_eq!(get_lyric_at_time(&t, 10), None);
}

#[test]
fn lyric_lookup_empty_table() {
    assert_eq!(get_lyric_at_time(&Vec::new(), 100), None);
}

#[test]
fn lrc_file_basic_entries() {
    let contents = "title junk\n[00:00.00]\n[00:10.00]Hello\n[00:20.00]  World  \n".to_string();
    let parsed = parse_lrc_file(contents);
    assert_eq!(
        parsed,
        vec![
            ("00:10.00".to_string(), "Hello".to_string()),
            ("00:20.00".to_string(), "World".to_string()),
        ]
    );
}

#[test]
fn lrc_file_text_after_marker_without_bracket_is_skipped() {
    let contents = "[00:00.00]intro line\nno bracket here\n[00:10.00]A".to_string();
    let parsed = parse_lrc_file(contents);
    // "intro line" follows the marker on its line and has no ']', so that
    // line yields nothing, as does "no bracket here"
    assert_eq!(parsed, vec![("00:10.00".to_string(), "A".to_string())]);
}

#[test]
fn lrc_file_strips_leading_brackets_only() {
    let contents = "[00:00.00]\n[[00:30.00]]Deep".to_string();
    let parsed = parse_lrc_file(contents);
    assert_eq!(parsed, vec![("00:30.00".to_string(), "]Deep".to_string())]);
}

#[test]
fn lrc_file_handles_crlf_lines() {
    let contents = "[00:00.00]\r\n[00:40.00]CR\r\n[00:50.00]LF\n".to_string();
    let parsed = parse_lrc_file(contents);
    assert_eq!(
        parsed,
        vec![
            ("00:40.00".to_string(), "CR".to_string()),
            ("00:50.00".to_string(), "LF".to_string()),
        ]
    );
}

#[test]
fn lrc_file_keeps_unparsable_timestamps_for_lookup_to_skip() {
    let contents = "[00:00.00]\n[not a time]X\n[00:10.00]A".to_string();
    let parsed = parse_lrc_file(contents);
    assert_eq!(
        parsed,
        vec![
            ("not a time".to_string(), "X".to_string()),
            ("00:10.00".to_string(), "A".to_string()),
        ]
    );
    assert_eq!(get_lyric_at_time(&parsed, 12), Some("A".to_string()));
}

#[test]
fn lrc_file_empty_after_marker() {
    let parsed = parse_lrc_file("[00:00.00]".to_string());
    assert_eq!(parsed, Vec::new());
}

#[test]
fn lyric_lookup_monotone_in_time() {
    // over an ascending table, a later query never yields an earlier entry
    let t = table(&[("00:03.00", "A"), ("00:07.00", "B"), ("00:12.00", "C")]);
    let order = |l: &Option<String>| match l.as_deref() {
        None => 0,
        Some("A") => 1,
        Some("B") => 2,
        _ => 3,
    };
    let mut last = 0;
    for secs in 0..20 {
        let now = order(&get_lyric_at_time(&t, secs));
        assert!(now >= last);
        last = now;
    }
}
