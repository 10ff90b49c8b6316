use ctrl_space::frequency::Frequency;

#[test]
fn empty_store_reports_zero_everywhere() {
    let freq = Frequency::empty();
    assert!(freq.is_empty());
    assert_eq!(freq.get(&"vim".to_string()), 0);
    assert_eq!(freq.apps().len(), 0);
}

#[test]
fn increments_accumulate_and_remove_clears() {
    let mut freq = Frequency::empty();
    let name = "code".to_string();
    let before = freq.get(&name);
    let n = 7;
    for _ in 0..n {
        freq.increment(&name);
    }
    assert_eq!(freq.get(&name), before + n);
    freq.remove(&name);
    assert_eq!(freq.get(&name), 0);
}

#[test]
fn increment_leaves_other_names_alone() {
    let mut freq = Frequency::empty();
    freq.increment(&"a".to_string());
    freq.increment(&"b".to_string());
    freq.increment(&"a".to_string());
    assert_eq!(freq.get(&"a".to_string()), 2);
    assert_eq!(freq.get(&"b".to_string()), 1);
    assert!(!freq.is_empty());
    assert_eq!(freq.apps().len(), 2);
}

#[test]
fn scenario_malformed_lines_are_skipped() {
    let freq = Frequency::load_from_text("vim\t7\nbadline\ncode\t3\n");
    assert_eq!(freq.get(&"vim".to_string()), 7);
    assert_eq!(freq.get(&"code".to_string()), 3);
    assert_eq!(freq.get(&"badline".to_string()), 0);
    assert_eq!(freq.apps().len(), 2);
}

#[test]
fn load_tolerates_edge_lines() {
    let content = "ok\t1\n\t2\nnodigits\t\nhuge\t99999999999999999999\nlast\t4";
    let freq = Frequency::load_from_text(content);
    assert_eq!(freq.get(&"ok".to_string()), 1);
    // an empty name is a valid record
    assert_eq!(freq.get(&"".to_string()), 2);
    // an empty or overflowing count is malformed
    assert_eq!(freq.get(&"nodigits".to_string()), 0);
    assert_eq!(freq.get(&"huge".to_string()), 0);
    // a final line without a newline still counts
    assert_eq!(freq.get(&"last".to_string()), 4);
}

#[test]
fn load_takes_last_tab_and_last_record() {
    let freq = Frequency::load_from_text("a\tb\t5\ndup\t1\ndup\t9\n");
    assert_eq!(freq.get(&"a\tb".to_string()), 5);
    assert_eq!(freq.get(&"dup".to_string()), 9);
}

#[test]
fn round_trip_preserves_the_table() {
    let mut freq = Frequency::empty();
    freq.increment(&"vim".to_string());
    for _ in 0..41 {
        freq.increment(&"code".to_string());
    }
    freq.increment(&"tab\tname".to_string());
    freq.increment(&"".to_string());
    let text = freq.to_text();
    let back = Frequency::load_from_text(text.as_str());
    assert_eq!(back.get(&"vim".to_string()), 1);
    assert_eq!(back.get(&"code".to_string()), 41);
    assert_eq!(back.get(&"tab\tname".to_string()), 1);
    assert_eq!(back.get(&"".to_string()), 1);
    assert_eq!(back.apps().len(), freq.apps().len());
}

#[test]
fn round_trip_of_windows_line_endings() {
    let freq = Frequency::load_from_text("vim\t7\r\ncode\t3\r\n");
    assert_eq!(freq.get(&"vim".to_string()), 7);
    assert_eq!(freq.get(&"code".to_string()), 3);
}

#[test]
fn serialized_shape_is_one_record_line() {
    let mut freq = Frequency::empty();
    for _ in 0..7 {
        freq.increment(&"vim".to_string());
    }
    assert_eq!(freq.to_text(), "vim\t7\n");
}

#[test]
fn merge_keeps_counts_and_adds_new_names_at_zero() {
    let mut freq = Frequency::empty();
    for _ in 0..3 {
        freq.increment(&"vim".to_string());
    }
    let discovered = vec!["vim".to_string(), "code".to_string()];
    freq.merge_discovered(&discovered);
    assert_eq!(freq.get(&"vim".to_string()), 3);
    assert_eq!(freq.get(&"code".to_string()), 0);
    let names = freq.apps();
    assert_eq!(names.len(), 2);
    // the zero-count name survives a save and reload, so it stays visible
    let back = Frequency::load_from_text(&freq.to_text());
    assert_eq!(back.apps().len(), 2);
    assert_eq!(back.get(&"vim".to_string()), 3);
}
