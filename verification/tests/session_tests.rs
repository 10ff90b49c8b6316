use ctrl_space::session::{
    SessionState, Action, Effect, compute_page_end, find_page_containing,
};
use ctrl_space::filter::FilteredApp;
use ctrl_space::frequency::Frequency;

fn results_of(names: &[&str]) -> Vec<FilteredApp> {
    names
        .iter()
        .map(|n| FilteredApp { name: n.to_string(), score: 0, match_indices: Vec::new() })
        .collect()
}

fn uniform_widths(n: usize, w: u64) -> Vec<u64> {
    std::iter::repeat(w).take(n).collect()
}

#[test]
fn scenario_right_at_page_edge_advances_one_page() {
    // a page holding 5 items, selection on the last visible, 12 results
    let results = results_of(&[
        "a0", "a1", "a2", "a3", "a4", "a5", "a6", "a7", "a8", "a9", "b0", "b1",
    ]);
    let widths = uniform_widths(12, 10);
    let avail: u64 = 50;
    let freq = Frequency::empty();
    let mut s = SessionState::new();
    s.browsing = true;
    s.selected = 4;
    s.scroll_offset = 0;
    s.last_visible = 4;
    s.page_size = 5;
    let eff = s.handle_action(Action::Right, &results, &widths, avail, &freq);
    assert!(matches!(eff, Effect::Nothing));
    assert_eq!(s.scroll_offset, 5);
    assert_eq!(s.selected, 5);
    assert_eq!(s.last_visible, 9);
    assert!(s.scroll_offset <= s.selected && s.selected <= s.last_visible);
    // the recorded page size is the run the renderer draws
    s.update_page(12, &widths, avail);
    assert_eq!(s.page_size, s.last_visible - s.scroll_offset + 1);
    assert_eq!(s.page_size, 5);
}

#[test]
fn right_within_page_moves_selection() {
    let results = results_of(&["a", "b", "c"]);
    let widths = uniform_widths(3, 10);
    let freq = Frequency::empty();
    let mut s = SessionState::new();
    s.browsing = true;
    s.selected = 1;
    s.last_visible = 2;
    s.handle_action(Action::Right, &results, &widths, 100, &freq);
    assert_eq!(s.selected, 2);
    // at the very end nothing moves
    s.handle_action(Action::Right, &results, &widths, 100, &freq);
    assert_eq!(s.selected, 2);
}

#[test]
fn left_at_selection_one_returns_to_editing() {
    let results = results_of(&["a", "b"]);
    let widths = uniform_widths(2, 10);
    let freq = Frequency::empty();
    let mut s = SessionState::new();
    s.browsing = true;
    s.selected = 1;
    s.last_visible = 1;
    s.handle_action(Action::Left, &results, &widths, 100, &freq);
    assert!(!s.browsing);
    assert_eq!(s.selected, 0);
    assert_eq!(s.scroll_offset, 0);
}

#[test]
fn left_repaginates_when_crossing_page_start() {
    let results = results_of(&["a", "b", "c", "d", "e", "f"]);
    let widths = uniform_widths(6, 10);
    let avail: u64 = 20;  // two items per page
    let freq = Frequency::empty();
    let mut s = SessionState::new();
    s.browsing = true;
    s.selected = 2;
    s.scroll_offset = 2;
    s.last_visible = 3;
    s.page_size = 2;
    s.handle_action(Action::Left, &results, &widths, avail, &freq);
    assert_eq!(s.selected, 1);
    assert_eq!(s.scroll_offset, 0);
    assert_eq!(s.last_visible, 1);
}

#[test]
fn right_in_editing_at_end_enters_browsing_at_one() {
    let results = results_of(&["top", "second", "third"]);
    let widths = uniform_widths(3, 10);
    let freq = Frequency::empty();
    let mut s = SessionState::new();
    let eff = s.handle_action(Action::Right, &results, &widths, 100, &freq);
    assert!(matches!(eff, Effect::Nothing));
    assert!(s.browsing);
    assert_eq!(s.selected, 1);
}

#[test]
fn edits_reset_browsing_state() {
    let results = results_of(&["ab", "ac"]);
    let widths = uniform_widths(2, 10);
    let freq = Frequency::empty();
    let mut s = SessionState::new();
    s.handle_action(Action::Insert('a'), &results, &widths, 100, &freq);
    assert_eq!(s.query, vec!['a']);
    assert_eq!(s.caret, 1);
    s.browsing = true;
    s.selected = 1;
    s.last_visible = 1;
    s.handle_action(Action::Insert('b'), &results, &widths, 100, &freq);
    assert!(!s.browsing);
    assert_eq!(s.selected, 0);
    assert_eq!(s.scroll_offset, 0);
    assert_eq!(s.query, vec!['a', 'b']);
    s.handle_action(Action::Backspace, &results, &widths, 100, &freq);
    assert_eq!(s.query, vec!['a']);
    assert_eq!(s.caret, 1);
}

#[test]
fn caret_moves_are_clamped() {
    let results = results_of(&[]);
    let widths = uniform_widths(0, 10);
    let freq = Frequency::empty();
    let mut s = SessionState::new();
    s.handle_action(Action::Left, &results, &widths, 100, &freq);
    assert_eq!(s.caret, 0);
    s.handle_action(Action::Insert('x'), &results, &widths, 100, &freq);
    s.handle_action(Action::Left, &results, &widths, 100, &freq);
    assert_eq!(s.caret, 0);
    s.handle_action(Action::Right, &results, &widths, 100, &freq);
    assert_eq!(s.caret, 1);
    s.handle_action(Action::Right, &results, &widths, 100, &freq);
    assert_eq!(s.caret, 1);
}

#[test]
fn tab_completes_the_selected_name() {
    let results = results_of(&["first", "second"]);
    let widths = uniform_widths(2, 10);
    let freq = Frequency::empty();
    let mut s = SessionState::new();
    s.browsing = true;
    s.selected = 1;
    s.last_visible = 1;
    s.handle_action(Action::Tab, &results, &widths, 100, &freq);
    let q: String = s.query.iter().collect();
    assert_eq!(q, "second");
    assert_eq!(s.caret, 6);
    assert!(!s.browsing);
}

#[test]
fn enter_launches_selection_or_raw_query() {
    let freq = Frequency::empty();
    let results = results_of(&["editor"]);
    let widths = uniform_widths(1, 10);
    let mut s = SessionState::new();
    let eff = s.handle_action(Action::Enter, &results, &widths, 100, &freq);
    match eff {
        Effect::Launch(name) => assert_eq!(name, "editor"),
        _ => panic!("expected a launch"),
    }
    // no results: a non-blank query launches verbatim
    let none = results_of(&[]);
    let nw = uniform_widths(0, 10);
    let mut s2 = SessionState::new();
    s2.handle_action(Action::Insert('x'), &none, &nw, 100, &freq);
    let eff2 = s2.handle_action(Action::Enter, &none, &nw, 100, &freq);
    match eff2 {
        Effect::Launch(name) => assert_eq!(name, "x"),
        _ => panic!("expected a launch"),
    }
    // blank query: quit without launching
    let mut s3 = SessionState::new();
    let eff3 = s3.handle_action(Action::Enter, &none, &nw, 100, &freq);
    assert!(matches!(eff3, Effect::Quit));
}

#[test]
fn delete_confirm_flow() {
    let mut freq = Frequency::empty();
    freq.increment(&"used".to_string());
    let results = results_of(&["used", "fresh"]);
    let widths = uniform_widths(2, 10);
    let mut s = SessionState::new();
    // deleting an unused candidate is a no-op
    s.browsing = true;
    s.selected = 1;
    s.last_visible = 1;
    s.handle_action(Action::Delete, &results, &widths, 100, &freq);
    assert!(s.delete_confirm.is_none());
    // deleting a used candidate asks first; n cancels
    s.selected = 0;
    s.handle_action(Action::Delete, &results, &widths, 100, &freq);
    assert_eq!(s.delete_confirm.as_deref(), Some("used"));
    s.handle_action(Action::Insert('n'), &results, &widths, 100, &freq);
    assert!(s.delete_confirm.is_none());
    // y confirms and yields the removal effect
    s.handle_action(Action::Delete, &results, &widths, 100, &freq);
    let eff = s.handle_action(Action::Insert('y'), &results, &widths, 100, &freq);
    match eff {
        Effect::RemoveEntry(name) => assert_eq!(name, "used"),
        _ => panic!("expected a removal"),
    }
    assert!(s.delete_confirm.is_none());
    // other keys while confirming are ignored
    s.handle_action(Action::Delete, &results, &widths, 100, &freq);
    s.handle_action(Action::Insert('q'), &results, &widths, 100, &freq);
    assert!(s.delete_confirm.is_some());
    let eff2 = s.handle_action(Action::Escape, &results, &widths, 100, &freq);
    assert!(matches!(eff2, Effect::Nothing));
    assert!(s.delete_confirm.is_none());
}

#[test]
fn escape_quits_outside_confirmation() {
    let results = results_of(&[]);
    let widths = uniform_widths(0, 10);
    let freq = Frequency::empty();
    let mut s = SessionState::new();
    let eff = s.handle_action(Action::Escape, &results, &widths, 100, &freq);
    assert!(matches!(eff, Effect::Quit));
}

#[test]
fn page_computation_is_greedy_with_at_least_one() {
    let widths: Vec<u64> = vec![30, 30, 30, 90, 10];
    assert_eq!(compute_page_end(&widths, 0, 70), 1);
    assert_eq!(compute_page_end(&widths, 2, 70), 2);
    // an overflowing first item still forms a page of one
    assert_eq!(compute_page_end(&widths, 3, 70), 3);
    assert_eq!(compute_page_end(&widths, 4, 70), 4);
    assert_eq!(find_page_containing(&widths, 0, 70), 0);
    assert_eq!(find_page_containing(&widths, 1, 70), 0);
    assert_eq!(find_page_containing(&widths, 2, 70), 2);
    assert_eq!(find_page_containing(&widths, 3, 70), 3);
    assert_eq!(find_page_containing(&widths, 4, 70), 4);
}

#[test]
fn clamp_after_results_shrink() {
    let freq = Frequency::empty();
    let results = results_of(&["only"]);
    let widths = uniform_widths(1, 10);
    let mut s = SessionState::new();
    s.selected = 5;
    s.scroll_offset = 4;
    s.browsing = true;
    s.last_visible = 7;
    s.clamp_to_results(1, &widths, 100);
    assert_eq!(s.selected, 0);
    assert_eq!(s.scroll_offset, 0);
    // and the machine accepts actions again
    s.handle_action(Action::Right, &results, &widths, 100, &freq);

    // a selection still in range is kept, not reset
    let widths3 = uniform_widths(3, 10);
    let mut s2 = SessionState::new();
    s2.browsing = true;
    s2.selected = 2;
    s2.scroll_offset = 1;
    s2.last_visible = 2;
    s2.clamp_to_results(3, &widths3, 100);
    assert_eq!(s2.selected, 2);
}
