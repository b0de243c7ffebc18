use stage_play::player::{sort_lines, Player};

fn lines(v: &[&str]) -> Vec<String> {
    v.iter().map(|s| s.to_string()).collect()
}

fn pairs(v: &[(usize, &str)]) -> Vec<(usize, String)> {
    v.iter().map(|(n, s)| (*n, s.to_string())).collect()
}

#[test]
fn new_player_is_empty() {
    let p = Player::new("Alice");
    assert_eq!(p.name, "Alice");
    assert!(p.lines.is_empty());
    assert_eq!(p.line_index, 0);
    assert_eq!(p.next_line(), None);
}

#[test]
fn script_line_splits_number_and_text() {
    let mut p = Player::new("Alice");
    let mut warnings = Vec::new();
    p.add_script_line("3   Hello there  ", &mut warnings);
    assert_eq!(p.lines, pairs(&[(3, "Hello there")]));
    assert!(warnings.is_empty());
}

#[test]
fn malformed_script_lines_are_dropped_with_a_warning() {
    let mut p = Player::new("Alice");
    let mut warnings = Vec::new();
    p.add_script_line("Hello", &mut warnings);
    p.add_script_line("x Hello", &mut warnings);
    p.add_script_line("-2 Hello", &mut warnings);
    assert!(p.lines.is_empty());
    assert_eq!(warnings.len(), 3);
    p.add_script_line("", &mut warnings);
    assert_eq!(warnings.len(), 3);
}

#[test]
fn prepared_lines_are_sorted_stably_by_number() {
    let mut p = Player::new("Alice");
    let mut warnings = Vec::new();
    p.prepare(&lines(&["2 b", "1 a", "", "2 c", "oops", "0 z"]), &mut warnings);
    assert_eq!(p.lines, pairs(&[(0, "z"), (1, "a"), (2, "b"), (2, "c")]));
    assert_eq!(warnings.len(), 1);
    assert_eq!(p.next_line(), Some(0));
}

#[test]
fn equal_numbers_keep_file_order_not_text_order() {
    let sorted = sort_lines(&pairs(&[(5, "zeta"), (1, "x"), (5, "alpha")]));
    assert_eq!(sorted, pairs(&[(1, "x"), (5, "zeta"), (5, "alpha")]));
}

#[test]
fn speak_prints_name_on_change_of_speaker() {
    let mut p = Player::new("Alice");
    let mut warnings = Vec::new();
    p.prepare(&lines(&["1 Hello", "2 Again"]), &mut warnings);
    let mut recent = String::new();
    let mut out = Vec::new();
    p.speak(&mut recent, &mut out);
    assert_eq!(out, lines(&["", "Alice", "Hello"]));
    assert_eq!(recent, "Alice");
    p.speak(&mut recent, &mut out);
    assert_eq!(out, lines(&["", "Alice", "Hello", "Again"]));
    assert_eq!(p.next_line(), None);
    p.speak(&mut recent, &mut out);
    assert_eq!(out.len(), 4);
}
