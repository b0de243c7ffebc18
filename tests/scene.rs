use std::cmp::Ordering;
use stage_play::player::Player;
use stage_play::scene_fragment::SceneFragment;

fn strings(v: &[&str]) -> Vec<String> {
    v.iter().map(|s| s.to_string()).collect()
}

fn roster(v: &[(&str, &str)]) -> Vec<(String, String)> {
    v.iter().map(|(a, b)| (a.to_string(), b.to_string())).collect()
}

fn player(name: &str, part: &[&str]) -> Player {
    let mut p = Player::new(name);
    let mut w = Vec::new();
    p.prepare(&strings(part), &mut w);
    p
}

fn scene(title: &str, cast: &[(&str, &[&str])]) -> SceneFragment {
    let pairs: Vec<(String, String)> =
        cast.iter().map(|(n, _)| (n.to_string(), format!("{n}.txt"))).collect();
    let parts: Vec<Option<Vec<String>>> = cast.iter().map(|(_, l)| Some(strings(l))).collect();
    let mut f = SceneFragment::new(title);
    let mut w = Vec::new();
    assert_eq!(f.prepare(&pairs, &parts, &mut w), Ok(()));
    f
}

fn names(f: &SceneFragment) -> Vec<String> {
    f.characters.iter().map(|p| p.name.clone()).collect()
}

#[test]
fn roster_lines_need_exactly_two_words() {
    let mut cfg = Vec::new();
    let mut w = Vec::new();
    let r = SceneFragment::read_config(
        &strings(&["Alice a.txt", "Bob", "", "Carol c.txt extra", "Dave d.txt"]),
        &mut cfg,
        &mut w,
    );
    assert_eq!(r, Ok(()));
    assert_eq!(cfg, roster(&[("Alice", "a.txt"), ("Dave", "d.txt")]));
    assert_eq!(w.len(), 3);
}

#[test]
fn roster_of_one_line_fails() {
    let mut cfg = Vec::new();
    let mut w = Vec::new();
    assert_eq!(SceneFragment::read_config(&strings(&["Alice a.txt"]), &mut cfg, &mut w), Err(2));
    assert!(cfg.is_empty());
    assert_eq!(SceneFragment::read_config(&Vec::new(), &mut cfg, &mut w), Err(2));
}

#[test]
fn unreadable_part_fails_the_scene() {
    let mut f = SceneFragment::new("S");
    let mut w = Vec::new();
    let cfg = roster(&[("Alice", "a.txt"), ("Bob", "b.txt")]);
    assert_eq!(f.prepare(&cfg, &vec![Some(strings(&["1 Hi"])), None], &mut w), Err(2));
    let mut g = SceneFragment::new("S");
    assert_eq!(g.prepare(&cfg, &vec![Some(strings(&["1 Hi"]))], &mut w), Err(2));
}

#[test]
fn cast_is_ordered_by_first_line_with_silent_first() {
    let f = scene(
        "S",
        &[("Cleo", &["5 c"]), ("Ann", &["2 a", "9 x"]), ("Mute", &[]), ("Bea", &["2 b"])],
    );
    assert_eq!(names(&f), strings(&["Mute", "Ann", "Bea", "Cleo"]));
}

#[test]
fn silent_characters_compare_equal() {
    let a = player("Zed", &[]);
    let b = player("Amy", &["bad line"]);
    assert_eq!(SceneFragment::compare_players(&a, &b), Ordering::Equal);
    assert_eq!(SceneFragment::compare_players(&b, &a), Ordering::Equal);
}

#[test]
fn silent_comes_before_speaking_and_names_are_ignored() {
    let silent = player("Aaron", &[]);
    let early = player("Zoe", &["1 x"]);
    let late = player("Abe", &["4 y"]);
    let same = player("Mia", &["1 other"]);
    assert_eq!(SceneFragment::compare_players(&silent, &early), Ordering::Less);
    assert_eq!(SceneFragment::compare_players(&early, &silent), Ordering::Greater);
    assert_eq!(SceneFragment::compare_players(&early, &late), Ordering::Less);
    assert_eq!(SceneFragment::compare_players(&late, &early), Ordering::Greater);
    assert_eq!(SceneFragment::compare_players(&early, &same), Ordering::Equal);
}

#[test]
fn entering_without_previous_is_whole_cast() {
    let f = scene("S", &[("Alice", &["1 a"]), ("Bob", &["2 b"])]);
    assert_eq!(f.entering(None), strings(&["Alice", "Bob"]));
    assert!(f.entering(Some(&f)).is_empty());
}

#[test]
fn exiting_is_reverse_cast_order() {
    let f = scene("S", &[("Alice", &["1 a"]), ("Bob", &["2 b"]), ("Cy", &["3 c"])]);
    let g = scene("", &[("Bob", &["1 b"])]);
    assert_eq!(f.exiting(None), strings(&["Cy", "Bob", "Alice"]));
    assert_eq!(f.exiting(Some(&g)), strings(&["Cy", "Alice"]));
    assert!(f.exiting(Some(&f)).is_empty());
}

#[test]
fn enter_and_exit_announce() {
    let f = scene("Act 1", &[("Alice", &["1 a"]), ("Bob", &["2 b"])]);
    let g = scene("  ", &[("Bob", &["3 b"]), ("Cy", &["4 c"])]);
    let mut out = Vec::new();
    f.enter_all(&mut out);
    assert_eq!(out, strings(&["", "Act 1", "", "[Enter Alice.]", "[Enter Bob.]"]));
    let mut out = Vec::new();
    g.enter(&f, &mut out);
    assert_eq!(out, strings(&["[Enter Cy.]"]));
    let mut out = Vec::new();
    f.exit(&g, &mut out);
    assert_eq!(out, strings(&["", "[Exit Alice.]", ""]));
    let mut out = Vec::new();
    g.exit_all(&mut out);
    assert_eq!(out, strings(&["", "[Exit Cy.]", "[Exit Bob.]", ""]));
}

#[test]
fn recite_merges_lines_by_number() {
    let mut f = scene("S", &[("Alice", &["1 a1", "3 a3", "4 a4"]), ("Bob", &["2 b2", "6 b6"])]);
    let mut recent = String::new();
    let mut out = Vec::new();
    let mut w = Vec::new();
    f.recite(&mut recent, &mut out, &mut w, false);
    assert_eq!(
        out,
        strings(&["", "Alice", "a1", "", "Bob", "b2", "", "Alice", "a3", "a4", "", "Bob", "b6"])
    );
    assert!(w.is_empty());
    assert_eq!(recent, "Bob");
    assert!(f.characters.iter().all(|p| p.next_line().is_none()));
}

#[test]
fn recite_warns_of_gaps_and_collisions_when_verbose() {
    let mut f = scene("S", &[("Alice", &["1 a", "3 c"]), ("Bob", &["3 d"])]);
    let mut recent = String::new();
    let mut out = Vec::new();
    let mut w = Vec::new();
    f.recite(&mut recent, &mut out, &mut w, true);
    assert_eq!(out, strings(&["", "Alice", "a", "c", "", "Bob", "d"]));
    assert_eq!(
        w,
        strings(&[
            "Warning: missing line 0",
            "Warning: missing line 2",
            "Warning: there are 2 characters who have a line with number 3",
        ])
    );
}

#[test]
fn speaker_carries_over_between_scenes() {
    let mut f = scene("S", &[("Alice", &["1 a"])]);
    let mut recent = "Alice".to_string();
    let mut out = Vec::new();
    let mut w = Vec::new();
    f.recite(&mut recent, &mut out, &mut w, false);
    assert_eq!(out, strings(&["a"]));
}

#[test]
fn players_compare_in_cast_order() {
    let silent = player("Aaron", &[]);
    let other_silent = player("Zed", &[]);
    let early = player("Zoe", &["1 x"]);
    let same = player("Mia", &["1 other", "5 more"]);
    let late = player("Abe", &["4 y"]);
    assert!(silent == other_silent);
    assert!(early == same);
    assert!(silent != early);
    assert!(silent < early);
    assert!(early < late);
    assert!(late > same);
    assert_eq!(early.partial_cmp(&same), Some(Ordering::Equal));
}
