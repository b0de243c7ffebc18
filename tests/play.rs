use stage_play::play::Play;
use stage_play::return_wrapper::ReturnWrapper;
use stage_play::scene_fragment::SceneFragment;
use stage_play::server::Server;

fn strings(v: &[&str]) -> Vec<String> {
    v.iter().map(|s| s.to_string()).collect()
}

/// Builds a play from a script and files held in memory, as the program does from disk.
fn build(script: &[&str], files: &[(&str, &[&str])], verbose_warnings: &mut Vec<String>) -> Result<Play, u8> {
    let lookup = |path: &str| -> Option<Vec<String>> {
        files.iter().find(|(p, _)| *p == path).map(|(_, l)| strings(l))
    };
    let mut cfg = Vec::new();
    Play::read_config(&strings(script), &mut cfg, verbose_warnings)?;
    let mut scenes = Vec::new();
    for (title, path) in Play::scene_plan(&cfg) {
        let lines = lookup(&path).ok_or(2u8)?;
        let mut roster = Vec::new();
        SceneFragment::read_config(&lines, &mut roster, verbose_warnings)?;
        let parts: Vec<Option<Vec<String>>> = roster.iter().map(|(_, p)| lookup(p)).collect();
        let mut f = SceneFragment::new(&title);
        f.prepare(&roster, &parts, verbose_warnings)?;
        scenes.push(f);
    }
    let mut play = Play::new();
    play.prepare(scenes)?;
    Ok(play)
}

fn perform(play: &mut Play, verbose: bool) -> (Vec<String>, Vec<String>) {
    let mut out = Vec::new();
    let mut w = Vec::new();
    play.recite(&mut out, &mut w, verbose);
    (out, w)
}

#[test]
fn script_lines_are_titles_or_rosters() {
    let mut cfg = Vec::new();
    let mut w = Vec::new();
    let r = Play::read_config(
        &strings(&["[scene]  The   Heath ", "", "[scene]", "conf1.txt", "conf2.txt extra"]),
        &mut cfg,
        &mut w,
    );
    assert_eq!(r, Ok(()));
    assert_eq!(
        cfg,
        vec![
            (true, "The Heath".to_string()),
            (false, "conf1.txt".to_string()),
            (false, "conf2.txt".to_string()),
        ]
    );
    assert_eq!(w.len(), 2);
}

#[test]
fn scene_plan_gives_each_roster_the_waiting_title() {
    let cfg = vec![
        (true, "One".to_string()),
        (true, "Two".to_string()),
        (false, "a".to_string()),
        (false, "b".to_string()),
        (true, "Three".to_string()),
        (false, "c".to_string()),
    ];
    let plan = Play::scene_plan(&cfg);
    assert_eq!(
        plan,
        vec![
            ("Two".to_string(), "a".to_string()),
            ("".to_string(), "b".to_string()),
            ("Three".to_string(), "c".to_string()),
        ]
    );
}

#[test]
fn empty_script_fails_with_code_two_and_no_output() {
    let mut cfg = Vec::new();
    let mut w = Vec::new();
    let r = Play::read_config(&Vec::new(), &mut cfg, &mut w);
    assert_eq!(r, Err(2));
    assert_eq!(ReturnWrapper::new(r).val, 2);
    let r = Play::read_config(&strings(&["", "  "]), &mut cfg, &mut w);
    assert_eq!(r, Err(2));
}

#[test]
fn short_roster_fails_with_code_two() {
    let mut w = Vec::new();
    let r = build(&["[scene] Act1", "conf1.txt"], &[("conf1.txt", &["Alice a.txt"]), ("a.txt", &["1 Hello"])], &mut w);
    assert_eq!(r.err(), Some(2));
}

#[test]
fn play_must_open_on_a_titled_scene() {
    let mut play = Play::new();
    assert_eq!(play.prepare(Vec::new()), Err(2));
    let mut play = Play::new();
    assert_eq!(play.prepare(vec![SceneFragment::new(""), SceneFragment::new("B")]), Err(2));
    let mut play = Play::new();
    assert_eq!(play.prepare(vec![SceneFragment::new("A"), SceneFragment::new("")]), Ok(()));
    assert_eq!(play.fragments.len(), 2);
}

#[test]
fn two_character_scene_transcript() {
    let mut w = Vec::new();
    let mut play = build(
        &["[scene] Act1", "conf1.txt"],
        &[("conf1.txt", &["Alice a.txt", "Bob b.txt"]), ("a.txt", &["1 Hello"]), ("b.txt", &["2 Hi"])],
        &mut w,
    )
    .unwrap();
    let (out, _) = perform(&mut play, false);
    assert_eq!(
        out,
        strings(&[
            "", "Act1", "", "[Enter Alice.]", "[Enter Bob.]", "", "Alice", "Hello", "", "Bob", "Hi", "",
            "[Exit Bob.]", "[Exit Alice.]", "",
        ])
    );
}

#[test]
fn malformed_dialogue_line_warns_and_is_omitted() {
    let mut w = Vec::new();
    let mut play = build(
        &["[scene] Act1", "conf1.txt"],
        &[
            ("conf1.txt", &["Alice a.txt", "Bob b.txt"]),
            ("a.txt", &["1 Hello", "Oops"]),
            ("b.txt", &["2 Hi"]),
        ],
        &mut w,
    )
    .unwrap();
    assert_eq!(w.len(), 1);
    let (out, _) = perform(&mut play, true);
    assert_eq!(
        out,
        strings(&[
            "", "Act1", "", "[Enter Alice.]", "[Enter Bob.]", "", "Alice", "Hello", "", "Bob", "Hi", "",
            "[Exit Bob.]", "[Exit Alice.]", "",
        ])
    );
}

#[test]
fn shared_character_stays_on_stage() {
    let mut w = Vec::new();
    let mut play = build(
        &["[scene] One", "c1.txt", "c2.txt"],
        &[
            ("c1.txt", &["Alice a1.txt", "Bob b1.txt"]),
            ("c2.txt", &["Bob b2.txt", "Cy cy.txt"]),
            ("a1.txt", &["1 A"]),
            ("b1.txt", &["2 B"]),
            ("b2.txt", &["1 B2"]),
            ("cy.txt", &["2 C"]),
        ],
        &mut w,
    )
    .unwrap();
    let (out, _) = perform(&mut play, false);
    assert_eq!(
        out,
        strings(&[
            "", "One", "", "[Enter Alice.]", "[Enter Bob.]", "", "Alice", "A", "", "Bob", "B", "",
            "[Exit Alice.]", "", "[Enter Cy.]", "B2", "", "Cy", "C", "", "[Exit Cy.]", "[Exit Bob.]", "",
        ])
    );
}

#[test]
fn return_codes() {
    assert_eq!(ReturnWrapper::new(Ok(())).val, 0);
    assert_eq!(ReturnWrapper::new(Err(1)).val, 1);
}

#[test]
fn server_records_binding() {
    let mut s = Server::new();
    assert!(!s.is_open());
    s.open("127.0.0.1:0", false);
    assert!(!s.is_open());
    s.open("127.0.0.1:8080", true);
    assert!(s.is_open());
    assert_eq!(s.listening_addr, "127.0.0.1:8080");
}
