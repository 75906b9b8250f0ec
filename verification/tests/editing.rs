use bunny_dash::editor::{any_real_level, editor_keys, next_real_level, status_text, Editor, EditorKeys, EditorOutcome, Screen};
use bunny_dash::levels::{LevelBook, LevelData};
use bunny_dash::piece::Piece;
use bunny_dash::pieces::{delete_pieces, place_piece, sort_pieces};
use bunny_dash::title::{settings_keys, settings_text, title_keys, SettingsKeys, TitleKeys};

fn stage(name: &str, boss: &str, pieces: Vec<(Piece, i64)>) -> LevelData {
    LevelData { name: name.to_string(), speed: 80, finish: -1060, boss: boss.to_string(), pieces }
}

fn book() -> LevelBook {
    LevelBook {
        levels: vec![
            stage("One", "", vec![(Piece::Spike, -180), (Piece::Cube, -270), (Piece::Spike, -360)]),
            stage("Two", "", vec![]),
            stage("Tomato", "tomato", vec![]),
            stage("Three", "", vec![]),
            stage("Thorn", "thorn", vec![]),
        ],
    }
}

fn no_keys() -> EditorKeys {
    EditorKeys {
        forward: false,
        back: false,
        next_level: false,
        place: [false; 7],
        delete: false,
        save: false,
        playtest: false,
        leave: false,
    }
}

#[test]
fn new_editor_starts_at_stage_one_spot_eighteen() {
    let e = Editor::new();
    assert_eq!(e.level, 1);
    assert_eq!(e.cursor, 18);
    assert!(!e.playtesting);
    assert!(e.needs_redraw);
}

#[test]
fn cursor_moves_and_stays_on_the_road() {
    let mut b = book();
    let mut e = Editor::new();
    let mut k = no_keys();
    k.forward = true;
    editor_keys(&mut e, &mut b, &k);
    assert_eq!(e.cursor, 19);
    e.cursor = 240;
    editor_keys(&mut e, &mut b, &k);
    assert_eq!(e.cursor, 240);
    let mut k = no_keys();
    k.back = true;
    e.cursor = 6;
    editor_keys(&mut e, &mut b, &k);
    assert_eq!(e.cursor, 6);
    let mut k = no_keys();
    k.forward = true;
    k.back = true;
    e.cursor = 50;
    editor_keys(&mut e, &mut b, &k);
    assert_eq!(e.cursor, 50);
    e.cursor = 1000;
    editor_keys(&mut e, &mut b, &no_keys());
    assert_eq!(e.cursor, 240);
}

#[test]
fn next_level_skips_bosses_and_wraps() {
    let b = book();
    assert_eq!(next_real_level(&b, 1), 2);
    assert_eq!(next_real_level(&b, 2), 4);
    assert_eq!(next_real_level(&b, 4), 1);
    assert_eq!(next_real_level(&b, 5), 1);
    assert_eq!(next_real_level(&b, 9), 1);
    assert_eq!(next_real_level(&b, 8), 4);
}

#[test]
fn placing_a_piece_clears_the_spot_and_keeps_order() {
    let mut b = book();
    let mut e = Editor::new();
    e.needs_redraw = false;
    e.cursor = 27;
    let mut k = no_keys();
    k.place[3] = true; // triple
    let out = editor_keys(&mut e, &mut b, &k);
    assert_eq!(out, EditorOutcome { save: false, next_screen: None });
    assert!(e.needs_redraw);
    assert_eq!(
        b.levels[0].pieces,
        vec![(Piece::Spike, -180), (Piece::TripleCube, -270), (Piece::Spike, -360)]
    );
    assert_eq!(b.levels[0].finish, -1060);
}

#[test]
fn placing_past_the_gate_moves_the_gate() {
    let mut b = book();
    let mut e = Editor::new();
    e.cursor = 100;
    let mut k = no_keys();
    k.place[6] = true; // bad guy
    editor_keys(&mut e, &mut b, &k);
    assert_eq!(b.levels[0].pieces.last(), Some(&(Piece::BadGuy, -1000)));
    assert_eq!(b.levels[0].finish, -1100);
}

#[test]
fn two_piece_keys_leave_the_later_piece() {
    let mut b = book();
    let mut e = Editor::new();
    e.cursor = 18;
    let mut k = no_keys();
    k.place[0] = true;
    k.place[1] = true;
    editor_keys(&mut e, &mut b, &k);
    assert_eq!(b.levels[0].pieces, vec![(Piece::Cube, -180), (Piece::Cube, -270), (Piece::Spike, -360)]);
}

#[test]
fn deleting_removes_what_is_under_the_cursor() {
    let mut b = book();
    let mut e = Editor::new();
    e.cursor = 27;
    let mut k = no_keys();
    k.delete = true;
    editor_keys(&mut e, &mut b, &k);
    assert_eq!(b.levels[0].pieces, vec![(Piece::Spike, -180), (Piece::Spike, -360)]);
}

#[test]
fn delete_and_place_use_their_own_distances() {
    let mut l = stage("x", "", vec![(Piece::Cube, -187), (Piece::Cube, -189), (Piece::Cube, -193), (Piece::Cube, -174)]);
    place_piece(&mut l, Piece::Spike, -180);
    // within 0.6 cleared: -174 (0.6 is not more than 0.6) and -187 stays (0.7 away)
    assert_eq!(l.pieces, vec![(Piece::Spike, -180), (Piece::Cube, -187), (Piece::Cube, -189), (Piece::Cube, -193)]);
    delete_pieces(&mut l, -180);
    assert_eq!(l.pieces, vec![(Piece::Cube, -193)]);
}

#[test]
fn sort_is_closest_first_and_stable() {
    let v = vec![(Piece::Cube, -50), (Piece::Spike, -10), (Piece::TallCube, -50), (Piece::BadGuy, 5), (Piece::SkySpike, -10)];
    assert_eq!(
        sort_pieces(&v),
        vec![(Piece::BadGuy, 5), (Piece::Spike, -10), (Piece::SkySpike, -10), (Piece::Cube, -50), (Piece::TallCube, -50)]
    );
}

#[test]
fn switching_level_edits_the_new_level() {
    let mut b = book();
    let mut e = Editor::new();
    e.level = 2;
    let mut k = no_keys();
    k.next_level = true;
    k.place[0] = true;
    editor_keys(&mut e, &mut b, &k);
    assert_eq!(e.level, 4);
    assert_eq!(b.levels[3].pieces, vec![(Piece::Spike, -180)]);
    assert_eq!(b.levels[1].pieces.len(), 0);
}

#[test]
fn save_playtest_and_leave() {
    let mut b = book();
    let mut e = Editor::new();
    let mut k = no_keys();
    k.save = true;
    k.playtest = true;
    let out = editor_keys(&mut e, &mut b, &k);
    assert_eq!(out, EditorOutcome { save: true, next_screen: Some(Screen::Playing) });
    assert!(e.playtesting);
    k.leave = true;
    let out = editor_keys(&mut e, &mut b, &k);
    assert_eq!(out.next_screen, Some(Screen::Title));
}

#[test]
fn status_line_names_the_stage() {
    let b = book();
    let mut e = Editor::new();
    e.level = 4;
    let s = status_text(&b, &e, "SAVED!");
    assert_eq!(s, "EDITING  Level 3: Three     spot 18     0 pieces     SAVED!");
    e.level = 1;
    assert_eq!(status_text(&b, &e, ""), "EDITING  Level 1: One     spot 18     3 pieces     ");
}

#[test]
fn title_menu_keys() {
    let mut e = Editor::new();
    e.playtesting = true;
    let next = title_keys(&mut e, &TitleKeys { play: true, settings: false, editor: false });
    assert_eq!(next, Some(Screen::Playing));
    assert!(!e.playtesting);
    let next = title_keys(&mut e, &TitleKeys { play: true, settings: true, editor: false });
    assert_eq!(next, Some(Screen::Settings));
    let next = title_keys(&mut e, &TitleKeys { play: false, settings: true, editor: true });
    assert_eq!(next, Some(Screen::Editor));
    assert_eq!(title_keys(&mut e, &TitleKeys { play: false, settings: false, editor: false }), None);
}

#[test]
fn settings_choose_a_start_within_the_book() {
    let mut start = 1usize;
    let back = settings_keys(&mut start, 5, &SettingsKeys { left: true, right: false, back: false });
    assert!(!back);
    assert_eq!(start, 1);
    settings_keys(&mut start, 5, &SettingsKeys { left: false, right: true, back: false });
    assert_eq!(start, 2);
    start = 5;
    let back = settings_keys(&mut start, 5, &SettingsKeys { left: false, right: true, back: true });
    assert!(back);
    assert_eq!(start, 5);
    let b = book();
    assert_eq!(
        settings_text(&b, 3),
        "Start at:  <  Boss 1: Tomato  >\n\npress Left / Right to change\n\nEsc: back to the title screen"
    );
}

#[test]
fn a_book_of_bosses_has_no_real_level() {
    let b = book();
    assert!(any_real_level(&b));
    let bosses = LevelBook { levels: vec![stage("T", "tomato", vec![]), stage("B", "bat", vec![])] };
    assert!(!any_real_level(&bosses));
}

#[test]
fn arrows_work_without_a_book() {
    let mut b = LevelBook { levels: vec![] };
    let mut e = Editor::new();
    e.level = 0;
    let mut k = no_keys();
    k.forward = true;
    k.save = true;
    let out = editor_keys(&mut e, &mut b, &k);
    assert_eq!(e.cursor, 19);
    assert_eq!(out, EditorOutcome { save: true, next_screen: None });
    assert_eq!(b.levels.len(), 0);
}

#[test]
fn opening_the_editor_stops_playtesting_and_redraws() {
    let mut e = Editor { level: 3, cursor: 42, playtesting: true, needs_redraw: false };
    e.open();
    assert_eq!(e.level, 3);
    assert_eq!(e.cursor, 42);
    assert!(!e.playtesting);
    assert!(e.needs_redraw);
}
