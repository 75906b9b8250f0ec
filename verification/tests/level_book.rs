use bunny_dash::book_file::{level_book_text, load_level_book, try_load_level_book};
use bunny_dash::levels::{LevelBook, LevelData};
use bunny_dash::piece::{piece_to_word, word_to_piece, Piece};

const SAMPLE: &str = "# a comment line\n\
level 1 First Steps\n\
speed 8\n\
finish 106\n\
spike 18\n\
cube 27\n\
\n\
level 2 Sky Stairs\n\
speed 9.5\n\
finish 80\n\
tall 22.8\n\
\n\
level 3 Rotten Tomato\n\
boss tomato\n\
speed 8\n\
finish 60\n\
\n\
level 4 Long Road\n\
finish 50\n\
\n\
level 5 Cursed Thorn\n\
boss thorn\n\
\n\
level 6 Bad Bat\n\
boss bat\n";

fn level(name: &str, boss: &str, speed: i64, finish: i64, pieces: Vec<(Piece, i64)>) -> LevelData {
    LevelData { name: name.to_string(), speed, finish, boss: boss.to_string(), pieces }
}

fn same(a: &LevelData, b: &LevelData) -> bool {
    a.name == b.name && a.speed == b.speed && a.finish == b.finish && a.boss == b.boss && a.pieces == b.pieces
}

#[test]
fn piece_words_round_trip() {
    let all = [
        Piece::Spike,
        Piece::Cube,
        Piece::TallCube,
        Piece::TripleCube,
        Piece::CubeWithSpike,
        Piece::SkySpike,
        Piece::BadGuy,
    ];
    for p in all {
        assert_eq!(word_to_piece(piece_to_word(p)), Some(p));
    }
    assert_eq!(piece_to_word(Piece::CubeWithSpike), "cubespike");
    assert_eq!(piece_to_word(Piece::TallCube), "tall");
}

#[test]
fn unknown_words_are_no_piece() {
    assert_eq!(word_to_piece("spikes"), None);
    assert_eq!(word_to_piece(""), None);
    assert_eq!(word_to_piece("Spike"), None);
}

#[test]
fn loads_levels_bosses_and_pieces() {
    let book = load_level_book(SAMPLE);
    assert_eq!(book.levels.len(), 6);
    let first = &book.levels[0];
    assert_eq!(first.name, "First Steps");
    assert_eq!(first.speed, 80);
    assert_eq!(first.finish, -1060);
    assert_eq!(first.boss, "");
    assert_eq!(first.pieces, vec![(Piece::Spike, -180), (Piece::Cube, -270)]);
    let second = &book.levels[1];
    assert_eq!(second.speed, 95);
    assert_eq!(second.pieces, vec![(Piece::TallCube, -228)]);
    assert_eq!(book.levels[2].boss, "tomato");
    // a level with no speed line keeps the default speed of 8
    assert_eq!(book.levels[3].speed, 80);
    assert_eq!(book.levels[4].finish, 0);
}

#[test]
fn skips_comments_blank_lines_and_unknown_words() {
    let book = load_level_book("  # hello\n\nboss early\nspike 3\nlevel 1 A\nwobble 4\n   cube   12   \r\n");
    assert_eq!(book.levels.len(), 1);
    assert_eq!(book.levels[0].name, "A");
    assert_eq!(book.levels[0].boss, "");
    assert_eq!(book.levels[0].pieces, vec![(Piece::Cube, -120)]);
}

#[test]
fn level_name_is_the_words_after_the_number() {
    let book = load_level_book("level 7    Sky   Stairs  \nlevel 8\n");
    assert_eq!(book.levels[0].name, "Sky Stairs");
    assert_eq!(book.levels[1].name, "");
}

#[test]
fn numbers_are_read_in_tenths() {
    let book = load_level_book(
        "level 1 N\nspike 22.85\ncube -3\ntall .5\ntriple 7.\nbadguy +2.04\nskyspike 1.96\nspeed fast\nfinish x\n",
    );
    let l = &book.levels[0];
    assert_eq!(
        l.pieces,
        vec![
            (Piece::Spike, -229),
            (Piece::Cube, 30),
            (Piece::TallCube, -5),
            (Piece::TripleCube, -70),
            (Piece::BadGuy, -20),
            (Piece::SkySpike, -20),
        ]
    );
    // unreadable numbers fall back to the defaults
    assert_eq!(l.speed, 80);
    assert_eq!(l.finish, 0);
}

#[test]
fn unreadable_lines_are_refused() {
    assert!(try_load_level_book("level\n").is_none());
    assert!(try_load_level_book("level 1 A\nspeed\n").is_none());
    assert!(try_load_level_book("level 1 A\ncube\n").is_none());
    assert!(try_load_level_book("level 1 A\nboss\n").is_none());
    // before the first level these words are ignored, value or not
    assert!(try_load_level_book("speed\nboss\ncube\n").is_some());
    // an unknown word needs no value
    assert!(try_load_level_book("level 1 A\nwobble\n").is_some());
}

#[test]
fn empty_text_has_no_levels() {
    let book = load_level_book("");
    assert_eq!(book.levels.len(), 0);
}

#[test]
fn saved_text_has_the_expected_lines() {
    let book = LevelBook {
        levels: vec![
            level("First Steps", "", 80, -1060, vec![(Piece::Spike, -180), (Piece::TallCube, -228)]),
            level("Rotten Tomato", "tomato", 95, 0, vec![]),
        ],
    };
    let text = level_book_text(&book);
    let expected = "# ======================================================\n\
#  THE LEVEL BOOK for 3D Bunny Dash!\n\
# ======================================================\n\
# Pieces: spike cube tall triple cubespike skyspike badguy\n\
# Distances are how far down the road. Edit me by hand,\n\
# or use the LEVEL EDITOR in the game!\n\
\n\
level 1 First Steps\n\
speed 8\n\
finish 106\n\
spike 18\n\
tall 22.8\n\
\n\
level 2 Rotten Tomato\n\
boss tomato\n\
speed 9.5\n\
finish 0\n";
    assert_eq!(text, expected);
}

#[test]
fn saving_then_loading_gives_the_same_book() {
    let book = load_level_book(SAMPLE);
    let text = level_book_text(&book);
    let again = load_level_book(&text);
    assert_eq!(again.levels.len(), book.levels.len());
    for i in 0..book.levels.len() {
        assert!(same(&again.levels[i], &book.levels[i]));
    }
    // and writing it again gives the same text
    assert_eq!(level_book_text(&again), text);
}

#[test]
fn negative_distances_round_trip() {
    let book = LevelBook { levels: vec![level("Back", "", -15, 35, vec![(Piece::Cube, 7), (Piece::BadGuy, -1)])] };
    let text = level_book_text(&book);
    assert!(text.contains("speed -1.5\nfinish -3.5\ncube -0.7\nbadguy 0.1\n"));
    let again = load_level_book(&text);
    assert!(same(&again.levels[0], &book.levels[0]));
}

#[test]
fn extreme_values_round_trip() {
    let book = LevelBook {
        levels: vec![
            level("Far", "", i64::MAX, i64::MIN, vec![(Piece::Cube, i64::MIN), (Piece::Spike, i64::MAX)]),
            level("Near", "bat", i64::MIN, i64::MAX, vec![(Piece::Cube, 0)]),
        ],
    };
    let text = level_book_text(&book);
    assert!(text.contains("speed 922337203685477580.7\nfinish 922337203685477580.8\n"));
    let again = load_level_book(&text);
    assert_eq!(again.levels.len(), 2);
    assert!(same(&again.levels[0], &book.levels[0]));
    assert!(same(&again.levels[1], &book.levels[1]));
}

#[test]
fn numbers_too_large_or_malformed_fall_back() {
    let book = load_level_book(
        "level 1 N\nspeed 922337203685477580.8\nfinish 1e\ncube 922337203685477580.8\nspike -922337203685477580.8\ntall 9.25\nskyspike 1e99999999999999999999999\ntriple 1e2e3\nbadguy .e1\n",
    );
    let l = &book.levels[0];
    assert_eq!(l.speed, 80);
    assert_eq!(l.finish, 0);
    assert_eq!(
        l.pieces,
        vec![
            (Piece::Cube, i64::MIN),
            (Piece::Spike, 0),
            (Piece::TallCube, -93),
            (Piece::SkySpike, 0),
            (Piece::TripleCube, 0),
            (Piece::BadGuy, 0),
        ]
    );
}

#[test]
fn numerals_with_exponents_are_read() {
    let book = load_level_book(
        "level 1 N\nspeed 1e1\nfinish 2.5E-1\ncube 1e2\nspike -.05e+1\ntall 3e-5\ntriple 1.e1\nbadguy 0e99999999999999999999999\ncubespike 12E-1\nskyspike -1e-99999999999999999999999\n",
    );
    let l = &book.levels[0];
    assert_eq!(l.speed, 100);
    assert_eq!(l.finish, -3);
    assert_eq!(
        l.pieces,
        vec![
            (Piece::Cube, -1000),
            (Piece::Spike, 5),
            (Piece::TallCube, 0),
            (Piece::TripleCube, -100),
            (Piece::BadGuy, 0),
            (Piece::CubeWithSpike, -12),
            (Piece::SkySpike, 0),
        ]
    );
}

#[test]
fn blank_comment_and_unknown_lines_change_nothing() {
    let plain = load_level_book("level 1 A\nspeed 9\ncube 12\n");
    let noisy = load_level_book(
        "boss nobody\nspeed\n\n  # comment\nlevel 1 A\n\t\n# another\nwobble\nhello there 5\n   speed    9   \ncube 12",
    );
    assert_eq!(noisy.levels.len(), 1);
    assert!(same(&noisy.levels[0], &plain.levels[0]));
}

#[test]
fn setting_lines_before_first_level_change_nothing() {
    let plain = load_level_book("level 1 A\nspeed 9\ncube 12\n");
    let early = load_level_book(
        "speed 3\nfinish 40\ncube 5\nboss tomato\nspike\n\n# notes\nhello 2\nlevel 1 A\nspeed 9\ncube 12\n",
    );
    assert_eq!(early.levels.len(), 1);
    assert!(same(&early.levels[0], &plain.levels[0]));
}

#[test]
fn exponent_numerals_at_the_edge_of_the_book() {
    let book = load_level_book(
        "level 1 N\nspeed 9.223372036854775807e17\nfinish 9.223372036854775808E17\ncube 9.223372036854775808e17\nspike 92233720368547758090e-1\n",
    );
    let l = &book.levels[0];
    assert_eq!(l.speed, i64::MAX);
    assert_eq!(l.finish, i64::MIN);
    assert_eq!(l.pieces, vec![(Piece::Cube, i64::MIN), (Piece::Spike, 0)]);
}
