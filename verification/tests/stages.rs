use bunny_dash::levels::{LevelBook, LevelData};
use bunny_dash::piece::Piece;

fn stage(name: &str, boss: &str) -> LevelData {
    LevelData { name: name.to_string(), speed: 80, finish: -1000, boss: boss.to_string(), pieces: vec![] }
}

/// Three levels, a boss, three levels, a boss, three levels, a boss.
fn book() -> LevelBook {
    LevelBook {
        levels: vec![
            stage("First Steps", ""),
            stage("Hop Hop", ""),
            stage("Cube Town", ""),
            stage("Rotten Tomato", "tomato"),
            stage("Sky Stairs", ""),
            stage("Spike Alley", ""),
            stage("Bridges", ""),
            stage("Cursed Thorn", "thorn"),
            stage("Night Run", ""),
            stage("Double Trouble", ""),
            stage("Last Stretch", ""),
            stage("BAD BAT", "bat"),
        ],
    }
}

#[test]
fn stage_after_first_boss_is_level_four() {
    let b = book();
    assert_eq!(b.level_number(5), 4);
    assert_eq!(b.label(5), "Level 4: Sky Stairs");
}

#[test]
fn cursed_thorn_is_boss_two() {
    let b = book();
    assert_eq!(b.boss_number(8), 2);
    assert_eq!(b.label(8), "Boss 2: Cursed Thorn");
    assert_eq!(b.label(4), "Boss 1: Rotten Tomato");
    assert_eq!(b.label(1), "Level 1: First Steps");
}

#[test]
fn level_and_boss_numbers_add_up() {
    let b = book();
    for s in 0..15 {
        assert_eq!(b.level_number(s) + b.boss_number(s), s.min(12));
    }
    assert_eq!(b.level_number(0), 0);
    assert_eq!(b.level_number(100), 9);
    assert_eq!(b.boss_number(100), 3);
}

#[test]
fn get_reads_past_the_end_as_last_page() {
    let b = book();
    assert_eq!(b.get(1).name, "First Steps");
    assert_eq!(b.get(12).name, "BAD BAT");
    assert_eq!(b.get(40).name, "BAD BAT");
    assert_eq!(b.label(40), "Boss 3: BAD BAT");
}

#[test]
fn get_mut_changes_the_right_page() {
    let mut b = book();
    b.get_mut(2).pieces.push((Piece::Spike, -180));
    b.get_mut(99).name = "Bat Cave".to_string();
    assert_eq!(b.levels[1].pieces, vec![(Piece::Spike, -180)]);
    assert_eq!(b.levels[11].name, "Bat Cave");
    assert_eq!(b.levels[0].pieces.len(), 0);
}
