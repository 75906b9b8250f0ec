//! The level editor's rules: what each key does to the editor and the book.
//!
//!   * forward / back   glide the cursor along the road (whole steps, 6..=240)
//!   * next level       hop to the next stage that is not a boss, wrapping around
//!   * 1..7             place a piece where the cursor is
//!   * delete           delete the pieces under the cursor
//!   * save, playtest, leave   are answered with what the caller must do
use vstd::prelude::*;
use crate::levels::{is_boss, label_text, page_of, views, LevelBook, LevelData, LevelView};
use crate::number::{int_text, nat_text, push_int, push_nat};
use crate::piece::Piece;
use crate::pieces::{delete_pieces, deleted, place_piece, placed};
use crate::text::{chars_of, push_range, push_str, string_from_chars};

verus! {

/// The screens of the game.
#[derive(Clone, Copy, PartialEq, Eq, Debug, Structural)]
pub enum Screen {
    Title,
    Settings,
    Playing,
    Editor,
}

/// What the editor remembers.
pub struct Editor {
    /// Which stage is on the workbench (1 is the first).
    pub level: usize,
    /// Where the cursor is: how many whole units down the road.
    pub cursor: i64,
    /// True while playtesting from the editor.
    pub playtesting: bool,
    /// True when the picture needs redrawing.
    pub needs_redraw: bool,
}

/// The keys pressed in one frame, as the editor reads them.
pub struct EditorKeys {
    /// Right or Up: farther down the road.
    pub forward: bool,
    /// Left or Down: back toward the start.
    pub back: bool,
    /// L: the next stage that is not a boss.
    pub next_level: bool,
    /// Keys 1..7: spike, cube, tall, triple, cube+spike, sky spike, bad guy.
    pub place: [bool; 7],
    /// X or Backspace.
    pub delete: bool,
    /// S.
    pub save: bool,
    /// P.
    pub playtest: bool,
    /// Esc.
    pub leave: bool,
}

/// What the caller must do after the editor has read the keys.
#[derive(Clone, Copy, PartialEq, Eq, Debug, Structural)]
pub struct EditorOutcome {
    /// Write the level book to the level file.
    pub save: bool,
    /// Switch to this screen.
    pub next_screen: Option<Screen>,
}

pub open spec fn clamp(v: int, lo: int, hi: int) -> int {
    if v < lo {
        lo
    } else if v > hi {
        hi
    } else {
        v
    }
}

pub open spec fn cursor_min() -> int {
    6
}

pub open spec fn cursor_max() -> int {
    240
}

/// The cursor after the arrow keys: one step each way, kept on the road.
pub open spec fn moved_cursor(cursor: int, keys: EditorKeys) -> int {
    clamp(
        cursor + (if keys.forward {
            1int
        } else {
            0int
        }) - (if keys.back {
            1int
        } else {
            0int
        }),
        cursor_min(),
        cursor_max(),
    )
}

/// The position (in tenths, minus for down the road) under a cursor.
pub open spec fn spot(cursor: int) -> int {
    -(cursor * 10)
}

/// The stage `j` steps after stage `n`, wrapping from the last back to 1.
pub open spec fn stage_after(n: int, j: int, total: int) -> int {
    (n + j - 1) % total + 1
}

pub open spec fn has_real_level(b: Seq<LevelView>) -> bool {
    exists|i: int| 0 <= i < b.len() && !is_boss(#[trigger] b[i])
}

/// `k` steps after stage `n` is the first stage that is not a boss.
pub open spec fn first_real_after(b: Seq<LevelView>, n: int, k: int) -> bool {
    &&& 1 <= k <= b.len()
    &&& !is_boss(b[stage_after(n, k, b.len() as int) - 1])
    &&& forall|j: int| 1 <= j < k ==> is_boss(#[trigger] b[stage_after(n, j, b.len() as int) - 1])
}

/// The next stage after `n` that is not a boss, wrapping around.
pub open spec fn next_real_stage(b: Seq<LevelView>, n: int) -> int {
    stage_after(n, choose|k: int| first_real_after(b, n, k), b.len() as int)
}

/// The piece that key `k` (0 for "1") places.
pub open spec fn piece_for_key(k: int) -> Piece {
    if k == 0 {
        Piece::Spike
    } else if k == 1 {
        Piece::Cube
    } else if k == 2 {
        Piece::TallCube
    } else if k == 3 {
        Piece::TripleCube
    } else if k == 4 {
        Piece::CubeWithSpike
    } else if k == 5 {
        Piece::SkySpike
    } else {
        Piece::BadGuy
    }
}

/// The level after the first `k` piece keys, in key order.
pub open spec fn place_keys(lv: LevelView, place: Seq<bool>, here: int, k: int) -> LevelView
    decreases k,
{
    if k <= 0 {
        lv
    } else {
        let prev = place_keys(lv, place, here, k - 1);
        if place[k - 1] {
            placed(prev, piece_for_key(k - 1), here)
        } else {
            prev
        }
    }
}

/// The level after all piece keys and then the delete key.
pub open spec fn edited(lv: LevelView, keys: EditorKeys, here: int) -> LevelView {
    let p = place_keys(lv, keys.place@, here, 7);
    if keys.delete {
        deleted(p, here)
    } else {
        p
    }
}

pub open spec fn any_place(keys: EditorKeys) -> bool {
    exists|k: int| 0 <= k < 7 && keys.place@[k]
}

/// Whether the keys change the pieces of a level (a piece key or delete).
pub open spec fn edits_pieces(keys: EditorKeys) -> bool {
    any_place(keys) || keys.delete
}

/// The seven piece keys place seven different pieces, and every kind of
/// piece has its key: 1 spike, 2 cube, 3 tall cube, 4 triple cube, 5 cube
/// with a spike, 6 sky spike, 7 bad guy.
pub proof fn law_piece_keys(k1: int, k2: int, p: Piece)
    requires
        0 <= k1 < 7,
        0 <= k2 < 7,
    ensures
        k1 != k2 ==> piece_for_key(k1) != piece_for_key(k2),
        exists|k: int| 0 <= k < 7 && #[trigger] piece_for_key(k) == p,
        piece_for_key(0) == Piece::Spike,
        piece_for_key(1) == Piece::Cube,
        piece_for_key(2) == Piece::TallCube,
        piece_for_key(3) == Piece::TripleCube,
        piece_for_key(4) == Piece::CubeWithSpike,
        piece_for_key(5) == Piece::SkySpike,
        piece_for_key(6) == Piece::BadGuy,
{
    let k: int = match p {
        Piece::Spike => 0,
        Piece::Cube => 1,
        Piece::TallCube => 2,
        Piece::TripleCube => 3,
        Piece::CubeWithSpike => 4,
        Piece::SkySpike => 5,
        Piece::BadGuy => 6,
    };
    assert(piece_for_key(k) == p);
}

/// The cursor never leaves the road: it stays between 6 and 240.
pub proof fn law_cursor_on_road(cursor: int, keys: EditorKeys)
    ensures
        cursor_min() <= moved_cursor(cursor, keys) <= cursor_max(),
{
}

impl Editor {
    /// The editor as the game starts it: stage 1, cursor at 18.
    pub fn new() -> (e: Editor)
        ensures
            e.level == 1,
            e.cursor == 18,
            !e.playtesting,
            e.needs_redraw,
    {
        Editor { level: 1, cursor: 18, playtesting: false, needs_redraw: true }
    }

    /// Opening the editor screen: not playtesting, and the picture is drawn
    /// afresh; the stage and the cursor stay where they were.
    pub fn open(&mut self)
        ensures
            final(self).level == old(self).level,
            final(self).cursor == old(self).cursor,
            !final(self).playtesting,
            final(self).needs_redraw,
    {
        self.playtesting = false;
        self.needs_redraw = true;
    }
}

proof fn lemma_stage_after_step(n: int, j: int, total: int)
    requires
        total >= 1,
    ensures
        stage_after(n, j, total) % total + 1 == stage_after(n, j + 1, total),
        1 <= stage_after(n, j, total) <= total,
{
    let x = n + j - 1;
    vstd::arithmetic::div_mod::lemma_mod_bound(x, total);
    vstd::arithmetic::div_mod::lemma_mod_bound(x + 1, total);
    if total == 1 {
        vstd::arithmetic::div_mod::lemma_mod_bound(x % total + 1, total);
    } else {
        vstd::arithmetic::div_mod::lemma_add_mod_noop(x, 1, total);
        vstd::arithmetic::div_mod::lemma_small_mod(1, total as nat);
    }
}

/// The offset at which a given stage comes after `n`.
proof fn lemma_reaches(n: int, i: int, total: int) -> (j: int)
    requires
        total >= 1,
        0 <= i < total,
    ensures
        1 <= j <= total,
        stage_after(n, j, total) == i + 1,
{
    let j = (i - n) % total + 1;
    vstd::arithmetic::div_mod::lemma_mod_bound(i - n, total);
    vstd::arithmetic::div_mod::lemma_add_mod_noop_right(n, i - n, total);
    vstd::arithmetic::div_mod::lemma_small_mod(i as nat, total as nat);
    assert(n + j - 1 == n + (i - n) % total);
    j
}

/// Searching forward from offset `j` finds the first stage that is not a boss.
proof fn lemma_first_real_exists(b: Seq<LevelView>, n: int, j: int, jstar: int)
    requires
        b.len() >= 1,
        1 <= j <= jstar <= b.len(),
        !is_boss(b[stage_after(n, jstar, b.len() as int) - 1]),
        forall|i: int| 1 <= i < j ==> is_boss(#[trigger] b[stage_after(n, i, b.len() as int) - 1]),
    ensures
        exists|k: int| first_real_after(b, n, k),
    decreases jstar - j,
{
    lemma_stage_after_step(n, j, b.len() as int);
    if !is_boss(b[stage_after(n, j, b.len() as int) - 1]) {
        assert(first_real_after(b, n, j));
    } else {
        lemma_first_real_exists(b, n, j + 1, jstar);
    }
}

/// Switching levels in the editor always lands on a stage of the book that
/// is not a boss, when the book has one.
pub proof fn law_next_stage_is_real(b: Seq<LevelView>, n: int)
    requires
        has_real_level(b),
    ensures
        1 <= next_real_stage(b, n) <= b.len(),
        !is_boss(b[next_real_stage(b, n) - 1]),
{
    let i = choose|i: int| 0 <= i < b.len() && !is_boss(#[trigger] b[i]);
    let jstar = lemma_reaches(n, i, b.len() as int);
    lemma_first_real_exists(b, n, 1, jstar);
    let k = choose|k: int| first_real_after(b, n, k);
    lemma_stage_after_step(n, k, b.len() as int);
}

/// Whether the book has a stage that is not a boss.
pub fn any_real_level(book: &LevelBook) -> (b: bool)
    ensures
        b == has_real_level(book@),
{
    let mut i: usize = 0;
    while i < book.levels.len()
        invariant
            i <= book.levels@.len(),
            forall|j: int| 0 <= j < i ==> is_boss(#[trigger] book@[j]),
        decreases book.levels@.len() - i,
    {
        assert(book@[i as int] == book.levels@[i as int]@);
        if book.levels[i].boss.as_str().is_empty() {
            return true;
        }
        i = i + 1;
    }
    false
}

/// The next stage after `level` that is not a boss, wrapping from the last
/// stage back to stage 1.
pub fn next_real_level(book: &LevelBook, level: usize) -> (r: usize)
    requires
        has_real_level(book@),
    ensures
        r == next_real_stage(book@, level as int),
        1 <= r <= book@.len(),
        !is_boss(book@[r - 1]),
{
    let ghost b = book@;
    let total = book.levels.len();
    let ghost i = choose|i: int| 0 <= i < b.len() && !is_boss(#[trigger] b[i]);
    let ghost jstar = lemma_reaches(level as int, i, total as int);
    let mut next = level;
    let mut steps: usize = 0;
    proof {
        vstd::arithmetic::div_mod::lemma_mod_pos_bound(level as int, total as int);
    }
    loop
        invariant
            total == b.len() >= 1,
            b == book@,
            book.levels@.len() == total,
            0 <= steps < jstar <= total,
            !is_boss(b[stage_after(level as int, jstar, total as int) - 1]),
            steps == 0 ==> next == level,
            steps > 0 ==> next == stage_after(level as int, steps as int, total as int),
            forall|j: int| 1 <= j <= steps ==> is_boss(#[trigger] b[stage_after(level as int, j, total as int) - 1]),
        decreases jstar - steps,
    {
        proof {
            if steps > 0 {
                lemma_stage_after_step(level as int, steps as int, total as int);
            } else {
                assert(stage_after(level as int, 1, total as int) == (level as int) % (total as int) + 1);
            }
            lemma_stage_after_step(level as int, steps + 1, total as int);
        }
        next = next % total + 1;
        steps = steps + 1;
        assert(book@[next - 1] == book.levels@[next - 1]@);
        if book.levels[next - 1].boss.as_str().is_empty() {
            proof {
                let k = choose|k: int| first_real_after(b, level as int, k);
                assert(first_real_after(b, level as int, steps as int));
                if k < steps {
                    assert(is_boss(b[stage_after(level as int, k, total as int) - 1]));
                } else if k > steps {
                    assert(is_boss(b[stage_after(level as int, steps as int, total as int) - 1]));
                }
            }
            return next;
        }
        assert(steps < jstar);
    }
}

/// Reads one frame of keys: moves the cursor, switches stage, places and
/// deletes pieces in the book, and answers what the caller must do (save the
/// book, switch screens).
pub fn editor_keys(editor: &mut Editor, book: &mut LevelBook, keys: &EditorKeys) -> (out: EditorOutcome)
    requires
        keys.next_level ==> has_real_level(old(book)@),
        edits_pieces(*keys) ==> old(book).levels@.len() >= 1,
        edits_pieces(*keys) && !keys.next_level ==> old(editor).level >= 1,
    ensures
        final(editor).cursor == moved_cursor(old(editor).cursor as int, *keys),
        cursor_min() <= final(editor).cursor <= cursor_max(),
        final(editor).level == if keys.next_level {
            next_real_stage(old(book)@, old(editor).level as int)
        } else {
            old(editor).level as int
        },
        old(editor).level >= 1 || keys.next_level ==> final(editor).level >= 1,
        final(editor).playtesting == (keys.playtest || old(editor).playtesting),
        final(editor).needs_redraw == (old(editor).needs_redraw || keys.next_level || any_place(*keys)
            || keys.delete),
        final(book)@ == if edits_pieces(*keys) {
            old(book)@.update(
                page_of(final(editor).level as int, old(book)@.len() as int),
                edited(
                    old(book)@[page_of(final(editor).level as int, old(book)@.len() as int)],
                    *keys,
                    spot(final(editor).cursor as int),
                ),
            )
        } else {
            old(book)@
        },
        out.save == keys.save,
        out.next_screen == if keys.leave {
            Some(Screen::Title)
        } else if keys.playtest {
            Some(Screen::Playing)
        } else {
            None::<Screen>
        },
{
    // the arrow keys
    let mut c = editor.cursor;
    if keys.forward && c < i64::MAX {
        c = c + 1;
    }
    if keys.back && c > i64::MIN {
        c = c - 1;
    }
    if c < 6 {
        c = 6;
    }
    if c > 240 {
        c = 240;
    }
    editor.cursor = c;
    // the next stage that is not a boss
    if keys.next_level {
        editor.level = next_real_level(book, editor.level);
        editor.needs_redraw = true;
    }
    let edits = keys.place[0] || keys.place[1] || keys.place[2] || keys.place[3] || keys.place[4]
        || keys.place[5] || keys.place[6] || keys.delete;
    proof {
        if any_place(*keys) {
            let j = choose|j: int| 0 <= j < 7 && keys.place@[j];
            assert(keys.place@[j]);
        }
        if keys.place@[0] || keys.place@[1] || keys.place@[2] || keys.place@[3] || keys.place@[4]
            || keys.place@[5] || keys.place@[6] {
            assert(any_place(*keys));
        }
    }
    if edits {
        let ghost b0 = book@;
        let ghost page = page_of(editor.level as int, b0.len() as int);
        let ghost lv0 = b0[page];
        let here: i64 = -(c * 10);
        let choices: [Piece; 7] = [
            Piece::Spike,
            Piece::Cube,
            Piece::TallCube,
            Piece::TripleCube,
            Piece::CubeWithSpike,
            Piece::SkySpike,
            Piece::BadGuy,
        ];
        let mut k: usize = 0;
        while k < 7
            invariant
                k <= 7,
                choices@ == seq![
                    Piece::Spike,
                    Piece::Cube,
                    Piece::TallCube,
                    Piece::TripleCube,
                    Piece::CubeWithSpike,
                    Piece::SkySpike,
                    Piece::BadGuy,
                ],
                editor.level >= 1,
                book.levels@.len() == b0.len(),
                b0.len() >= 1,
                page == page_of(editor.level as int, b0.len() as int),
                0 <= page < b0.len(),
                lv0 == b0[page],
                -2400 <= here <= -60,
                book@ == b0.update(page, place_keys(lv0, keys.place@, here as int, k as int)),
                editor.needs_redraw == (old(editor).needs_redraw || keys.next_level || exists|j: int|
                    0 <= j < k && keys.place@[j]),
                editor.cursor == c,
                editor.level == (if keys.next_level {
                    next_real_stage(old(book)@, old(editor).level as int)
                } else {
                    old(editor).level as int
                }),
                editor.playtesting == old(editor).playtesting,
                b0 == old(book)@,
            decreases 7 - k,
        {
            let ghost pk = place_keys(lv0, keys.place@, here as int, k as int);
            if keys.place[k] {
                let ghost before = book.levels@;
                assert(views(before)[page] == pk);
                let level = book.get_mut(editor.level);
                place_piece(level, choices[k], here);
                proof {
                    assert(piece_for_key(k as int) == choices@[k as int]);
                    assert(book.levels@[page]@ == placed(pk, piece_for_key(k as int), here as int));
                    let nb = b0.update(page, placed(pk, piece_for_key(k as int), here as int));
                    assert forall|j: int| 0 <= j < nb.len() implies #[trigger] views(book.levels@)[j] == nb[j] by {
                        if j != page {
                            assert(book.levels@[j] == before[j]);
                            assert(views(before)[j] == before[j]@);
                        }
                    }
                    assert(views(book.levels@) =~= nb);
                }
                editor.needs_redraw = true;
            }
            proof {
                assert(place_keys(lv0, keys.place@, here as int, k + 1) == if keys.place@[k as int] {
                    placed(pk, piece_for_key(k as int), here as int)
                } else {
                    pk
                });
            }
            k = k + 1;
        }
        // deleting
        let ghost p7 = place_keys(lv0, keys.place@, here as int, 7);
        if keys.delete {
            let ghost before = book.levels@;
            assert(views(before)[page] == p7);
            let level = book.get_mut(editor.level);
            delete_pieces(level, here);
            proof {
                assert(book.levels@[page]@ == deleted(p7, here as int));
                let nb = b0.update(page, deleted(p7, here as int));
                assert forall|j: int| 0 <= j < nb.len() implies #[trigger] views(book.levels@)[j] == nb[j] by {
                    if j != page {
                        assert(book.levels@[j] == before[j]);
                        assert(views(before)[j] == before[j]@);
                    }
                }
                assert(views(book.levels@) =~= nb);
            }
            editor.needs_redraw = true;
        }
        assert(book@ =~= b0.update(page, edited(lv0, *keys, here as int)));
    } else {
        proof {
            assert(!(exists|j: int| 0 <= j < 7 && keys.place@[j]));
        }
    }
    // playtesting and leaving
    let mut next_screen: Option<Screen> = None;
    if keys.playtest {
        editor.playtesting = true;
        next_screen = Some(Screen::Playing);
    }
    if keys.leave {
        next_screen = Some(Screen::Title);
    }
    EditorOutcome { save: keys.save, next_screen }
}

/// The status words: "EDITING  <label>     spot <cursor>     <n> pieces     <message>".
pub open spec fn status_words(book: Seq<LevelView>, level: int, cursor: int, message: Seq<char>) -> Seq<
    char,
> {
    "EDITING  "@ + label_text(book, level) + "     spot "@ + int_text(cursor) + "     "@ + nat_text(
        book[page_of(level, book.len() as int)].pieces.len(),
    ) + " pieces     "@ + message
}

/// The status line of the editor: the stage being edited, the cursor spot,
/// the number of pieces on that stage, and a message such as "SAVED!".
pub fn status_text(book: &LevelBook, editor: &Editor, message: &str) -> (s: String)
    requires
        editor.level >= 1,
        book.levels@.len() >= 1,
    ensures
        s@ == status_words(book@, editor.level as int, editor.cursor as int, message@),
{
    let mut out: Vec<char> = Vec::new();
    push_str(&mut out, "EDITING  ");
    let label = book.label(editor.level);
    let l = chars_of(label.as_str());
    push_range(&mut out, &l, 0, l.len());
    push_str(&mut out, "     spot ");
    push_int(&mut out, editor.cursor);
    push_str(&mut out, "     ");
    let n = book.get(editor.level).pieces.len();
    push_nat(&mut out, n as u64);
    push_str(&mut out, " pieces     ");
    push_str(&mut out, message);
    assert(l@.subrange(0, l@.len() as int) =~= l@);
    assert(out@ =~= status_words(book@, editor.level as int, editor.cursor as int, message@));
    string_from_chars(out)
}

} // verus!
