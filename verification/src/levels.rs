//! The level book: every stage of the game, looked up by stage number.
use vstd::prelude::*;
use crate::number::{nat_text, push_nat};
use crate::piece::Piece;
use crate::text::{push_range, push_str, string_from_chars};

verus! {

/// One stage of the game as the contracts see it. Speeds and distances are
/// in tenths of a unit; `finish` and the pieces' positions are negative for
/// "down the road", as in the game world.
#[verifier::ext_equal]
pub struct LevelView {
    pub name: Seq<char>,
    pub speed: i64,
    pub finish: i64,
    pub boss: Seq<char>,
    pub pieces: Seq<(Piece, i64)>,
}

/// Everything we know about one stage of the game.
pub struct LevelData {
    pub name: String,
    /// How fast the level slides toward the bunny, in tenths of a unit per second.
    pub speed: i64,
    /// Where the golden gate is, in tenths (a minus number, like pieces).
    pub finish: i64,
    /// Which boss lives here ("tomato", "thorn", "bat"); empty for a normal level.
    pub boss: String,
    /// The pieces, each with its position in tenths.
    pub pieces: Vec<(Piece, i64)>,
}

impl View for LevelData {
    type V = LevelView;

    open spec fn view(&self) -> LevelView {
        LevelView {
            name: self.name@,
            speed: self.speed,
            finish: self.finish,
            boss: self.boss@,
            pieces: self.pieces@,
        }
    }
}

/// The whole book of levels. Stage 1 is the first page.
pub struct LevelBook {
    pub levels: Vec<LevelData>,
}

impl View for LevelBook {
    type V = Seq<LevelView>;

    open spec fn view(&self) -> Seq<LevelView> {
        views(self.levels@)
    }
}

/// The views of a sequence of levels.
pub open spec fn views(v: Seq<LevelData>) -> Seq<LevelView> {
    v.map_values(|l: LevelData| l@)
}

/// The page a stage is read from: stage `s` is page `s - 1`, and stages past
/// the end read the last page.
pub open spec fn page_of(stage: int, len: int) -> int {
    if stage - 1 < len - 1 {
        stage - 1
    } else {
        len - 1
    }
}

pub open spec fn is_boss(l: LevelView) -> bool {
    l.boss.len() > 0
}

/// How many of `ls` are real levels (not bosses).
pub open spec fn count_levels(ls: Seq<LevelView>) -> nat
    decreases ls.len(),
{
    if ls.len() == 0 {
        0
    } else {
        count_levels(ls.drop_last()) + if is_boss(ls.last()) {
            0nat
        } else {
            1nat
        }
    }
}

/// How many of `ls` are bosses.
pub open spec fn count_bosses(ls: Seq<LevelView>) -> nat
    decreases ls.len(),
{
    if ls.len() == 0 {
        0
    } else {
        count_bosses(ls.drop_last()) + if is_boss(ls.last()) {
            1nat
        } else {
            0nat
        }
    }
}

pub open spec fn min(a: int, b: int) -> int {
    if a < b {
        a
    } else {
        b
    }
}

/// The stages up to and including `stage`.
pub open spec fn stages_upto(book: Seq<LevelView>, stage: int) -> Seq<LevelView> {
    book.take(min(stage, book.len() as int))
}

/// "Level 4: Sky Stairs" for a real level, "Boss 1: Rotten Tomato" for a boss.
pub open spec fn label_text(book: Seq<LevelView>, stage: int) -> Seq<char> {
    let data = book[page_of(stage, book.len() as int)];
    if is_boss(data) {
        seq!['B', 'o', 's', 's', ' '] + nat_text(count_bosses(stages_upto(book, stage))) + seq![
            ':',
            ' ',
        ] + data.name
    } else {
        seq!['L', 'e', 'v', 'e', 'l', ' '] + nat_text(count_levels(stages_upto(book, stage)))
            + seq![':', ' '] + data.name
    }
}

proof fn lemma_counts_add_up(ls: Seq<LevelView>)
    ensures
        count_levels(ls) + count_bosses(ls) == ls.len(),
    decreases ls.len(),
{
    if ls.len() > 0 {
        lemma_counts_add_up(ls.drop_last());
    }
}

/// Every stage up to `stage` is counted once: as a level or as a boss.
pub proof fn law_numbers_add_up(book: Seq<LevelView>, stage: int)
    requires
        stage >= 0,
    ensures
        count_levels(stages_upto(book, stage)) + count_bosses(stages_upto(book, stage)) == min(
            stage,
            book.len() as int,
        ),
{
    lemma_counts_add_up(stages_upto(book, stage));
}

impl LevelBook {
    /// Looks up one level. Level 1 is the first page; stages past the last
    /// page read the last page.
    pub fn get(&self, level: usize) -> (data: &LevelData)
        requires
            level >= 1,
            self.levels@.len() >= 1,
        ensures
            *data == self.levels@[page_of(level as int, self.levels@.len() as int)],
            data@ == self@[page_of(level as int, self.levels@.len() as int)],
    {
        let last = self.levels.len() - 1;
        let page = if level - 1 < last {
            level - 1
        } else {
            last
        };
        &self.levels[page]
    }

    /// Looks up one level to change it.
    pub fn get_mut(&mut self, level: usize) -> (data: &mut LevelData)
        requires
            level >= 1,
            old(self).levels@.len() >= 1,
        ensures
            *data == old(self).levels@[page_of(level as int, old(self).levels@.len() as int)],
            final(self).levels@ == old(self).levels@.update(
                page_of(level as int, old(self).levels@.len() as int),
                *final(data),
            ),
    {
        let last = self.levels.len() - 1;
        let page = if level - 1 < last {
            level - 1
        } else {
            last
        };
        &mut self.levels[page]
    }

    /// Counts the real levels (not bosses) among the stages up to `stage`,
    /// so the stage after the first boss is shown one number lower.
    pub fn level_number(&self, stage: usize) -> (n: usize)
        ensures
            n == count_levels(stages_upto(self@, stage as int)),
    {
        let end = if stage < self.levels.len() {
            stage
        } else {
            self.levels.len()
        };
        let mut count: usize = 0;
        let mut page: usize = 0;
        while page < end
            invariant
                end <= self.levels@.len(),
                end == min(stage as int, self@.len() as int),
                page <= end,
                count <= page,
                count == count_levels(self@.take(page as int)),
            decreases end - page,
        {
            proof {
                assert(self@.take(page + 1).drop_last() =~= self@.take(page as int));
                assert(self@[page as int] == self.levels@[page as int]@);
            }
            if self.levels[page].boss.as_str().is_empty() {
                count = count + 1;
            }
            page = page + 1;
        }
        count
    }

    /// Counts the bosses among the stages up to `stage`.
    pub fn boss_number(&self, stage: usize) -> (n: usize)
        ensures
            n == count_bosses(stages_upto(self@, stage as int)),
    {
        let end = if stage < self.levels.len() {
            stage
        } else {
            self.levels.len()
        };
        let mut count: usize = 0;
        let mut page: usize = 0;
        while page < end
            invariant
                end <= self.levels@.len(),
                end == min(stage as int, self@.len() as int),
                page <= end,
                count <= page,
                count == count_bosses(self@.take(page as int)),
            decreases end - page,
        {
            proof {
                assert(self@.take(page + 1).drop_last() =~= self@.take(page as int));
                assert(self@[page as int] == self.levels@[page as int]@);
            }
            if !self.levels[page].boss.as_str().is_empty() {
                count = count + 1;
            }
            page = page + 1;
        }
        count
    }

    /// The one name tag of a stage, the same on every screen:
    /// "Level 4: Sky Stairs" for real levels, "Boss 1: Rotten Tomato" for bosses.
    pub fn label(&self, stage: usize) -> (s: String)
        requires
            stage >= 1,
            self.levels@.len() >= 1,
        ensures
            s@ == label_text(self@, stage as int),
    {
        let data = self.get(stage);
        let mut out: Vec<char> = Vec::new();
        if data.boss.as_str().is_empty() {
            push_str(&mut out, "Level ");
            let n = self.level_number(stage);
            push_nat(&mut out, n as u64);
        } else {
            push_str(&mut out, "Boss ");
            let n = self.boss_number(stage);
            push_nat(&mut out, n as u64);
        }
        push_str(&mut out, ": ");
        let name = crate::text::chars_of(data.name.as_str());
        push_range(&mut out, &name, 0, name.len());
        proof {
            reveal_strlit("Level ");
            reveal_strlit("Boss ");
            reveal_strlit(": ");
            assert(name@.subrange(0, name@.len() as int) =~= data.name@);
            assert(out@ =~= label_text(self@, stage as int));
        }
        string_from_chars(out)
    }
}

} // verus!
