//! The title screen's menu and the settings screen's starting level.
use vstd::prelude::*;
use crate::editor::{Editor, Screen};
use crate::levels::{label_text, LevelBook};
use crate::text::{chars_of, push_range, push_str, string_from_chars};

verus! {

/// The menu keys pressed in one frame.
pub struct TitleKeys {
    /// 1, Space or Enter.
    pub play: bool,
    /// 2.
    pub settings: bool,
    /// 3.
    pub editor: bool,
}

/// The screen a frame of menu keys leads to; a later menu entry wins over an
/// earlier one.
pub open spec fn title_choice(keys: TitleKeys) -> Option<Screen> {
    if keys.editor {
        Some(Screen::Editor)
    } else if keys.settings {
        Some(Screen::Settings)
    } else if keys.play {
        Some(Screen::Playing)
    } else {
        None
    }
}

/// Reads the title menu keys. Playing from the menu is not playtesting.
pub fn title_keys(editor: &mut Editor, keys: &TitleKeys) -> (next: Option<Screen>)
    ensures
        next == title_choice(*keys),
        final(editor).playtesting == (old(editor).playtesting && !keys.play),
        final(editor).level == old(editor).level,
        final(editor).cursor == old(editor).cursor,
        final(editor).needs_redraw == old(editor).needs_redraw,
{
    let mut next: Option<Screen> = None;
    if keys.play {
        editor.playtesting = false;
        next = Some(Screen::Playing);
    }
    if keys.settings {
        next = Some(Screen::Settings);
    }
    if keys.editor {
        next = Some(Screen::Editor);
    }
    next
}

/// The settings keys pressed in one frame.
pub struct SettingsKeys {
    pub left: bool,
    pub right: bool,
    /// Escape or Enter.
    pub back: bool,
}

/// The starting level after Left (one lower, not below 1) and then Right
/// (one higher, not past the last stage).
pub open spec fn chosen_start(start: int, total: int, keys: SettingsKeys) -> int {
    let s1 = if keys.left && start > 1 {
        start - 1
    } else {
        start
    };
    if keys.right && s1 < total {
        s1 + 1
    } else {
        s1
    }
}

/// Reads the settings keys: changes the starting level and says whether to
/// go back to the title screen.
pub fn settings_keys(starting_level: &mut usize, total: usize, keys: &SettingsKeys) -> (back: bool)
    ensures
        *final(starting_level) == chosen_start(*old(starting_level) as int, total as int, *keys),
        back == keys.back,
{
    if keys.left && *starting_level > 1 {
        *starting_level = *starting_level - 1;
    }
    if keys.right && *starting_level < total {
        *starting_level = *starting_level + 1;
    }
    keys.back
}

/// The starting level stays within the book: from 1 to the number of stages.
pub proof fn law_start_in_book(start: int, total: int, keys: SettingsKeys)
    requires
        1 <= start <= total,
    ensures
        1 <= chosen_start(start, total, keys) <= total,
{
}

/// Left lowers the start by exactly one, Right raises it by exactly one,
/// never below stage 1 or past the last stage; Left then Right (or Right
/// then Left) from inside the book gives the start back, and the start never
/// moves by more than one stage a frame.
pub proof fn law_settings_steps(start: int, total: int)
    requires
        1 <= start <= total,
    ensures
        start > 1 ==> chosen_start(start, total, SettingsKeys { left: true, right: false, back: false })
            == start - 1,
        start == 1 ==> chosen_start(start, total, SettingsKeys { left: true, right: false, back: false })
            == 1,
        start < total ==> chosen_start(start, total, SettingsKeys { left: false, right: true, back: false })
            == start + 1,
        start == total ==> chosen_start(start, total, SettingsKeys { left: false, right: true, back: false })
            == total,
        start > 1 ==> chosen_start(
            chosen_start(start, total, SettingsKeys { left: true, right: false, back: false }),
            total,
            SettingsKeys { left: false, right: true, back: false },
        ) == start,
        start < total ==> chosen_start(
            chosen_start(start, total, SettingsKeys { left: false, right: true, back: false }),
            total,
            SettingsKeys { left: true, right: false, back: false },
        ) == start,
        forall|keys: SettingsKeys|
            -1 <= #[trigger] chosen_start(start, total, keys) - start <= 1,
        forall|keys: SettingsKeys|
            !keys.left && !keys.right ==> #[trigger] chosen_start(start, total, keys) == start,
{
}

pub open spec fn settings_words(book: Seq<crate::levels::LevelView>, start: int) -> Seq<char> {
    "Start at:  <  "@ + label_text(book, start) + "  >\n\npress Left / Right to change\n\nEsc: back to the title screen"@
}

/// The words of the settings screen, naming the starting stage by its label.
pub fn settings_text(book: &LevelBook, start: usize) -> (s: String)
    requires
        start >= 1,
        book.levels@.len() >= 1,
    ensures
        s@ == settings_words(book@, start as int),
{
    let mut out: Vec<char> = Vec::new();
    push_str(&mut out, "Start at:  <  ");
    let label = book.label(start);
    let l = chars_of(label.as_str());
    push_range(&mut out, &l, 0, l.len());
    push_str(&mut out, "  >\n\npress Left / Right to change\n\nEsc: back to the title screen");
    assert(l@.subrange(0, l@.len() as int) =~= l@);
    assert(out@ =~= settings_words(book@, start as int));
    string_from_chars(out)
}

} // verus!
