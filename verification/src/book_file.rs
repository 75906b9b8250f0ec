//! The level file: reading the level book from its text, and writing it back.
//!
//! The file is read one line at a time. Empty lines and lines starting with
//! `#` are skipped. `level N Some Name` starts a new level named by the words
//! after the number; `boss W`, `speed X`, `finish X` and `<piece> X` change the
//! level started last (and are ignored before the first level).
use vstd::prelude::*;
use crate::levels::{LevelBook, LevelData, LevelView, views};
use crate::number::{is_digit, lemma_nat_text, lemma_tenths_roundtrip, nat_text, parse_tenths, parse_tenths_at, push_nat, push_neg_tenths, push_tenths, tenths_text};
use crate::piece::{Piece, piece_at, piece_of_word, piece_to_word, word_of};
use crate::text::{chars_of, has_newline, is_plain_name, is_space, is_word, join_words, lemma_words_are_words, lemma_words_word_space, lemma_line_len, lemma_lines_text_push, line_end, lines_of, lines_text, push_range, push_str, range_is, split_words, string_from_chars, words};

verus! {

pub open spec fn kw_level() -> Seq<char> {
    seq!['l', 'e', 'v', 'e', 'l']
}

pub open spec fn kw_boss() -> Seq<char> {
    seq!['b', 'o', 's', 's']
}

pub open spec fn kw_speed() -> Seq<char> {
    seq!['s', 'p', 'e', 'e', 'd']
}

pub open spec fn kw_finish() -> Seq<char> {
    seq!['f', 'i', 'n', 'i', 's', 'h']
}

/// The speed of a level whose file gives none (8 units per second).
pub open spec fn default_speed() -> i64 {
    80
}

/// A level as a `level` line starts it.
pub open spec fn new_level(name: Seq<char>) -> LevelView {
    LevelView { name, speed: default_speed(), finish: 0, boss: seq![], pieces: seq![] }
}

pub open spec fn fits_i64(v: int) -> bool {
    i64::MIN <= v <= i64::MAX
}

/// The tenths that a numeral word gives, or `d` when the word is no numeral
/// or its value does not fit the book.
pub open spec fn value_or(w: Seq<char>, d: int) -> int {
    match parse_tenths(w) {
        Some(v) => if fits_i64(v) {
            v
        } else {
            d
        },
        None => d,
    }
}

/// The position of something a numeral word puts that far down the road:
/// minus its value, or 0 when the word is no numeral or the position does
/// not fit the book.
pub open spec fn position_or_zero(w: Seq<char>) -> int {
    match parse_tenths(w) {
        Some(v) => if fits_i64(-v) {
            -v
        } else {
            0
        },
        None => 0,
    }
}

/// Words that change the level started last.
pub open spec fn is_setting_word(w: Seq<char>) -> bool {
    w == kw_boss() || w == kw_speed() || w == kw_finish() || piece_of_word(w) is Some
}

/// What a `boss`, `speed`, `finish` or piece line (words `ws`) does to a level.
pub open spec fn apply_setting(lv: LevelView, ws: Seq<Seq<char>>) -> LevelView {
    if ws[0] == kw_boss() {
        LevelView { boss: ws[1], ..lv }
    } else if ws[0] == kw_speed() {
        LevelView { speed: value_or(ws[1], default_speed() as int) as i64, ..lv }
    } else if ws[0] == kw_finish() {
        LevelView { finish: position_or_zero(ws[1]) as i64, ..lv }
    } else {
        LevelView {
            pieces: lv.pieces.push(
                (piece_of_word(ws[0]).unwrap(), position_or_zero(ws[1]) as i64),
            ),
            ..lv
        }
    }
}

/// The book after one more line; `None` for a line that the book cannot be
/// read past (`level` without a number, or a setting word with no value
/// while a level is open).
pub open spec fn read_line(book: Seq<LevelView>, line: Seq<char>) -> Option<Seq<LevelView>> {
    let ws = words(line);
    if ws.len() == 0 || ws[0][0] == '#' {
        Some(book)
    } else if ws[0] == kw_level() {
        if ws.len() < 2 {
            None
        } else {
            Some(book.push(new_level(join_words(ws.skip(2)))))
        }
    } else if book.len() == 0 || !is_setting_word(ws[0]) {
        Some(book)
    } else if ws.len() < 2 {
        None
    } else {
        Some(book.update(book.len() - 1, apply_setting(book.last(), ws)))
    }
}

pub open spec fn read_lines(book: Seq<LevelView>, lines: Seq<Seq<char>>) -> Option<Seq<LevelView>>
    decreases lines.len(),
{
    if lines.len() == 0 {
        Some(book)
    } else {
        match read_line(book, lines[0]) {
            Some(b) => read_lines(b, lines.drop_first()),
            None => None,
        }
    }
}

/// The level book that a level file describes, if it can be read.
pub open spec fn read_book(text: Seq<char>) -> Option<Seq<LevelView>> {
    read_lines(seq![], lines_of(text))
}

pub proof fn lemma_join_words_push(ws: Seq<Seq<char>>, w: Seq<char>)
    ensures
        join_words(ws.push(w)) == if ws.len() == 0 {
            w
        } else {
            join_words(ws) + seq![' '] + w
        },
    decreases ws.len(),
{
    if ws.len() == 1 {
        let p = ws.push(w);
        assert(p.drop_first() =~= seq![w]);
        assert(join_words(seq![w]) == w);
    } else if ws.len() > 1 {
        lemma_join_words_push(ws.drop_first(), w);
        assert(ws.push(w).drop_first() =~= ws.drop_first().push(w));
        assert(ws[0] + seq![' '] + (join_words(ws.drop_first()) + seq![' '] + w) =~= ws[0] + seq![
            ' ',
        ] + join_words(ws.drop_first()) + seq![' '] + w);
    }
}

/// The characters `v[start..end]` as a `String`.
fn string_of_range(v: &Vec<char>, start: usize, end: usize) -> (s: String)
    requires
        start <= end <= v@.len(),
    ensures
        s@ == v@.subrange(start as int, end as int),
{
    let mut out: Vec<char> = Vec::new();
    push_range(&mut out, v, start, end);
    assert(out@ =~= v@.subrange(start as int, end as int));
    string_from_chars(out)
}

/// `value_or` of the word `t[start..end]`.
fn value_at(t: &Vec<char>, start: usize, end: usize, d: i64) -> (v: i64)
    requires
        start <= end <= t@.len(),
    ensures
        v == value_or(t@.subrange(start as int, end as int), d as int),
{
    match parse_tenths_at(t, start, end) {
        Some(v) => {
            if -9_223_372_036_854_775_808i128 <= v && v <= 9_223_372_036_854_775_807i128 {
                v as i64
            } else {
                d
            }
        },
        None => d,
    }
}

/// `position_or_zero` of the word `t[start..end]`.
fn position_at(t: &Vec<char>, start: usize, end: usize) -> (z: i64)
    requires
        start <= end <= t@.len(),
    ensures
        z == position_or_zero(t@.subrange(start as int, end as int)),
{
    match parse_tenths_at(t, start, end) {
        Some(v) => {
            if -9_223_372_036_854_775_807i128 <= v && v <= 9_223_372_036_854_775_808i128 {
                (-v) as i64
            } else {
                0
            }
        },
        None => 0,
    }
}

/// Reads one line `t[start..end]` into the levels read so far.
fn read_line_into(levels: &mut Vec<LevelData>, t: &Vec<char>, start: usize, end: usize) -> (ok: bool)
    requires
        start <= end <= t@.len(),
    ensures
        match read_line(views(old(levels)@), t@.subrange(start as int, end as int)) {
            Some(b) => ok && views(final(levels)@) == b,
            None => !ok,
        },
{
    let ghost line = t@.subrange(start as int, end as int);
    let ghost book = views(levels@);
    let toks = split_words(t, start, end);
    let ghost f = |r: (usize, usize)| t@.subrange(r.0 as int, r.1 as int);
    let ghost ws = words(line);
    assert(toks@.map_values(f) == ws);
    if toks.len() == 0 {
        return true;
    }
    let (a, b) = toks[0];
    assert(ws[0] == t@.subrange(a as int, b as int));
    assert(ws[0][0] == t@[a as int]);
    if t[a] == '#' {
        return true;
    }
    proof {
        reveal_strlit("level");
        reveal_strlit("boss");
        reveal_strlit("speed");
        reveal_strlit("finish");
        assert("level"@ =~= kw_level());
        assert("boss"@ =~= kw_boss());
        assert("speed"@ =~= kw_speed());
        assert("finish"@ =~= kw_finish());
    }
    if range_is(t, a, b, "level") {
        if toks.len() < 2 {
            return false;
        }
        let mut name: Vec<char> = Vec::new();
        let mut k: usize = 2;
        assert forall|i: int| 0 <= i < toks@.len() implies ws[i] == t@.subrange(
            (#[trigger] toks@[i]).0 as int,
            toks@[i].1 as int,
        ) by {
            assert(toks@.map_values(f)[i] == f(toks@[i]));
        }
        while k < toks.len()
            invariant
                2 <= k <= toks@.len(),
                ws.len() == toks@.len(),
                forall|i: int|
                    0 <= i < toks@.len() ==> ws[i] == t@.subrange(
                        (#[trigger] toks@[i]).0 as int,
                        toks@[i].1 as int,
                    ),
                forall|i: int|
                    0 <= i < toks@.len() ==> start <= (#[trigger] toks@[i]).0 < toks@[i].1 <= end,
                end <= t@.len(),
                name@ == join_words(ws.skip(2).take(k - 2)),
            decreases toks@.len() - k,
        {
            let (c, d) = toks[k];
            proof {
                lemma_join_words_push(ws.skip(2).take(k - 2), ws[k as int]);
                assert(ws.skip(2).take(k - 1) =~= ws.skip(2).take(k - 2).push(ws[k as int]));
                assert(ws[k as int] == t@.subrange(c as int, d as int));
            }
            if k > 2 {
                name.push(' ');
            }
            push_range(&mut name, t, c, d);
            k = k + 1;
        }
        assert(ws.skip(2).take(k - 2) =~= ws.skip(2));
        let level = LevelData {
            name: string_from_chars(name),
            speed: 80,
            finish: 0,
            boss: String::new(),
            pieces: Vec::new(),
        };
        levels.push(level);
        proof {
            assert(level@ =~= crate::book_file::new_level(join_words(ws.skip(2))));
            assert(views(levels@) =~= book.push(level@));
        }
        return true;
    }
    if levels.len() == 0 {
        return true;
    }
    let is_boss_line = range_is(t, a, b, "boss");
    let is_speed_line = range_is(t, a, b, "speed");
    let is_finish_line = range_is(t, a, b, "finish");
    let piece = piece_at(t, a, b);
    if !is_boss_line && !is_speed_line && !is_finish_line && piece.is_none() {
        return true;
    }
    if toks.len() < 2 {
        return false;
    }
    let (c, d) = toks[1];
    assert(ws[1] == t@.subrange(c as int, d as int));
    let ghost old_levels = levels@;
    let mut lv = levels.pop().unwrap();
    assert(lv == old_levels.last());
    assert(book.last() == lv@);
    if is_boss_line {
        lv.boss = string_of_range(t, c, d);
    } else if is_speed_line {
        lv.speed = value_at(t, c, d, 80);
    } else if is_finish_line {
        lv.finish = position_at(t, c, d);
    } else {
        let z = position_at(t, c, d);
        let p = piece.unwrap();
        lv.pieces.push((p, z));
    }
    proof {
        assert(lv@ =~= apply_setting(book.last(), ws));
    }
    levels.push(lv);
    proof {
        assert(levels@ =~= old_levels.drop_last().push(lv));
        assert(views(levels@) =~= book.update(book.len() - 1, apply_setting(book.last(), ws)));
    }
    true
}

/// Reads the level book from the text of a level file; `None` where the
/// text has a line that cannot be read (see `read_line`).
pub fn try_load_level_book(text: &str) -> (r: Option<LevelBook>)
    ensures
        match read_book(text@) {
            Some(b) => r is Some && r.unwrap()@ == b,
            None => r is None,
        },
{
    let t = chars_of(text);
    let mut levels: Vec<LevelData> = Vec::new();
    let mut pos: usize = 0;
    assert(t@.skip(0) =~= t@);
    assert(views(levels@) =~= Seq::<LevelView>::empty());
    loop
        invariant
            pos <= t@.len(),
            t@ == text@,
            read_book(text@) == read_lines(views(levels@), lines_of(t@.skip(pos as int))),
        decreases t@.len() - pos,
    {
        let e = line_end(&t, pos);
        let ghost s = t@.skip(pos as int);
        let ghost before = views(levels@);
        proof {
            lemma_line_len(s);
            assert(s.take(e - pos) =~= t@.subrange(pos as int, e as int));
            if e < t@.len() {
                assert(s.skip(e - pos + 1) =~= t@.skip(e + 1));
                assert(lines_of(s) == seq![s.take(e - pos)] + lines_of(s.skip(e - pos + 1)));
            } else {
                assert(s =~= t@.subrange(pos as int, e as int));
                assert(lines_of(s) == seq![s]);
            }
            let ls = lines_of(s);
            assert(ls[0] == t@.subrange(pos as int, e as int));
            assert(read_lines(before, ls) == match read_line(before, ls[0]) {
                Some(b) => read_lines(b, ls.drop_first()),
                None => None,
            });
        }
        let ok = read_line_into(&mut levels, &t, pos, e);
        if !ok {
            return None;
        }
        if e == t.len() {
            proof {
                let ls = lines_of(s);
                assert(ls.drop_first() =~= Seq::<Seq<char>>::empty());
            }
            let book = LevelBook { levels };
            return Some(book);
        }
        proof {
            let ls = lines_of(s);
            assert(ls.drop_first() =~= lines_of(t@.skip(e + 1)));
        }
        pos = e + 1;
    }
}

/// Reads the level book from the text of a level file.
pub fn load_level_book(text: &str) -> (book: LevelBook)
    requires
        read_book(text@) is Some,
    ensures
        Some(book@) == read_book(text@),
{
    let r = try_load_level_book(text);
    r.unwrap()
}

// ------------------------------------------------------------------
// Writing the level file
// ------------------------------------------------------------------

/// The comment block at the top of the level file.
pub open spec fn header_lines() -> Seq<Seq<char>> {
    seq![
        "# ======================================================"@,
        "#  THE LEVEL BOOK for 3D Bunny Dash!"@,
        "# ======================================================"@,
        "# Pieces: spike cube tall triple cubespike skyspike badguy"@,
        "# Distances are how far down the road. Edit me by hand,"@,
        "# or use the LEVEL EDITOR in the game!"@,
    ]
}

/// `level N name` for the level on page `n` (counting from 1).
pub open spec fn level_line(n: nat, lv: LevelView) -> Seq<char> {
    kw_level() + seq![' '] + nat_text(n) + seq![' '] + lv.name
}

pub open spec fn boss_line(lv: LevelView) -> Seq<char> {
    kw_boss() + seq![' '] + lv.boss
}

pub open spec fn speed_line(lv: LevelView) -> Seq<char> {
    kw_speed() + seq![' '] + tenths_text(lv.speed as int)
}

/// The golden gate's distance down the road, which is minus its position.
pub open spec fn finish_line(lv: LevelView) -> Seq<char> {
    kw_finish() + seq![' '] + tenths_text(-(lv.finish as int))
}

/// `<piece word> <distance down the road>`.
pub open spec fn piece_line(p: (Piece, i64)) -> Seq<char> {
    word_of(p.0) + seq![' '] + tenths_text(-(p.1 as int))
}

pub open spec fn piece_lines(ps: Seq<(Piece, i64)>) -> Seq<Seq<char>> {
    ps.map_values(|p: (Piece, i64)| piece_line(p))
}

/// The lines written for the level on page `n`: an empty line, the `level`
/// line, the `boss` line of a boss stage, `speed`, `finish`, and one line per
/// piece in the level's order.
pub open spec fn level_lines(n: nat, lv: LevelView) -> Seq<Seq<char>> {
    seq![seq![], level_line(n, lv)] + (if lv.boss.len() > 0 {
        seq![boss_line(lv)]
    } else {
        seq![]
    }) + seq![speed_line(lv), finish_line(lv)] + piece_lines(lv.pieces)
}

pub open spec fn levels_lines(b: Seq<LevelView>) -> Seq<Seq<char>>
    decreases b.len(),
{
    if b.len() == 0 {
        seq![]
    } else {
        levels_lines(b.drop_last()) + level_lines(b.len(), b.last())
    }
}

pub open spec fn book_lines(b: Seq<LevelView>) -> Seq<Seq<char>> {
    header_lines() + levels_lines(b)
}

/// The text of the level file for a book: its lines, each ending in a newline.
pub open spec fn book_text(b: Seq<LevelView>) -> Seq<char> {
    lines_text(book_lines(b))
}

/// Appends `line` and a newline, given as the line's characters already
/// appended after `acc`'s text.
proof fn lemma_wrote_line(acc: Seq<Seq<char>>, line: Seq<char>, before: Seq<char>, after: Seq<char>)
    requires
        before == lines_text(acc),
        after == before + line + seq!['\n'],
    ensures
        after == lines_text(acc.push(line)),
{
    lemma_lines_text_push(acc, line);
}

/// Appends one line of `lit` followed by a newline.
fn write_literal_line(out: &mut Vec<char>, lit: &str)
    ensures
        final(out)@ == old(out)@ + lit@ + seq!['\n'],
{
    push_str(out, lit);
    out.push('\n');
    assert(out@ =~= old(out)@ + lit@ + seq!['\n']);
}

/// Appends the lines of one level.
fn write_level(out: &mut Vec<char>, n: u64, level: &LevelData, Ghost(acc): Ghost<Seq<Seq<char>>>)
    requires
        old(out)@ == lines_text(acc),
    ensures
        final(out)@ == lines_text(acc + level_lines(n as nat, level@)),
{
    let ghost lv = level@;
    proof {
        reveal_strlit("level ");
        reveal_strlit("boss ");
        reveal_strlit("speed ");
        reveal_strlit("finish ");
        assert("level "@ =~= kw_level() + seq![' ']);
        assert("boss "@ =~= kw_boss() + seq![' ']);
        assert("speed "@ =~= kw_speed() + seq![' ']);
        assert("finish "@ =~= kw_finish() + seq![' ']);
    }
    // the empty line before each level
    let ghost b0 = out@;
    out.push('\n');
    proof {
        assert(out@ =~= b0 + Seq::<char>::empty() + seq!['\n']);
        lemma_wrote_line(acc, seq![], b0, out@);
    }
    let ghost acc1 = acc.push(seq![]);
    // level N name
    let ghost b1 = out@;
    push_str(out, "level ");
    push_nat(out, n);
    out.push(' ');
    let name = chars_of(level.name.as_str());
    push_range(out, &name, 0, name.len());
    out.push('\n');
    proof {
        assert(name@.subrange(0, name@.len() as int) =~= lv.name);
        assert(out@ =~= b1 + level_line(n as nat, lv) + seq!['\n']);
        lemma_wrote_line(acc1, level_line(n as nat, lv), b1, out@);
    }
    let ghost acc2 = acc1.push(level_line(n as nat, lv));
    let ghost mut acc3 = acc2;
    // boss W
    if !level.boss.as_str().is_empty() {
        let ghost b2 = out@;
        push_str(out, "boss ");
        let boss = chars_of(level.boss.as_str());
        push_range(out, &boss, 0, boss.len());
        out.push('\n');
        proof {
            assert(boss@.subrange(0, boss@.len() as int) =~= lv.boss);
            assert(out@ =~= b2 + boss_line(lv) + seq!['\n']);
            lemma_wrote_line(acc2, boss_line(lv), b2, out@);
            acc3 = acc2.push(boss_line(lv));
        }
    }
    // speed X
    let ghost b3 = out@;
    push_str(out, "speed ");
    push_tenths(out, level.speed);
    out.push('\n');
    proof {
        assert(out@ =~= b3 + speed_line(lv) + seq!['\n']);
        lemma_wrote_line(acc3, speed_line(lv), b3, out@);
    }
    let ghost acc4 = acc3.push(speed_line(lv));
    // finish X
    let ghost b4 = out@;
    push_str(out, "finish ");
    push_neg_tenths(out, level.finish);
    out.push('\n');
    proof {
        assert(out@ =~= b4 + finish_line(lv) + seq!['\n']);
        lemma_wrote_line(acc4, finish_line(lv), b4, out@);
    }
    let ghost acc5 = acc4.push(finish_line(lv));
    // one line per piece
    let mut j: usize = 0;
    while j < level.pieces.len()
        invariant
            j <= level.pieces@.len(),
            lv == level@,
            out@ == lines_text(acc5 + piece_lines(lv.pieces.take(j as int))),
        decreases level.pieces@.len() - j,
    {
        let (p, z) = level.pieces[j];
        let ghost b5 = out@;
        let w = piece_to_word(p);
        push_str(out, w);
        out.push(' ');
        push_neg_tenths(out, z);
        out.push('\n');
        proof {
            let pl = piece_line(lv.pieces[j as int]);
            assert(out@ =~= b5 + pl + seq!['\n']);
            lemma_wrote_line(acc5 + piece_lines(lv.pieces.take(j as int)), pl, b5, out@);
            assert(piece_lines(lv.pieces.take(j + 1)) =~= piece_lines(lv.pieces.take(j as int)).push(pl));
            assert((acc5 + piece_lines(lv.pieces.take(j as int))).push(pl) =~= acc5 + piece_lines(
                lv.pieces.take(j + 1),
            ));
        }
        j = j + 1;
    }
    proof {
        assert(lv.pieces.take(j as int) =~= lv.pieces);
        let boss_part: Seq<Seq<char>> = if lv.boss.len() > 0 { seq![boss_line(lv)] } else { seq![] };
        assert(acc3 =~= acc + seq![seq![], level_line(n as nat, lv)] + boss_part);
        assert(acc5 + piece_lines(lv.pieces) =~= acc + level_lines(n as nat, lv));
    }
}

/// The text of the level file for `book` (what the editor's save writes).
pub fn level_book_text(book: &LevelBook) -> (s: String)
    ensures
        s@ == book_text(book@),
{
    let mut out: Vec<char> = Vec::new();
    let header: [&str; 6] = [
        "# ======================================================",
        "#  THE LEVEL BOOK for 3D Bunny Dash!",
        "# ======================================================",
        "# Pieces: spike cube tall triple cubespike skyspike badguy",
        "# Distances are how far down the road. Edit me by hand,",
        "# or use the LEVEL EDITOR in the game!",
    ];
    assert(out@ =~= lines_text(header_lines().take(0)));
    let mut h: usize = 0;
    while h < 6
        invariant
            h <= 6,
            forall|j: int| 0 <= j < 6 ==> (#[trigger] header@[j])@ == header_lines()[j],
            out@ == lines_text(header_lines().take(h as int)),
        decreases 6 - h,
    {
        let ghost before = out@;
        write_literal_line(&mut out, header[h]);
        proof {
            lemma_wrote_line(header_lines().take(h as int), header_lines()[h as int], before, out@);
            assert(header_lines().take(h as int).push(header_lines()[h as int]) =~= header_lines().take(
                h + 1,
            ));
        }
        h = h + 1;
    }
    proof {
        assert(header_lines().take(6) =~= header_lines());
        assert(levels_lines(book@.take(0)) =~= Seq::<Seq<char>>::empty());
        assert(out@ =~= lines_text(header_lines() + levels_lines(book@.take(0))));
    }
    let mut i: usize = 0;
    while i < book.levels.len()
        invariant
            i <= book.levels@.len(),
            out@ == lines_text(header_lines() + levels_lines(book@.take(i as int))),
        decreases book.levels@.len() - i,
    {
        let ghost prefix = header_lines() + levels_lines(book@.take(i as int));
        write_level(&mut out, (i + 1) as u64, &book.levels[i], Ghost(prefix));
        proof {
            let t = book@.take(i + 1);
            assert(t.drop_last() =~= book@.take(i as int));
            assert(t.last() == book.levels@[i as int]@);
            assert(levels_lines(t) == levels_lines(book@.take(i as int)) + level_lines(
                (i + 1) as nat,
                book.levels@[i as int]@,
            ));
            assert(prefix + level_lines((i + 1) as nat, book.levels@[i as int]@) =~= header_lines()
                + levels_lines(t));
        }
        i = i + 1;
    }
    assert(book@.take(i as int) =~= book@);
    string_from_chars(out)
}

// ------------------------------------------------------------------
// Saving and loading again gives back the same book
// ------------------------------------------------------------------

/// A level that its lines describe exactly: a name of single-space-separated
/// words and a boss that is one word (or none). Every speed, finish and piece
/// position is written and read back exactly.
pub open spec fn level_writable(lv: LevelView) -> bool {
    &&& is_plain_name(lv.name)
    &&& (lv.boss.len() == 0 || is_word(lv.boss))
}

pub open spec fn book_writable(b: Seq<LevelView>) -> bool {
    forall|i: int| 0 <= i < b.len() ==> level_writable(#[trigger] b[i])
}

pub open spec fn no_space(s: Seq<char>) -> bool {
    forall|i: int| 0 <= i < s.len() ==> !is_space(#[trigger] s[i])
}

proof fn lemma_no_space_no_newline(s: Seq<char>)
    requires
        no_space(s),
    ensures
        !has_newline(s),
{
    if has_newline(s) {
        let i = choose|i: int| 0 <= i < s.len() && s[i] == '\n';
        assert(!is_space(s[i]));
    }
}

proof fn lemma_newline_add(a: Seq<char>, b: Seq<char>)
    ensures
        has_newline(a + b) == (has_newline(a) || has_newline(b)),
{
    let s = a + b;
    if has_newline(s) {
        let i = choose|i: int| 0 <= i < s.len() && s[i] == '\n';
        if i < a.len() {
            assert(a[i] == s[i]);
        } else {
            assert(b[i - a.len()] == s[i]);
        }
    }
    if has_newline(a) {
        let i = choose|i: int| 0 <= i < a.len() && a[i] == '\n';
        assert(s[i] == a[i]);
    }
    if has_newline(b) {
        let i = choose|i: int| 0 <= i < b.len() && b[i] == '\n';
        assert(s[i + a.len()] == b[i]);
    }
}

proof fn lemma_join_no_newline(ws: Seq<Seq<char>>)
    requires
        forall|i: int| 0 <= i < ws.len() ==> is_word(#[trigger] ws[i]),
    ensures
        !has_newline(join_words(ws)),
    decreases ws.len(),
{
    if ws.len() == 1 {
        assert(is_word(ws[0]));
        lemma_no_space_no_newline(ws[0]);
    } else if ws.len() > 1 {
        let rest = ws.drop_first();
        assert forall|i: int| 0 <= i < rest.len() implies is_word(#[trigger] rest[i]) by {
            assert(rest[i] == ws[i + 1]);
        }
        lemma_join_no_newline(rest);
        assert(is_word(ws[0]));
        lemma_no_space_no_newline(ws[0]);
        assert(!has_newline(seq![' '])) by {
            if has_newline(seq![' ']) {
                let i = choose|i: int| 0 <= i < 1 && seq![' '][i] == '\n';
            }
        }
        lemma_newline_add(ws[0], seq![' ']);
        lemma_newline_add(ws[0] + seq![' '], join_words(rest));
    }
}

proof fn lemma_plain_name_no_newline(name: Seq<char>)
    requires
        is_plain_name(name),
    ensures
        !has_newline(name),
{
    lemma_words_are_words(name);
    lemma_join_no_newline(words(name));
}

proof fn lemma_nat_text_word(n: nat)
    ensures
        is_word(nat_text(n)),
        nat_text(n)[0] != '#',
{
    lemma_nat_text(n);
    let s = nat_text(n);
    assert forall|i: int| 0 <= i < s.len() implies !is_space(#[trigger] s[i]) by {
        assert(is_digit(s[i]));
    }
    assert(is_digit(s[0]));
}

proof fn lemma_tenths_word(t: i64)
    ensures
        is_word(tenths_text(t as int)),
        is_word(tenths_text(-(t as int))),
        parse_tenths(tenths_text(t as int)) == Some(t as int),
        parse_tenths(tenths_text(-(t as int))) == Some(-(t as int)),
        value_or(tenths_text(t as int), default_speed() as int) == t,
        position_or_zero(tenths_text(-(t as int))) == t,
{
    lemma_tenths_roundtrip(t as int);
    lemma_tenths_roundtrip(-(t as int));
}

proof fn lemma_space_line_parts(a: Seq<char>, b: Seq<char>)
    requires
        !has_newline(a),
        !has_newline(b),
    ensures
        !has_newline(a + seq![' '] + b),
{
    assert(!has_newline(seq![' '])) by {
        if has_newline(seq![' ']) {
            let i = choose|i: int| 0 <= i < 1 && seq![' '][i] == '\n';
        }
    }
    lemma_newline_add(a, seq![' ']);
    lemma_newline_add(a + seq![' '], b);
}

proof fn lemma_word_no_newline(w: Seq<char>)
    requires
        is_word(w),
    ensures
        !has_newline(w),
{
    lemma_no_space_no_newline(w);
}

proof fn lemma_keywords()
    ensures
        is_word(kw_level()),
        is_word(kw_boss()),
        is_word(kw_speed()),
        is_word(kw_finish()),
        kw_level() != kw_boss(),
        kw_level() != kw_speed(),
        kw_level() != kw_finish(),
        kw_boss() != kw_speed(),
        kw_boss() != kw_finish(),
        kw_speed() != kw_finish(),
        is_setting_word(kw_boss()),
        is_setting_word(kw_speed()),
        is_setting_word(kw_finish()),
{
    assert(kw_level().len() != kw_boss().len());
    assert(kw_level()[1] != kw_speed()[1]);
    assert(kw_level().len() != kw_finish().len());
    assert(kw_boss().len() != kw_speed().len());
    assert(kw_boss().len() != kw_finish().len());
    assert(kw_speed().len() != kw_finish().len());
}

proof fn lemma_piece_word(p: Piece)
    ensures
        is_word(word_of(p)),
        word_of(p) != kw_level(),
        word_of(p) != kw_boss(),
        word_of(p) != kw_speed(),
        word_of(p) != kw_finish(),
        word_of(p)[0] != '#',
        is_setting_word(word_of(p)),
        piece_of_word(word_of(p)) == Some(p),
{
    crate::piece::law_piece_word_roundtrip(p);
    let w = word_of(p);
    if w.len() == kw_level().len() {
        assert(w[0] != kw_level()[0]);
    }
    if w.len() == kw_boss().len() {
        assert(w[0] != kw_boss()[0] || w[1] != kw_boss()[1]);
    }
    if w.len() == kw_speed().len() {
        assert(w[2] != kw_speed()[2]);
    }
    if w.len() == kw_finish().len() {
        assert(w[0] != kw_finish()[0]);
    }
}

/// Reading a sequence of lines one part after the other.
proof fn lemma_read_lines_add(book: Seq<LevelView>, a: Seq<Seq<char>>, b: Seq<Seq<char>>)
    ensures
        read_lines(book, a + b) == match read_lines(book, a) {
            Some(x) => read_lines(x, b),
            None => None,
        },
    decreases a.len(),
{
    if a.len() == 0 {
        assert(a + b =~= b);
    } else {
        assert((a + b)[0] == a[0]);
        assert((a + b).drop_first() =~= a.drop_first() + b);
        match read_line(book, a[0]) {
            Some(x) => lemma_read_lines_add(x, a.drop_first(), b),
            None => {},
        }
    }
}

proof fn lemma_read_one(book: Seq<LevelView>, l: Seq<char>)
    ensures
        read_lines(book, seq![l]) == read_line(book, l),
{
    let ls = seq![l];
    assert(ls.drop_first() =~= Seq::<Seq<char>>::empty());
    match read_line(book, l) {
        Some(x) => {
            assert(read_lines(x, ls.drop_first()) == Some(x));
        },
        None => {},
    }
}

proof fn lemma_comment_line(book: Seq<LevelView>, line: Seq<char>)
    requires
        line.len() > 0,
        line[0] == '#',
    ensures
        read_line(book, line) == Some(book),
{
    let k = crate::text::word_len(line);
    crate::text::lemma_word_len(line);
    assert(!is_space(line[0]));
    let ws = words(line);
    assert(ws[0] == line.take(k as int));
    assert(k >= 1) by {
        assert(crate::text::word_len(line) == 1 + crate::text::word_len(line.drop_first()));
    }
    assert(ws[0][0] == '#');
}

proof fn lemma_empty_line(book: Seq<LevelView>)
    ensures
        read_line(book, seq![]) == Some(book),
{
    assert(words(Seq::<char>::empty()).len() == 0);
}

proof fn lemma_header(book: Seq<LevelView>)
    ensures
        read_lines(book, header_lines()) == Some(book),
        forall|i: int| 0 <= i < header_lines().len() ==> !has_newline(#[trigger] header_lines()[i]),
{
    let h = header_lines();
    reveal_strlit("# ======================================================");
    reveal_strlit("#  THE LEVEL BOOK for 3D Bunny Dash!");
    reveal_strlit("# Pieces: spike cube tall triple cubespike skyspike badguy");
    reveal_strlit("# Distances are how far down the road. Edit me by hand,");
    reveal_strlit("# or use the LEVEL EDITOR in the game!");
    assert forall|i: int| 0 <= i < h.len() implies h[i].len() > 0 && h[i][0] == '#' && !has_newline(
        #[trigger] h[i],
    ) by {
        if has_newline(h[i]) {
            let j = choose|j: int| 0 <= j < h[i].len() && h[i][j] == '\n';
        }
    }
    lemma_comments(book, h);
}

proof fn lemma_comments(book: Seq<LevelView>, h: Seq<Seq<char>>)
    requires
        forall|i: int| 0 <= i < h.len() ==> (#[trigger] h[i]).len() > 0 && h[i][0] == '#',
    ensures
        read_lines(book, h) == Some(book),
    decreases h.len(),
{
    if h.len() > 0 {
        lemma_comment_line(book, h[0]);
        let rest = h.drop_first();
        assert forall|i: int| 0 <= i < rest.len() implies (#[trigger] rest[i]).len() > 0 && rest[i][0] == '#' by {
            assert(rest[i] == h[i + 1]);
        }
        lemma_comments(book, rest);
    }
}

/// A setting line `w v` on an open level.
proof fn lemma_setting_line(book: Seq<LevelView>, w: Seq<char>, v: Seq<char>)
    requires
        book.len() > 0,
        is_word(w),
        is_word(v),
        w != kw_level(),
        w[0] != '#',
        is_setting_word(w),
    ensures
        read_line(book, w + seq![' '] + v) == Some(
            book.update(book.len() - 1, apply_setting(book.last(), seq![w, v])),
        ),
{
    lemma_words_word_space(w, v);
    crate::text::lemma_words_single(v);
    assert(words(w + seq![' '] + v) =~= seq![w, v]);
}

/// The lines of one level read into one more level.
proof fn lemma_level(book: Seq<LevelView>, n: nat, lv: LevelView)
    requires
        level_writable(lv),
    ensures
        read_lines(book, level_lines(n, lv)) == Some(book.push(lv)),
        forall|i: int| 0 <= i < level_lines(n, lv).len() ==> !has_newline(#[trigger] level_lines(n, lv)[i]),
{
    lemma_keywords();
    lemma_nat_text_word(n);
    lemma_tenths_word(lv.speed);
    lemma_tenths_word(lv.finish);
    lemma_plain_name_no_newline(lv.name);
    // the level line
    let ll = level_line(n, lv);
    assert(ll =~= kw_level() + seq![' '] + (nat_text(n) + seq![' '] + lv.name));
    lemma_words_word_space(kw_level(), nat_text(n) + seq![' '] + lv.name);
    lemma_words_word_space(nat_text(n), lv.name);
    let ws = words(ll);
    assert(ws =~= seq![kw_level(), nat_text(n)] + words(lv.name));
    assert(ws.skip(2) =~= words(lv.name));
    let b1 = book.push(new_level(lv.name));
    assert(read_line(book, ll) == Some(b1));
    lemma_read_one(book, ll);
    lemma_empty_line(book);
    lemma_read_one(book, seq![]);
    lemma_read_lines_add(book, seq![seq![]], seq![ll]);
    assert(seq![seq![]] + seq![ll] =~= seq![seq![], ll]);
    // the boss line
    let boss_part: Seq<Seq<char>> = if lv.boss.len() > 0 { seq![boss_line(lv)] } else { seq![] };
    let lv2 = LevelView { boss: lv.boss, ..new_level(lv.name) };
    let b2 = book.push(lv2);
    if lv.boss.len() > 0 {
        lemma_setting_line(b1, kw_boss(), lv.boss);
        assert(b1.update(b1.len() - 1, apply_setting(b1.last(), seq![kw_boss(), lv.boss])) =~= b2);
        lemma_read_one(b1, boss_line(lv));
    } else {
        assert(lv2 =~= new_level(lv.name));
        assert(b2 =~= b1);
    }
    assert(read_lines(b1, boss_part) == Some(b2));
    // speed and finish
    let lv3 = LevelView { speed: lv.speed, ..lv2 };
    let b3 = book.push(lv3);
    lemma_setting_line(b2, kw_speed(), tenths_text(lv.speed as int));
    assert(b2.update(b2.len() - 1, apply_setting(b2.last(), seq![kw_speed(), tenths_text(lv.speed as int)])) =~= b3);
    lemma_read_one(b2, speed_line(lv));
    let lv4 = LevelView { finish: lv.finish, ..lv3 };
    let b4 = book.push(lv4);
    lemma_setting_line(b3, kw_finish(), tenths_text(-(lv.finish as int)));
    assert(b3.update(b3.len() - 1, apply_setting(b3.last(), seq![kw_finish(), tenths_text(-(lv.finish as int))])) =~= b4);
    lemma_read_one(b3, finish_line(lv));
    lemma_read_lines_add(b2, seq![speed_line(lv)], seq![finish_line(lv)]);
    assert(seq![speed_line(lv)] + seq![finish_line(lv)] =~= seq![speed_line(lv), finish_line(lv)]);
    // the pieces
    lemma_pieces(book, lv4, lv.pieces);
    assert(lv4.pieces + lv.pieces =~= lv.pieces);
    assert(LevelView { pieces: lv4.pieces + lv.pieces, ..lv4 } =~= lv);
    // all together
    let first = seq![seq![], ll];
    lemma_read_lines_add(book, first, boss_part);
    lemma_read_lines_add(book, first + boss_part, seq![speed_line(lv), finish_line(lv)]);
    lemma_read_lines_add(
        book,
        first + boss_part + seq![speed_line(lv), finish_line(lv)],
        piece_lines(lv.pieces),
    );
    // no line holds a newline
    let ls = level_lines(n, lv);
    lemma_space_line_parts(nat_text(n), lv.name);
    lemma_word_no_newline(kw_level());
    lemma_space_line_parts(kw_level(), nat_text(n) + seq![' '] + lv.name);
    lemma_word_no_newline(kw_speed());
    lemma_word_no_newline(kw_finish());
    lemma_word_no_newline(tenths_text(lv.speed as int));
    lemma_word_no_newline(tenths_text(-(lv.finish as int)));
    lemma_space_line_parts(kw_speed(), tenths_text(lv.speed as int));
    lemma_space_line_parts(kw_finish(), tenths_text(-(lv.finish as int)));
    if lv.boss.len() > 0 {
        lemma_word_no_newline(kw_boss());
        lemma_word_no_newline(lv.boss);
        lemma_space_line_parts(kw_boss(), lv.boss);
    }
    assert forall|i: int| 0 <= i < ls.len() implies !has_newline(#[trigger] ls[i]) by {
        let fixed = first + boss_part + seq![speed_line(lv), finish_line(lv)];
        assert(ls == fixed + piece_lines(lv.pieces));
        if i < fixed.len() {
            assert(ls[i] == fixed[i]);
            if i == 0 {
                if has_newline(ls[0]) {
                    let j = choose|j: int| 0 <= j < ls[0].len() && ls[0][j] == '\n';
                }
            }
        } else {
            let k = i - fixed.len();
            assert(ls[i] == piece_lines(lv.pieces)[k]);
            let p = lv.pieces[k];
            lemma_tenths_word(p.1);
            lemma_piece_word(p.0);
            lemma_word_no_newline(word_of(p.0));
            lemma_word_no_newline(tenths_text(-(p.1 as int)));
            lemma_space_line_parts(word_of(p.0), tenths_text(-(p.1 as int)));
        }
    }
}

/// Piece lines add their pieces, in order, to the level started last.
proof fn lemma_pieces(book: Seq<LevelView>, lv: LevelView, ps: Seq<(Piece, i64)>)
    ensures
        read_lines(book.push(lv), piece_lines(ps)) == Some(
            book.push(LevelView { pieces: lv.pieces + ps, ..lv }),
        ),
    decreases ps.len(),
{
    if ps.len() == 0 {
        assert(piece_lines(ps) =~= Seq::<Seq<char>>::empty());
        assert(lv.pieces + ps =~= lv.pieces);
        assert(LevelView { pieces: lv.pieces + ps, ..lv } =~= lv);
    } else {
        let p = ps[0];
        lemma_tenths_word(p.1);
        lemma_piece_word(p.0);
        let b = book.push(lv);
        lemma_setting_line(b, word_of(p.0), tenths_text(-(p.1 as int)));
        let lv1 = LevelView { pieces: lv.pieces.push(p), ..lv };
        assert(apply_setting(b.last(), seq![word_of(p.0), tenths_text(-(p.1 as int))]) =~= lv1);
        assert(b.update(b.len() - 1, lv1) =~= book.push(lv1));
        let rest = ps.drop_first();
        lemma_pieces(book, lv1, rest);
        assert(piece_lines(ps) =~= seq![piece_line(p)] + piece_lines(rest));
        lemma_read_lines_add(b, seq![piece_line(p)], piece_lines(rest));
        lemma_read_one(b, piece_line(p));
        assert(lv1.pieces + rest =~= lv.pieces + ps);
        assert(LevelView { pieces: lv1.pieces + rest, ..lv1 } =~= LevelView { pieces: lv.pieces + ps, ..lv });
    }
}

proof fn lemma_levels(b: Seq<LevelView>, k: int)
    requires
        book_writable(b),
        0 <= k <= b.len(),
    ensures
        read_lines(seq![], levels_lines(b.take(k))) == Some(b.take(k)),
        forall|i: int|
            0 <= i < levels_lines(b.take(k)).len() ==> !has_newline(
                #[trigger] levels_lines(b.take(k))[i],
            ),
    decreases k,
{
    let e = Seq::<LevelView>::empty();
    if k == 0 {
        assert(levels_lines(b.take(0)) =~= Seq::<Seq<char>>::empty());
        assert(b.take(0) =~= e);
    } else {
        lemma_levels(b, k - 1);
        let t = b.take(k);
        assert(t.drop_last() =~= b.take(k - 1));
        assert(t.last() == b[k - 1]);
        assert(level_writable(b[k - 1]));
        lemma_level(b.take(k - 1), k as nat, b[k - 1]);
        assert(levels_lines(t) == levels_lines(b.take(k - 1)) + level_lines(k as nat, b[k - 1]));
        lemma_read_lines_add(e, levels_lines(b.take(k - 1)), level_lines(k as nat, b[k - 1]));
        assert(b.take(k - 1).push(b[k - 1]) =~= t);
        let a = levels_lines(b.take(k - 1));
        let c = level_lines(k as nat, b[k - 1]);
        assert forall|i: int| 0 <= i < (a + c).len() implies !has_newline(#[trigger] (a + c)[i]) by {
            if i < a.len() {
                assert((a + c)[i] == a[i]);
            } else {
                assert((a + c)[i] == c[i - a.len()]);
            }
        }
    }
}

/// Saving a level book and loading the saved text gives back the same book,
/// for every book whose names, bosses and numbers the file can hold.
pub proof fn law_saved_book_loads_back(b: Seq<LevelView>)
    requires
        book_writable(b),
    ensures
        read_book(book_text(b)) == Some(b),
{
    let e = Seq::<LevelView>::empty();
    lemma_levels(b, b.len() as int);
    assert(b.take(b.len() as int) =~= b);
    let ls = book_lines(b);
    lemma_header(e);
    assert forall|i: int| 0 <= i < ls.len() implies !has_newline(#[trigger] ls[i]) by {
        if i < header_lines().len() {
            assert(ls[i] == header_lines()[i]);
        } else {
            assert(ls[i] == levels_lines(b)[i - header_lines().len()]);
        }
    }
    crate::text::lemma_lines_of_text(ls);
    assert(ls.push(seq![]) =~= header_lines() + levels_lines(b) + seq![seq![]]);
    lemma_read_lines_add(e, header_lines(), levels_lines(b));
    lemma_read_lines_add(e, header_lines() + levels_lines(b), seq![seq![]]);
    lemma_read_one(b, seq![]);
    lemma_empty_line(b);
}

// ------------------------------------------------------------------
// Lines that do not change the book
// ------------------------------------------------------------------

pub open spec fn no_newlines(ls: Seq<Seq<char>>) -> bool {
    forall|i: int| 0 <= i < ls.len() ==> !has_newline(#[trigger] ls[i])
}

/// The lines of complete lines followed by more text.
proof fn lemma_lines_of_prefix(ps: Seq<Seq<char>>, rest: Seq<char>)
    requires
        no_newlines(ps),
    ensures
        lines_of(lines_text(ps) + rest) == ps + lines_of(rest),
    decreases ps.len(),
{
    if ps.len() == 0 {
        assert(lines_text(ps) =~= Seq::<char>::empty());
        assert(lines_text(ps) + rest =~= rest);
        assert(ps + lines_of(rest) =~= lines_of(rest));
    } else {
        let tail = ps.drop_first();
        assert(no_newlines(tail)) by {
            assert forall|i: int| 0 <= i < tail.len() implies !has_newline(#[trigger] tail[i]) by {
                assert(tail[i] == ps[i + 1]);
            }
        }
        lemma_lines_of_prefix(tail, rest);
        assert(!has_newline(ps[0]));
        assert(lines_text(ps) + rest =~= ps[0] + seq!['\n'] + (lines_text(tail) + rest));
        crate::text::lemma_lines_of_cons(ps[0], lines_text(tail) + rest);
        assert(ps + lines_of(rest) =~= seq![ps[0]] + (tail + lines_of(rest)));
    }
}

/// The lines of one line followed by nothing or by a newline and more.
proof fn lemma_lines_of_last(x: Seq<char>, q: Seq<char>)
    requires
        !has_newline(x),
        q.len() == 0 || q[0] == '\n',
    ensures
        lines_of(x + q) == seq![x] + if q.len() == 0 {
            Seq::<Seq<char>>::empty()
        } else {
            lines_of(q.drop_first())
        },
{
    if q.len() == 0 {
        assert(x + q =~= x);
        assert forall|i: int| 0 <= i < x.len() implies #[trigger] x[i] != '\n' by {
            if x[i] == '\n' {
                assert(has_newline(x));
            }
        }
        crate::text::lemma_line_len_at(x, x.len() as int);
        assert(seq![x] + Seq::<Seq<char>>::empty() =~= seq![x]);
    } else {
        assert(x + q =~= x + seq!['\n'] + q.drop_first());
        crate::text::lemma_lines_of_cons(x, q.drop_first());
    }
}

/// Putting the line `x` after the complete lines `ps` leaves the book as it is
/// when `x` leaves every book that `ps` can lead to as it is.
proof fn lemma_insert_line(ps: Seq<Seq<char>>, x: Seq<char>, q: Seq<char>)
    requires
        no_newlines(ps),
        !has_newline(x),
        match read_lines(seq![], ps) {
            Some(b) => read_line(b, x) == Some(b),
            None => true,
        },
    ensures
        read_book(lines_text(ps) + x + seq!['\n'] + q) == read_book(lines_text(ps) + q),
{
    let e = Seq::<LevelView>::empty();
    assert(lines_text(ps) + x + seq!['\n'] + q =~= lines_text(ps) + (x + seq!['\n'] + q));
    lemma_lines_of_prefix(ps, x + seq!['\n'] + q);
    lemma_lines_of_prefix(ps, q);
    crate::text::lemma_lines_of_cons(x, q);
    let rest = lines_of(q);
    assert(ps + (seq![x] + rest) =~= ps + seq![x] + rest);
    lemma_read_lines_add(e, ps, seq![x] + rest);
    lemma_read_lines_add(e, ps, rest);
    match read_lines(e, ps) {
        Some(b) => {
            assert((seq![x] + rest)[0] == x);
            assert((seq![x] + rest).drop_first() =~= rest);
        },
        None => {},
    }
}

/// A blank line, a line of only whitespace, or a comment line (`#` first)
/// can be put between any two lines of a level file: the book read is the same.
pub proof fn law_blank_or_comment_line_ignored(ps: Seq<Seq<char>>, x: Seq<char>, q: Seq<char>)
    requires
        no_newlines(ps),
        !has_newline(x),
        words(x).len() == 0 || words(x)[0][0] == '#',
    ensures
        read_book(lines_text(ps) + x + seq!['\n'] + q) == read_book(lines_text(ps) + q),
{
    lemma_insert_line(ps, x, q);
}

/// A line whose first word is none of `level`, `boss`, `speed`, `finish` or a
/// piece word can be put between any two lines: it is ignored, with or
/// without more words after it.
pub proof fn law_unknown_word_line_ignored(ps: Seq<Seq<char>>, x: Seq<char>, q: Seq<char>)
    requires
        no_newlines(ps),
        !has_newline(x),
        words(x).len() > 0,
        words(x)[0] != kw_level(),
        !is_setting_word(words(x)[0]),
    ensures
        read_book(lines_text(ps) + x + seq!['\n'] + q) == read_book(lines_text(ps) + q),
{
    lemma_insert_line(ps, x, q);
}

/// Before the first `level` line, a `boss`, `speed`, `finish` or piece line
/// (even one with no value) has no level to belong to and is ignored.
pub proof fn law_line_before_first_level_ignored(ps: Seq<Seq<char>>, x: Seq<char>, q: Seq<char>)
    requires
        no_newlines(ps),
        !has_newline(x),
        read_lines(seq![], ps) == Some(Seq::<LevelView>::empty()),
        words(x).len() > 0,
        words(x)[0] != kw_level(),
    ensures
        read_book(lines_text(ps) + x + seq!['\n'] + q) == read_book(lines_text(ps) + q),
{
    lemma_insert_line(ps, x, q);
}

/// Before the first `level` line, any number of lines that are no `level`
/// line (blank lines, comments, unknown words, and `boss`, `speed`, `finish`
/// or piece lines with or without a value) have no level to belong to and
/// are ignored.
pub proof fn law_lines_before_first_level_ignored(ps: Seq<Seq<char>>, xs: Seq<Seq<char>>, q: Seq<char>)
    requires
        no_newlines(ps),
        no_newlines(xs),
        read_lines(seq![], ps) == Some(Seq::<LevelView>::empty()),
        forall|i: int| 0 <= i < xs.len() ==> words(#[trigger] xs[i]).len() == 0 || words(xs[i])[0] != kw_level(),
    ensures
        read_book(lines_text(ps) + lines_text(xs) + q) == read_book(lines_text(ps) + q),
    decreases xs.len(),
{
    if xs.len() == 0 {
        assert(lines_text(xs) =~= Seq::<char>::empty());
        assert(lines_text(ps) + lines_text(xs) + q =~= lines_text(ps) + q);
    } else {
        let e = Seq::<LevelView>::empty();
        let x = xs[0];
        let rest = xs.drop_first();
        let ps2 = ps.push(x);
        assert(!has_newline(x));
        assert(read_line(e, x) == Some(e));
        lemma_read_lines_add(e, ps, seq![x]);
        assert(ps + seq![x] =~= ps2);
        assert(seq![x].drop_first() =~= Seq::<Seq<char>>::empty());
        assert(seq![x][0] == x);
        assert(read_lines(e, seq![x]) == read_lines(e, Seq::<Seq<char>>::empty()));
        assert(read_lines(e, ps2) == Some(e));
        assert(no_newlines(ps2)) by {
            assert forall|i: int| 0 <= i < ps2.len() implies !has_newline(#[trigger] ps2[i]) by {
                if i < ps.len() {
                    assert(ps2[i] == ps[i]);
                }
            }
        }
        assert(no_newlines(rest)) by {
            assert forall|i: int| 0 <= i < rest.len() implies !has_newline(#[trigger] rest[i]) by {
                assert(rest[i] == xs[i + 1]);
            }
        }
        assert forall|i: int| 0 <= i < rest.len() implies words(#[trigger] rest[i]).len() == 0 || words(
            rest[i],
        )[0] != kw_level() by {
            assert(rest[i] == xs[i + 1]);
        }
        law_lines_before_first_level_ignored(ps2, rest, q);
        crate::text::lemma_lines_text_push(ps, x);
        assert(lines_text(xs) == x + seq!['\n'] + lines_text(rest));
        assert(lines_text(ps2) + lines_text(rest) + q =~= lines_text(ps) + lines_text(xs) + q);
        assert(lines_text(ps2) + q =~= lines_text(ps) + x + seq!['\n'] + q);
        lemma_insert_line(ps, x, q);
    }
}

/// Each line with a carriage return put at its end.
pub open spec fn with_carriage_returns(xs: Seq<Seq<char>>) -> Seq<Seq<char>> {
    xs.map_values(|l: Seq<char>| l.push('\r'))
}

/// A level file saved with "\r\n" line endings reads as the same file with
/// "\n" endings: a carriage return at the end of any number of lines
/// changes nothing ("spike 18\r" places a spike 18 down the road).
pub proof fn law_carriage_returns_ignored(ps: Seq<Seq<char>>, xs: Seq<Seq<char>>, q: Seq<char>)
    requires
        no_newlines(ps),
        no_newlines(xs),
    ensures
        read_book(lines_text(ps) + lines_text(with_carriage_returns(xs)) + q) == read_book(
            lines_text(ps) + lines_text(xs) + q,
        ),
{
    let ys = with_carriage_returns(xs);
    assert(no_newlines(ys)) by {
        assert forall|i: int| 0 <= i < ys.len() implies !has_newline(#[trigger] ys[i]) by {
            assert(ys[i] == xs[i].push('\r'));
            if has_newline(ys[i]) {
                let j = choose|j: int| 0 <= j < ys[i].len() && ys[i][j] == '\n';
                assert(j < xs[i].len());
                assert(xs[i][j] == '\n');
            }
        }
    }
    assert forall|i: int| 0 <= i < ys.len() implies words(#[trigger] ys[i]) == words(xs[i]) by {
        assert(ys[i] == xs[i].push('\r'));
        crate::text::law_white_space_separates_words(xs[i], '\r', seq![]);
    }
    law_lines_whitespace_ignored(ps, ys, xs, q);
}

/// Only the words of a line count: changing the whitespace before, after or
/// between the words of any line (the last one too) gives the same book.
pub proof fn law_line_whitespace_ignored(ps: Seq<Seq<char>>, x: Seq<char>, y: Seq<char>, q: Seq<char>)
    requires
        no_newlines(ps),
        !has_newline(x),
        !has_newline(y),
        words(x) == words(y),
        q.len() == 0 || q[0] == '\n',
    ensures
        read_book(lines_text(ps) + x + q) == read_book(lines_text(ps) + y + q),
{
    let e = Seq::<LevelView>::empty();
    assert(lines_text(ps) + x + q =~= lines_text(ps) + (x + q));
    assert(lines_text(ps) + y + q =~= lines_text(ps) + (y + q));
    lemma_lines_of_prefix(ps, x + q);
    lemma_lines_of_prefix(ps, y + q);
    lemma_lines_of_last(x, q);
    lemma_lines_of_last(y, q);
    let rest = if q.len() == 0 {
        Seq::<Seq<char>>::empty()
    } else {
        lines_of(q.drop_first())
    };
    lemma_read_lines_add(e, ps, seq![x] + rest);
    lemma_read_lines_add(e, ps, seq![y] + rest);
    match read_lines(e, ps) {
        Some(b) => {
            assert((seq![x] + rest)[0] == x);
            assert((seq![x] + rest).drop_first() =~= rest);
            assert((seq![y] + rest)[0] == y);
            assert((seq![y] + rest).drop_first() =~= rest);
            assert(read_line(b, x) == read_line(b, y));
        },
        None => {},
    }
}

/// A line that never changes the book: blank, whitespace only, a comment,
/// or one whose first word is none of the words the reader knows.
pub open spec fn is_neutral_line(x: Seq<char>) -> bool {
    ||| words(x).len() == 0
    ||| words(x)[0][0] == '#'
    ||| (words(x)[0] != kw_level() && !is_setting_word(words(x)[0]))
}

/// Any number of blank, whitespace-only, comment and unknown-word lines put
/// between two lines of a level file leave the book as it is.
pub proof fn law_neutral_lines_ignored(ps: Seq<Seq<char>>, xs: Seq<Seq<char>>, q: Seq<char>)
    requires
        no_newlines(ps),
        no_newlines(xs),
        forall|i: int| 0 <= i < xs.len() ==> is_neutral_line(#[trigger] xs[i]),
    ensures
        read_book(lines_text(ps) + lines_text(xs) + q) == read_book(lines_text(ps) + q),
    decreases xs.len(),
{
    if xs.len() == 0 {
        assert(lines_text(xs) =~= Seq::<char>::empty());
        assert(lines_text(ps) + lines_text(xs) + q =~= lines_text(ps) + q);
    } else {
        let init = xs.drop_last();
        let x = xs.last();
        assert(no_newlines(init)) by {
            assert forall|i: int| 0 <= i < init.len() implies !has_newline(#[trigger] init[i]) by {
                assert(init[i] == xs[i]);
            }
        }
        assert forall|i: int| 0 <= i < init.len() implies is_neutral_line(#[trigger] init[i]) by {
            assert(init[i] == xs[i]);
        }
        law_neutral_lines_ignored(ps, init, q);
        let pre = ps + init;
        assert(no_newlines(pre)) by {
            assert forall|i: int| 0 <= i < pre.len() implies !has_newline(#[trigger] pre[i]) by {
                if i < ps.len() {
                    assert(pre[i] == ps[i]);
                } else {
                    assert(pre[i] == init[i - ps.len()]);
                }
            }
        }
        assert(!has_newline(x));
        lemma_insert_line(pre, x, q);
        crate::text::lemma_lines_text_add(ps, init);
        crate::text::lemma_lines_text_push(init, x);
        assert(xs =~= init.push(x));
        assert(lines_text(ps) + lines_text(xs) + q =~= lines_text(pre) + x + seq!['\n'] + q);
        assert(lines_text(pre) + q =~= lines_text(ps) + lines_text(init) + q);
    }
}

proof fn lemma_read_lines_same_words(b: Seq<LevelView>, xs: Seq<Seq<char>>, ys: Seq<Seq<char>>)
    requires
        xs.len() == ys.len(),
        forall|i: int| 0 <= i < xs.len() ==> words(#[trigger] xs[i]) == words(ys[i]),
    ensures
        read_lines(b, xs) == read_lines(b, ys),
    decreases xs.len(),
{
    if xs.len() > 0 {
        assert(words(xs[0]) == words(ys[0]));
        assert(read_line(b, xs[0]) == read_line(b, ys[0]));
        let xt = xs.drop_first();
        let yt = ys.drop_first();
        assert forall|i: int| 0 <= i < xt.len() implies words(#[trigger] xt[i]) == words(yt[i]) by {
            assert(xt[i] == xs[i + 1]);
            assert(yt[i] == ys[i + 1]);
        }
        match read_line(b, xs[0]) {
            Some(b1) => lemma_read_lines_same_words(b1, xt, yt),
            None => {},
        }
    }
}

/// Changing the whitespace before, after or between the words of any number
/// of lines gives the same book.
pub proof fn law_lines_whitespace_ignored(
    ps: Seq<Seq<char>>,
    xs: Seq<Seq<char>>,
    ys: Seq<Seq<char>>,
    q: Seq<char>,
)
    requires
        no_newlines(ps),
        no_newlines(xs),
        no_newlines(ys),
        xs.len() == ys.len(),
        forall|i: int| 0 <= i < xs.len() ==> words(#[trigger] xs[i]) == words(ys[i]),
    ensures
        read_book(lines_text(ps) + lines_text(xs) + q) == read_book(lines_text(ps) + lines_text(ys) + q),
{
    let e = Seq::<LevelView>::empty();
    let px = ps + xs;
    let py = ps + ys;
    assert(no_newlines(px)) by {
        assert forall|i: int| 0 <= i < px.len() implies !has_newline(#[trigger] px[i]) by {
            if i < ps.len() {
                assert(px[i] == ps[i]);
            } else {
                assert(px[i] == xs[i - ps.len()]);
            }
        }
    }
    assert(no_newlines(py)) by {
        assert forall|i: int| 0 <= i < py.len() implies !has_newline(#[trigger] py[i]) by {
            if i < ps.len() {
                assert(py[i] == ps[i]);
            } else {
                assert(py[i] == ys[i - ps.len()]);
            }
        }
    }
    crate::text::lemma_lines_text_add(ps, xs);
    crate::text::lemma_lines_text_add(ps, ys);
    lemma_lines_of_prefix(px, q);
    lemma_lines_of_prefix(py, q);
    let rest = lines_of(q);
    assert forall|i: int| 0 <= i < (px + rest).len() implies words(#[trigger] (px + rest)[i]) == words(
        (py + rest)[i],
    ) by {
        if i < ps.len() {
            assert((px + rest)[i] == ps[i]);
            assert((py + rest)[i] == ps[i]);
        } else if i < px.len() {
            assert((px + rest)[i] == xs[i - ps.len()]);
            assert((py + rest)[i] == ys[i - ps.len()]);
        } else {
            assert((px + rest)[i] == rest[i - px.len()]);
            assert((py + rest)[i] == rest[i - px.len()]);
        }
    }
    lemma_read_lines_same_words(e, px + rest, py + rest);
}

} // verus!
