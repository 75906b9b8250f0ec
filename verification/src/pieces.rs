//! Editing a level's list of pieces: clearing a spot, placing a piece, and
//! keeping the list ordered from the closest piece to the farthest.
use vstd::prelude::*;
use crate::levels::{LevelData, LevelView};
use crate::piece::Piece;

verus! {

/// Pieces closer than this to a newly placed piece are cleared first (tenths).
pub open spec fn place_gap() -> i64 {
    6
}

/// Pieces closer than this to the cursor are deleted (tenths).
pub open spec fn delete_gap() -> i64 {
    9
}

/// A piece is kept when it is more than `gap` tenths away from `here`.
pub open spec fn far_from(here: int, gap: int) -> spec_fn((Piece, i64)) -> bool {
    |p: (Piece, i64)| p.1 > here + gap || p.1 < here - gap
}

/// The pieces standing at position `z`.
pub open spec fn at_z(z: int) -> spec_fn((Piece, i64)) -> bool {
    |p: (Piece, i64)| p.1 == z
}

/// Closest pieces first: positions go from high (near) to low (far down the road).
pub open spec fn sorted_near_first(s: Seq<(Piece, i64)>) -> bool {
    forall|i: int, j: int| 0 <= i < j < s.len() ==> s[i].1 >= s[j].1
}

/// `x` put after every piece of `s` that is at least as close as it.
pub open spec fn insert_near_first(s: Seq<(Piece, i64)>, x: (Piece, i64)) -> Seq<(Piece, i64)>
    decreases s.len(),
{
    if s.len() == 0 {
        seq![x]
    } else if s[0].1 >= x.1 {
        seq![s[0]] + insert_near_first(s.drop_first(), x)
    } else {
        seq![x] + s
    }
}

/// The pieces ordered closest first; pieces at the same position keep their
/// order (a stable sort, as `sort_by` is).
pub open spec fn sort_near_first(s: Seq<(Piece, i64)>) -> Seq<(Piece, i64)>
    decreases s.len(),
{
    if s.len() == 0 {
        seq![]
    } else {
        insert_near_first(sort_near_first(s.drop_last()), s.last())
    }
}

/// A level after placing `piece` at `here`: pieces within 0.6 of the spot are
/// cleared, the piece is added, the list is ordered closest first, and the
/// golden gate moves to 10 past the piece when the piece is at or past 10
/// before it.
pub open spec fn placed(lv: LevelView, piece: Piece, here: int) -> LevelView {
    LevelView {
        pieces: sort_near_first(
            lv.pieces.filter(far_from(here, place_gap() as int)).push((piece, here as i64)),
        ),
        finish: if here - 100 < lv.finish {
            (here - 100) as i64
        } else {
            lv.finish
        },
        ..lv
    }
}

/// A level after deleting at `here`: pieces within 0.9 of the spot are removed.
pub open spec fn deleted(lv: LevelView, here: int) -> LevelView {
    LevelView { pieces: lv.pieces.filter(far_from(here, delete_gap() as int)), ..lv }
}

proof fn lemma_filter_empty(s: Seq<(Piece, i64)>, z: int)
    requires
        forall|i: int| 0 <= i < s.len() ==> s[i].1 < z,
    ensures
        s.filter(at_z(z)) == Seq::<(Piece, i64)>::empty(),
    decreases s.len(),
{
    reveal(Seq::filter);
    if s.len() > 0 {
        lemma_filter_empty(s.drop_last(), z);
    }
}

proof fn lemma_filter_cons(a: (Piece, i64), s: Seq<(Piece, i64)>, z: int)
    ensures
        (seq![a] + s).filter(at_z(z)) == if a.1 == z {
            seq![a] + s.filter(at_z(z))
        } else {
            s.filter(at_z(z))
        },
{
    reveal(Seq::filter);
    Seq::filter_distributes_over_add(seq![a], s, at_z(z));
    let one = seq![a];
    assert(one.drop_last() =~= Seq::<(Piece, i64)>::empty());
    assert(one.drop_last().filter(at_z(z)) =~= Seq::<(Piece, i64)>::empty());
    if a.1 == z {
        assert(one.filter(at_z(z)) =~= one);
    } else {
        assert(one.filter(at_z(z)) =~= Seq::<(Piece, i64)>::empty());
        assert(Seq::<(Piece, i64)>::empty() + s.filter(at_z(z)) =~= s.filter(at_z(z)));
    }
}

/// Every piece of the result is `x` or a piece of `s`.
proof fn lemma_insert_members(s: Seq<(Piece, i64)>, x: (Piece, i64))
    ensures
        insert_near_first(s, x).len() == s.len() + 1,
        forall|j: int|
            0 <= j < insert_near_first(s, x).len() ==> #[trigger] insert_near_first(s, x)[j] == x
                || s.contains(insert_near_first(s, x)[j]),
    decreases s.len(),
{
    if s.len() > 0 && s[0].1 >= x.1 {
        let rest = s.drop_first();
        lemma_insert_members(rest, x);
        let r = insert_near_first(s, x);
        let t = insert_near_first(rest, x);
        assert forall|j: int| 0 <= j < r.len() implies #[trigger] r[j] == x || s.contains(r[j]) by {
            if j == 0 {
                assert(r[0] == s[0]);
            } else {
                assert(r[j] == t[j - 1]);
                if t[j - 1] != x {
                    let k = choose|k: int| 0 <= k < rest.len() && rest[k] == t[j - 1];
                    assert(s[k + 1] == rest[k]);
                }
            }
        }
    } else if s.len() > 0 {
        let r = insert_near_first(s, x);
        assert forall|j: int| 0 <= j < r.len() implies #[trigger] r[j] == x || s.contains(r[j]) by {
            if j > 0 {
                assert(r[j] == s[j - 1]);
            }
        }
    }
}

proof fn lemma_insert_sorted(s: Seq<(Piece, i64)>, x: (Piece, i64))
    requires
        sorted_near_first(s),
    ensures
        sorted_near_first(insert_near_first(s, x)),
        forall|z: int|
            #![trigger at_z(z)]
            insert_near_first(s, x).filter(at_z(z)) == if x.1 == z {
                s.filter(at_z(z)).push(x)
            } else {
                s.filter(at_z(z))
            },
    decreases s.len(),
{
    let r = insert_near_first(s, x);
    if s.len() == 0 {
        assert forall|z: int| #![trigger at_z(z)] r.filter(at_z(z)) == if x.1 == z {
            s.filter(at_z(z)).push(x)
        } else {
            s.filter(at_z(z))
        } by {
            lemma_filter_cons(x, s, z);
            assert(s.filter(at_z(z)) =~= Seq::<(Piece, i64)>::empty()) by {
                reveal(Seq::filter);
            }
            assert(seq![x] + s =~= r);
        }
    } else if s[0].1 >= x.1 {
        let rest = s.drop_first();
        assert(sorted_near_first(rest)) by {
            assert forall|i: int, j: int| 0 <= i < j < rest.len() implies rest[i].1 >= rest[j].1 by {
                assert(rest[i] == s[i + 1]);
                assert(rest[j] == s[j + 1]);
            }
        }
        lemma_insert_sorted(rest, x);
        lemma_insert_members(rest, x);
        let t = insert_near_first(rest, x);
        assert(r == seq![s[0]] + t);
        assert forall|i: int, j: int| 0 <= i < j < r.len() implies r[i].1 >= r[j].1 by {
            if i == 0 {
                assert(r[j] == t[j - 1]);
                if t[j - 1] != x {
                    let k = choose|k: int| 0 <= k < rest.len() && rest[k] == t[j - 1];
                    assert(rest[k] == s[k + 1]);
                }
            } else {
                assert(r[i] == t[i - 1]);
                assert(r[j] == t[j - 1]);
            }
        }
        assert forall|z: int| #![trigger at_z(z)] r.filter(at_z(z)) == if x.1 == z {
            s.filter(at_z(z)).push(x)
        } else {
            s.filter(at_z(z))
        } by {
            lemma_filter_cons(s[0], t, z);
            lemma_filter_cons(s[0], rest, z);
            assert(seq![s[0]] + rest =~= s);
            if x.1 == z {
                if s[0].1 == z {
                    assert(seq![s[0]] + rest.filter(at_z(z)).push(x) =~= (seq![s[0]] + rest.filter(
                        at_z(z),
                    )).push(x));
                }
            }
        }
    } else {
        assert(r == seq![x] + s);
        assert forall|i: int, j: int| 0 <= i < j < r.len() implies r[i].1 >= r[j].1 by {
            if i == 0 {
                assert(r[j] == s[j - 1]);
                assert(s[0].1 >= s[j - 1].1);
            } else {
                assert(r[i] == s[i - 1]);
                assert(r[j] == s[j - 1]);
            }
        }
        assert forall|z: int| #![trigger at_z(z)] r.filter(at_z(z)) == if x.1 == z {
            s.filter(at_z(z)).push(x)
        } else {
            s.filter(at_z(z))
        } by {
            lemma_filter_cons(x, s, z);
            if x.1 == z {
                assert forall|i: int| 0 <= i < s.len() implies s[i].1 < z by {
                    assert(s[0].1 >= s[i].1);
                }
                lemma_filter_empty(s, z);
                assert(seq![x] + Seq::<(Piece, i64)>::empty() =~= Seq::<(Piece, i64)>::empty().push(x));
            }
        }
    }
}

/// The sort orders the pieces closest first, and the pieces at each position
/// come out in the order they went in.
pub proof fn law_sort_near_first(s: Seq<(Piece, i64)>)
    ensures
        sorted_near_first(sort_near_first(s)),
        forall|z: int| #![trigger at_z(z)] sort_near_first(s).filter(at_z(z)) == s.filter(at_z(z)),
    decreases s.len(),
{
    if s.len() > 0 {
        let init = s.drop_last();
        law_sort_near_first(init);
        lemma_insert_sorted(sort_near_first(init), s.last());
        assert forall|z: int| #![trigger at_z(z)] sort_near_first(s).filter(at_z(z)) == s.filter(
            at_z(z),
        ) by {
            assert(s =~= init.push(s.last()));
            init.lemma_filter_push(s.last(), at_z(z));
        }
    } else {
        assert forall|z: int| #![trigger at_z(z)] sort_near_first(s).filter(at_z(z)) == s.filter(
            at_z(z),
        ) by {
            reveal(Seq::filter);
        }
    }
}

/// `insert_near_first` as a split at the first farther piece.
proof fn lemma_insert_at(s: Seq<(Piece, i64)>, x: (Piece, i64), k: int)
    requires
        0 <= k <= s.len(),
        forall|i: int| 0 <= i < k ==> s[i].1 >= x.1,
        k == s.len() || s[k].1 < x.1,
    ensures
        insert_near_first(s, x) == s.take(k) + seq![x] + s.skip(k),
    decreases k,
{
    if k == 0 {
        assert(s.take(0) + seq![x] + s.skip(0) =~= seq![x] + s);
        if s.len() == 0 {
            assert(seq![x] + s =~= seq![x]);
        }
    } else {
        let rest = s.drop_first();
        assert forall|i: int| 0 <= i < k - 1 implies rest[i].1 >= x.1 by {
            assert(rest[i] == s[i + 1]);
        }
        if k < s.len() {
            assert(rest[k - 1] == s[k]);
        }
        lemma_insert_at(rest, x, k - 1);
        assert(s.take(k) + seq![x] + s.skip(k) =~= seq![s[0]] + (rest.take(k - 1) + seq![x]
            + rest.skip(k - 1)));
    }
}

/// Inserts `x` after every piece at least as close as it.
fn insert_piece(s: Vec<(Piece, i64)>, x: (Piece, i64)) -> (r: Vec<(Piece, i64)>)
    ensures
        r@ == insert_near_first(s@, x),
{
    let mut k: usize = 0;
    while k < s.len() && s[k].1 >= x.1
        invariant
            k <= s@.len(),
            forall|i: int| 0 <= i < k ==> s@[i].1 >= x.1,
        decreases s@.len() - k,
    {
        k = k + 1;
    }
    proof {
        lemma_insert_at(s@, x, k as int);
    }
    let mut r: Vec<(Piece, i64)> = Vec::new();
    let mut i: usize = 0;
    while i < k
        invariant
            i <= k <= s@.len(),
            r@ == s@.take(i as int),
        decreases k - i,
    {
        r.push(s[i]);
        i = i + 1;
        assert(r@ =~= s@.take(i as int));
    }
    r.push(x);
    while i < s.len()
        invariant
            k <= i <= s@.len(),
            r@ == s@.take(k as int) + seq![x] + s@.subrange(k as int, i as int),
        decreases s@.len() - i,
    {
        r.push(s[i]);
        i = i + 1;
        assert(r@ =~= s@.take(k as int) + seq![x] + s@.subrange(k as int, i as int));
    }
    assert(s@.subrange(k as int, i as int) =~= s@.skip(k as int));
    r
}

/// Orders the pieces closest first, keeping pieces at the same spot in order.
pub fn sort_pieces(s: &Vec<(Piece, i64)>) -> (r: Vec<(Piece, i64)>)
    ensures
        r@ == sort_near_first(s@),
{
    let mut r: Vec<(Piece, i64)> = Vec::new();
    let mut i: usize = 0;
    while i < s.len()
        invariant
            i <= s@.len(),
            r@ == sort_near_first(s@.take(i as int)),
        decreases s@.len() - i,
    {
        proof {
            let t = s@.take(i + 1);
            assert(t.drop_last() =~= s@.take(i as int));
        }
        r = insert_piece(r, s[i]);
        i = i + 1;
    }
    assert(s@.take(i as int) =~= s@);
    r
}

/// Keeps the pieces that are more than `gap` tenths away from `here`.
pub fn keep_far(s: &Vec<(Piece, i64)>, here: i64, gap: i64) -> (r: Vec<(Piece, i64)>)
    ensures
        r@ == s@.filter(far_from(here as int, gap as int)),
{
    let mut r: Vec<(Piece, i64)> = Vec::new();
    let mut i: usize = 0;
    while i < s.len()
        invariant
            i <= s@.len(),
            r@ == s@.take(i as int).filter(far_from(here as int, gap as int)),
        decreases s@.len() - i,
    {
        let p = s[i];
        proof {
            let t = s@.take(i + 1);
            assert(t =~= s@.take(i as int).push(p));
            s@.take(i as int).lemma_filter_push(p, far_from(here as int, gap as int));
        }
        let z = p.1 as i128;
        let h = here as i128;
        let g = gap as i128;
        if z > h + g || z < h - g {
            r.push(p);
        }
        i = i + 1;
    }
    assert(s@.take(i as int) =~= s@);
    r
}

/// Places `piece` at `here` in a level (see `placed`).
pub fn place_piece(level: &mut LevelData, piece: Piece, here: i64)
    requires
        here >= i64::MIN + 100,
    ensures
        final(level)@ == placed(old(level)@, piece, here as int),
{
    let mut kept = keep_far(&level.pieces, here, 6);
    kept.push((piece, here));
    level.pieces = sort_pieces(&kept);
    if here - 100 < level.finish {
        level.finish = here - 100;
    }
    assert(level@ =~= placed(old(level)@, piece, here as int));
}

/// Deletes the pieces near `here` (see `deleted`).
pub fn delete_pieces(level: &mut LevelData, here: i64)
    ensures
        final(level)@ == deleted(old(level)@, here as int),
{
    level.pieces = keep_far(&level.pieces, here, 9);
    assert(level@ =~= deleted(old(level)@, here as int));
}

/// Every piece that the sort gives out went in, at the same position.
proof fn lemma_sort_members(s: Seq<(Piece, i64)>)
    ensures
        forall|i: int| 0 <= i < sort_near_first(s).len() ==> s.contains(#[trigger] sort_near_first(s)[i]),
{
    law_sort_near_first(s);
    let r = sort_near_first(s);
    assert forall|i: int| 0 <= i < r.len() implies s.contains(#[trigger] r[i]) by {
        let x = r[i];
        reveal(Seq::filter);
        r.lemma_filter_contains(at_z(x.1 as int), i);
        assert(r.filter(at_z(x.1 as int)) == s.filter(at_z(x.1 as int)));
        s.lemma_filter_contains_rev(at_z(x.1 as int), x);
    }
}

/// Placing a piece leaves the list ordered closest first, holds the new
/// piece, keeps no other piece within 0.6 of it, and puts the golden gate at
/// least 10 past it.
pub proof fn law_place_piece(lv: LevelView, piece: Piece, here: int)
    requires
        i64::MIN + 100 <= here <= i64::MAX,
    ensures
        sorted_near_first(placed(lv, piece, here).pieces),
        placed(lv, piece, here).pieces.contains((piece, here as i64)),
        forall|i: int|
            0 <= i < placed(lv, piece, here).pieces.len() ==> #[trigger] placed(lv, piece, here).pieces[i]
                == (piece, here as i64) || (far_from(here, place_gap() as int))(placed(lv, piece, here).pieces[i]),
        placed(lv, piece, here).finish <= here - 100,
{
    let kept = lv.pieces.filter(far_from(here, place_gap() as int));
    let input = kept.push((piece, here as i64));
    let r = sort_near_first(input);
    law_sort_near_first(input);
    lemma_sort_members(input);
    // the new piece is in the input, so in the output
    reveal(Seq::filter);
    assert(input[input.len() - 1] == (piece, here as i64));
    input.lemma_filter_contains(at_z(here), input.len() - 1);
    assert(r.filter(at_z(here)) == input.filter(at_z(here)));
    r.lemma_filter_contains_rev(at_z(here), (piece, here as i64));
    // every other piece was kept because it was far away
    assert forall|i: int| 0 <= i < r.len() implies #[trigger] r[i] == (piece, here as i64) || (far_from(
        here,
        place_gap() as int,
    ))(r[i]) by {
        assert(input.contains(r[i]));
        let k = choose|k: int| 0 <= k < input.len() && input[k] == r[i];
        if k < kept.len() {
            assert(input[k] == kept[k]);
            lv.pieces.lemma_filter_pred(far_from(here, place_gap() as int), k);
        }
    }
}

/// After deleting, no piece within 0.9 of the spot is left, and the pieces
/// farther away are all kept, in order.
pub proof fn law_delete_pieces(lv: LevelView, here: int)
    ensures
        forall|i: int|
            0 <= i < deleted(lv, here).pieces.len() ==> (far_from(here, delete_gap() as int))(
                #[trigger] deleted(lv, here).pieces[i],
            ),
        forall|i: int|
            0 <= i < lv.pieces.len() && (far_from(here, delete_gap() as int))(lv.pieces[i])
                ==> deleted(lv, here).pieces.contains(#[trigger] lv.pieces[i]),
{
    let p = far_from(here, delete_gap() as int);
    assert forall|i: int| 0 <= i < deleted(lv, here).pieces.len() implies p(
        #[trigger] deleted(lv, here).pieces[i],
    ) by {
        lv.pieces.lemma_filter_pred(p, i);
    }
    assert forall|i: int| 0 <= i < lv.pieces.len() && p(lv.pieces[i]) implies deleted(
        lv,
        here,
    ).pieces.contains(#[trigger] lv.pieces[i]) by {
        lv.pieces.lemma_filter_contains(p, i);
    }
}

/// Every piece that goes into the sort comes out of it.
proof fn lemma_sort_keeps(s: Seq<(Piece, i64)>, x: (Piece, i64))
    requires
        s.contains(x),
    ensures
        sort_near_first(s).contains(x),
{
    law_sort_near_first(s);
    reveal(Seq::filter);
    let k = choose|k: int| 0 <= k < s.len() && s[k] == x;
    s.lemma_filter_contains(at_z(x.1 as int), k);
    assert(sort_near_first(s).filter(at_z(x.1 as int)) == s.filter(at_z(x.1 as int)));
    sort_near_first(s).lemma_filter_contains_rev(at_z(x.1 as int), x);
}

/// Placing a piece at `here` clears exactly the pieces less than 0.6 from it,
/// on either side: every piece more than 6 tenths away, nearer or farther,
/// stays, and every piece of the result is the new piece or such a piece.
/// The golden gate never comes closer: it stays where it was when it was
/// already at least 10 past the piece, and else moves to 10 past the piece.
pub proof fn law_place_clears_only_near(lv: LevelView, piece: Piece, here: int)
    requires
        i64::MIN + 100 <= here <= i64::MAX,
    ensures
        forall|i: int|
            0 <= i < lv.pieces.len() && (lv.pieces[i].1 - here > 6 || here - lv.pieces[i].1 > 6)
                ==> placed(lv, piece, here).pieces.contains(#[trigger] lv.pieces[i]),
        forall|j: int|
            0 <= j < placed(lv, piece, here).pieces.len() ==> #[trigger] placed(lv, piece, here).pieces[j]
                == (piece, here as i64) || (lv.pieces.contains(placed(lv, piece, here).pieces[j]) && (
            placed(lv, piece, here).pieces[j].1 - here > 6 || here - placed(lv, piece, here).pieces[j].1 > 6)),
        placed(lv, piece, here).finish <= lv.finish,
        placed(lv, piece, here).finish <= here - 100,
        placed(lv, piece, here).finish == lv.finish || placed(lv, piece, here).finish == here - 100,
{
    let f = far_from(here, place_gap() as int);
    let kept = lv.pieces.filter(f);
    let input = kept.push((piece, here as i64));
    let r = placed(lv, piece, here).pieces;
    assert(r == sort_near_first(input));
    assert forall|i: int|
        0 <= i < lv.pieces.len() && (lv.pieces[i].1 - here > 6 || here - lv.pieces[i].1 > 6) implies r.contains(
        #[trigger] lv.pieces[i],
    ) by {
        let x = lv.pieces[i];
        lv.pieces.lemma_filter_contains(f, i);
        let k = choose|k: int| 0 <= k < kept.len() && kept[k] == x;
        assert(input[k] == x);
        lemma_sort_keeps(input, x);
    }
    lemma_sort_members(input);
    assert forall|j: int| 0 <= j < r.len() implies #[trigger] r[j] == (piece, here as i64) || (
    lv.pieces.contains(r[j]) && (r[j].1 - here > 6 || here - r[j].1 > 6)) by {
        assert(input.contains(r[j]));
        let k = choose|k: int| 0 <= k < input.len() && input[k] == r[j];
        if k < kept.len() {
            assert(input[k] == kept[k]);
            lv.pieces.lemma_filter_pred(f, k);
            assert(kept.contains(r[j]));
            lv.pieces.lemma_filter_contains_rev(f, r[j]);
        }
    }
}

/// Deleting at `here` removes exactly the pieces less than 0.9 from it, on
/// either side: every piece more than 9 tenths away, nearer or farther,
/// stays, and every piece left was there before and is more than 9 tenths
/// away. Nothing else of the level changes.
pub proof fn law_delete_removes_only_near(lv: LevelView, here: int)
    ensures
        forall|i: int|
            0 <= i < lv.pieces.len() && (lv.pieces[i].1 - here > 9 || here - lv.pieces[i].1 > 9)
                ==> deleted(lv, here).pieces.contains(#[trigger] lv.pieces[i]),
        forall|j: int|
            0 <= j < deleted(lv, here).pieces.len() ==> lv.pieces.contains(#[trigger] deleted(lv, here).pieces[j])
                && (deleted(lv, here).pieces[j].1 - here > 9 || here - deleted(lv, here).pieces[j].1 > 9),
        deleted(lv, here).name == lv.name,
        deleted(lv, here).speed == lv.speed,
        deleted(lv, here).finish == lv.finish,
        deleted(lv, here).boss == lv.boss,
{
    let f = far_from(here, delete_gap() as int);
    let r = deleted(lv, here).pieces;
    assert forall|i: int|
        0 <= i < lv.pieces.len() && (lv.pieces[i].1 - here > 9 || here - lv.pieces[i].1 > 9) implies r.contains(
        #[trigger] lv.pieces[i],
    ) by {
        lv.pieces.lemma_filter_contains(f, i);
    }
    assert forall|j: int| 0 <= j < r.len() implies lv.pieces.contains(#[trigger] r[j]) && (r[j].1 - here > 9
        || here - r[j].1 > 9) by {
        lv.pieces.lemma_filter_pred(f, j);
        assert(r.contains(r[j]));
        lv.pieces.lemma_filter_contains_rev(f, r[j]);
    }
}

} // verus!
