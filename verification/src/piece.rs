//! The kinds of level pieces and the words that name them in the level file.
use vstd::prelude::*;
use crate::text::{chars_of, range_is};

verus! {

/// A kind of piece that a level is built from.
#[derive(Clone, Copy, PartialEq, Eq, Debug, Structural)]
pub enum Piece {
    Spike,
    Cube,
    TallCube,
    TripleCube,
    CubeWithSpike,
    SkySpike,
    BadGuy,
}

/// The word that names a piece in the level file.
pub open spec fn word_of(p: Piece) -> Seq<char> {
    match p {
        Piece::Spike => seq!['s', 'p', 'i', 'k', 'e'],
        Piece::Cube => seq!['c', 'u', 'b', 'e'],
        Piece::TallCube => seq!['t', 'a', 'l', 'l'],
        Piece::TripleCube => seq!['t', 'r', 'i', 'p', 'l', 'e'],
        Piece::CubeWithSpike => seq!['c', 'u', 'b', 'e', 's', 'p', 'i', 'k', 'e'],
        Piece::SkySpike => seq!['s', 'k', 'y', 's', 'p', 'i', 'k', 'e'],
        Piece::BadGuy => seq!['b', 'a', 'd', 'g', 'u', 'y'],
    }
}

/// The piece that a word names, if any.
pub open spec fn piece_of_word(w: Seq<char>) -> Option<Piece> {
    if w == word_of(Piece::Spike) {
        Some(Piece::Spike)
    } else if w == word_of(Piece::Cube) {
        Some(Piece::Cube)
    } else if w == word_of(Piece::TallCube) {
        Some(Piece::TallCube)
    } else if w == word_of(Piece::TripleCube) {
        Some(Piece::TripleCube)
    } else if w == word_of(Piece::CubeWithSpike) {
        Some(Piece::CubeWithSpike)
    } else if w == word_of(Piece::SkySpike) {
        Some(Piece::SkySpike)
    } else if w == word_of(Piece::BadGuy) {
        Some(Piece::BadGuy)
    } else {
        None
    }
}

/// Each piece word names its own piece, and no other.
pub proof fn lemma_word_of_distinct(p: Piece, q: Piece)
    ensures
        (word_of(p) == word_of(q)) == (p == q),
{
    if p != q {
        let a = word_of(p);
        let b = word_of(q);
        if a.len() == b.len() {
            assert(a[0] != b[0] || a[1] != b[1] || a[2] != b[2]);
        }
    }
}

/// Turning a piece into its word and back gives the same piece.
pub proof fn law_piece_word_roundtrip(p: Piece)
    ensures
        piece_of_word(word_of(p)) == Some(p),
{
    lemma_word_of_distinct(p, Piece::Spike);
    lemma_word_of_distinct(p, Piece::Cube);
    lemma_word_of_distinct(p, Piece::TallCube);
    lemma_word_of_distinct(p, Piece::TripleCube);
    lemma_word_of_distinct(p, Piece::CubeWithSpike);
    lemma_word_of_distinct(p, Piece::SkySpike);
}

/// Turns a piece into the word written in the level file.
pub fn piece_to_word(piece: Piece) -> (w: &'static str)
    ensures
        w@ == word_of(piece),
{
    match piece {
        Piece::Spike => {
            let w = "spike";
            proof {
                reveal_strlit("spike");
                assert(w@ =~= word_of(piece));
            }
            w
        },
        Piece::Cube => {
            let w = "cube";
            proof {
                reveal_strlit("cube");
                assert(w@ =~= word_of(piece));
            }
            w
        },
        Piece::TallCube => {
            let w = "tall";
            proof {
                reveal_strlit("tall");
                assert(w@ =~= word_of(piece));
            }
            w
        },
        Piece::TripleCube => {
            let w = "triple";
            proof {
                reveal_strlit("triple");
                assert(w@ =~= word_of(piece));
            }
            w
        },
        Piece::CubeWithSpike => {
            let w = "cubespike";
            proof {
                reveal_strlit("cubespike");
                assert(w@ =~= word_of(piece));
            }
            w
        },
        Piece::SkySpike => {
            let w = "skyspike";
            proof {
                reveal_strlit("skyspike");
                assert(w@ =~= word_of(piece));
            }
            w
        },
        Piece::BadGuy => {
            let w = "badguy";
            proof {
                reveal_strlit("badguy");
                assert(w@ =~= word_of(piece));
            }
            w
        },
    }
}

/// The piece named by the word `v[start..end]`, if any.
pub fn piece_at(v: &Vec<char>, start: usize, end: usize) -> (r: Option<Piece>)
    requires
        start <= end <= v@.len(),
    ensures
        r == piece_of_word(v@.subrange(start as int, end as int)),
{
    let pieces = [
        Piece::Spike,
        Piece::Cube,
        Piece::TallCube,
        Piece::TripleCube,
        Piece::CubeWithSpike,
        Piece::SkySpike,
        Piece::BadGuy,
    ];
    let ghost w = v@.subrange(start as int, end as int);
    let mut k: usize = 0;
    while k < 7
        invariant
            k <= 7,
            pieces@ == seq![
                Piece::Spike,
                Piece::Cube,
                Piece::TallCube,
                Piece::TripleCube,
                Piece::CubeWithSpike,
                Piece::SkySpike,
                Piece::BadGuy,
            ],
            start <= end <= v@.len(),
            w == v@.subrange(start as int, end as int),
            forall|j: int| 0 <= j < k ==> w != word_of(#[trigger] pieces@[j]),
        decreases 7 - k,
    {
        let p = pieces[k];
        let word = piece_to_word(p);
        if range_is(v, start, end, word) {
            return Some(p);
        }
        k = k + 1;
    }
    assert(w != word_of(pieces@[0]));
    assert(w != word_of(pieces@[1]));
    assert(w != word_of(pieces@[2]));
    assert(w != word_of(pieces@[3]));
    assert(w != word_of(pieces@[4]));
    assert(w != word_of(pieces@[5]));
    assert(w != word_of(pieces@[6]));
    None
}

/// Turns a word from the level file back into a piece; `None` for a word
/// that names no piece.
pub fn word_to_piece(word: &str) -> (r: Option<Piece>)
    ensures
        r == piece_of_word(word@),
{
    let v = chars_of(word);
    assert(v@.subrange(0, v@.len() as int) =~= word@);
    piece_at(&v, 0, v.len())
}

} // verus!
