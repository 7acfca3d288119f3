//! Counting cells: a full board holds every piece.
//!
//! The cells outside the frame are 43. The date takes two of them, and the
//! eight pieces have 41 cells together, so that a board on which every cell is
//! taken has all eight pieces on it.

use crate::game::Game;
use crate::mask::Mask;
use crate::piece::source_cell;
use crate::piece::Piece;
use vstd::prelude::*;
use vstd::relations::injective_on;
use vstd::set_lib::*;

verus! {

/// The cells of the board outside the frame.
pub open spec fn playable() -> Set<(int, int)> {
    Set::new(
        |cell: (int, int)|
            0 <= cell.0 < 8 && 0 <= cell.1 < 8 && !Mask::frame_cell(cell.0, cell.1),
    )
}

/// The cells outside the frame, counted in reading order.
pub open spec fn playable_cell(i: int) -> (int, int) {
    if i < 12 {
        (i / 6, i % 6)
    } else if i < 40 {
        (2 + (i - 12) / 7, (i - 12) % 7)
    } else {
        (6, i - 40)
    }
}

/// The cell that the cell `(row, column)` goes to when a board is turned
/// clockwise by `turns` quarter turns and then, if `mirrored`, mirrored
/// across the main diagonal: the inverse of `source_cell`.
pub open spec fn target_cell(turns: int, mirrored: bool, row: int, column: int) -> (int, int) {
    let r = if turns == 0 {
        row
    } else if turns == 1 {
        column
    } else if turns == 2 {
        7 - row
    } else {
        7 - column
    };
    let c = if turns == 0 {
        column
    } else if turns == 1 {
        7 - row
    } else if turns == 2 {
        7 - column
    } else {
        row
    };
    if mirrored {
        (c, r)
    } else {
        (r, c)
    }
}

/// The cells of the piece as it lies at the top left of the board.
pub open spec fn shape(piece: Piece) -> Set<(int, int)> {
    Set::new(|cell: (int, int)| piece.covers(cell.0, cell.1))
}

/// The number of cells of the piece.
pub open spec fn cells(piece: Piece) -> int {
    if piece == Piece::O {
        6
    } else {
        5
    }
}

/// The cells of the date and of the first `n` pieces.
pub open spec fn covered(game: Game, n: int) -> Set<(int, int)>
    decreases n,
{
    if n <= 0 {
        game.date@
    } else {
        covered(game, n - 1) + game.pieces[n - 1]@
    }
}

/// The number of cells of those of the first `n` pieces that are on the
/// board.
pub open spec fn laid_cells(game: Game, n: int) -> int
    decreases n,
{
    if n <= 0 {
        0
    } else {
        laid_cells(game, n - 1) + if game.pieces[n - 1] == Mask::spec_blank() {
            0int
        } else {
            cells(Piece::spec_nth(n - 1))
        }
    }
}

/// There are 43 cells outside the frame.
pub proof fn lemma_playable_len()
    ensures
        playable().finite(),
        playable().len() == 43,
{
    let range = set_int_range(0, 43);
    lemma_int_range(0, 43);
    let f = |i: int| playable_cell(i);
    assert(injective_on(f, range)) by {
        assert forall|x1: int, x2: int|
            range.contains(x1) && range.contains(x2) && #[trigger] f(x1) == #[trigger] f(
                x2,
            ) implies x1 == x2 by {}
    }
    assert forall|cell: (int, int)| playable().contains(cell) implies range.map(f).contains(
        cell,
    ) by {
        let i = if cell.0 < 2 {
            cell.0 * 6 + cell.1
        } else if cell.0 < 6 {
            12 + (cell.0 - 2) * 7 + cell.1
        } else {
            40 + cell.1
        };
        assert(range.contains(i));
        assert(f(i) == cell);
    }
    assert forall|cell: (int, int)| range.map(f).contains(cell) implies playable().contains(
        cell,
    ) by {
        let i = choose|i: int| range.contains(i) && cell == f(i);
        assert(cell == playable_cell(i));
    }
    assert(range.map(f) =~= playable());
    lemma_map_size(range, playable(), f);
}

/// A piece has five cells, but for the piece with six.
pub proof fn lemma_shape_len(piece: Piece)
    ensures
        shape(piece).finite(),
        shape(piece).len() == cells(piece),
{
    let s = shape(piece);
    match piece {
        Piece::C => {
            assert(s =~= set![(0int, 0int), (0int, 1int), (0int, 2int), (1int, 0int), (1int, 2int)]);
        },
        Piece::Gamma => {
            assert(s =~= set![(0int, 0int), (0int, 1int), (0int, 2int), (1int, 0int), (2int, 0int)]);
        },
        Piece::L => {
            assert(s =~= set![(0int, 0int), (1int, 0int), (2int, 0int), (3int, 0int), (3int, 1int)]);
        },
        Piece::Lamedh => {
            assert(s =~= set![(0int, 0int), (1int, 0int), (2int, 0int), (2int, 1int), (3int, 1int)]);
        },
        Piece::O => {
            assert(s =~= set![
                (0int, 0int),
                (0int, 1int),
                (0int, 2int),
                (1int, 0int),
                (1int, 1int),
                (1int, 2int),
            ]);
        },
        Piece::P => {
            assert(s =~= set![(0int, 0int), (0int, 1int), (0int, 2int), (1int, 0int), (1int, 1int)]);
        },
        Piece::T => {
            assert(s =~= set![(0int, 0int), (1int, 0int), (2int, 0int), (2int, 1int), (3int, 0int)]);
        },
        Piece::Z => {
            assert(s =~= set![(0int, 0int), (0int, 1int), (1int, 1int), (2int, 1int), (2int, 2int)]);
        },
    }
}

/// A placement of a piece has as many cells as the piece.
pub proof fn lemma_placement_len(piece: Piece, mask: Mask)
    requires
        piece.is_placement(mask),
    ensures
        mask@.finite(),
        mask@.len() == cells(piece),
        mask != Mask::spec_blank(),
{
    let (right, down, turns, mirrored) = choose|right: int, down: int, turns: int, mirrored: bool|
        piece.places(right, down, turns, mirrored, mask);
    assert(piece.places(right, down, turns, mirrored, mask));
    let s = shape(piece);
    let g = |cell: (int, int)| target_cell(turns, mirrored, cell.0 + down, cell.1 + right);
    lemma_shape_len(piece);
    assert(injective_on(g, s)) by {
        assert forall|x1: (int, int), x2: (int, int)|
            s.contains(x1) && s.contains(x2) && #[trigger] g(x1) == #[trigger] g(
                x2,
            ) implies x1 == x2 by {
            let t = g(x1);
            assert(source_cell(turns, mirrored, t.0, t.1) == (x1.0 + down, x1.1 + right));
            assert(source_cell(turns, mirrored, t.0, t.1) == (x2.0 + down, x2.1 + right));
        }
    }
    assert forall|cell: (int, int)| mask@.contains(cell) implies s.map(g).contains(cell) by {
        assert(mask.has(cell.0, cell.1));
        let from = source_cell(turns, mirrored, cell.0, cell.1);
        let x = (from.0 - down, from.1 - right);
        assert(s.contains(x));
        assert(g(x) == cell);
    }
    assert forall|cell: (int, int)| s.map(g).contains(cell) implies mask@.contains(cell) by {
        let x = choose|x: (int, int)| s.contains(x) && cell == g(x);
        assert(piece.covers(x.0, x.1));
        assert(0 <= x.0 + down < 8 && 0 <= x.1 + right < 8);
        assert(source_cell(turns, mirrored, cell.0, cell.1) == (x.0 + down, x.1 + right));
        assert(mask.has(cell.0, cell.1));
    }
    assert(s.map(g) =~= mask@);
    lemma_map_size(s, mask@, g);
    Mask::lemma_blank_full();
    if mask == Mask::spec_blank() {
        assert(mask@ =~= Set::<(int, int)>::empty());
    }
}

/// The date and the pieces on the board cover as many cells as the pieces
/// have, and two more.
pub proof fn lemma_covered(game: Game, n: int)
    requires
        game.wf(),
        0 <= n <= 8,
        game.in_placements(),
    ensures
        covered(game, n).finite(),
        covered(game, n).len() == 2 + laid_cells(game, n),
        forall|cell: (int, int)| #[trigger]
            covered(game, n).contains(cell) <==> (game.date.has(cell.0, cell.1) || exists|i: int|
                0 <= i < n && #[trigger] game.pieces[i].has(cell.0, cell.1)),
    decreases n,
{
    if n == 0 {
        let (month, day) = choose|month: int, day: int| Game::marks(game.date, month, day);
        assert(Game::marks(game.date, month, day));
        let first = (month / 6, month % 6);
        let second = (2 + day / 7, day % 7);
        assert(game.date@ =~= set![first, second]);
    } else {
        lemma_covered(game, n - 1);
        let before = covered(game, n - 1);
        let piece = game.pieces[n - 1];
        Mask::lemma_blank_full();
        if piece == Mask::spec_blank() {
            assert(piece@ =~= Set::<(int, int)>::empty());
            assert(before + piece@ =~= before);
        } else {
            lemma_placement_len(Piece::spec_nth(n - 1), piece);
            assert(before.disjoint(piece@)) by {
                assert forall|cell: (int, int)| !(before.contains(cell) && piece@.contains(
                    cell,
                )) by {
                    if before.contains(cell) && piece@.contains(cell) {
                        assert(game.pieces[n - 1].has(cell.0, cell.1));
                        if !game.date.has(cell.0, cell.1) {
                            let i = choose|i: int|
                                0 <= i < n - 1 && #[trigger] game.pieces[i].has(cell.0, cell.1);
                            assert(game.pieces[i].has(cell.0, cell.1));
                        }
                    }
                }
            }
            lemma_set_disjoint_lens(before, piece@);
        }
        assert forall|cell: (int, int)| #[trigger]
            covered(game, n).contains(cell) <==> (game.date.has(cell.0, cell.1) || exists|i: int|
                0 <= i < n && #[trigger] game.pieces[i].has(cell.0, cell.1)) by {
            if covered(game, n).contains(cell) && !game.date.has(cell.0, cell.1) {
                if piece@.contains(cell) {
                    assert(game.pieces[n - 1].has(cell.0, cell.1));
                } else {
                    let i = choose|i: int|
                        0 <= i < n - 1 && #[trigger] game.pieces[i].has(cell.0, cell.1);
                    assert(game.pieces[i].has(cell.0, cell.1));
                }
            }
            if exists|i: int| 0 <= i < n && #[trigger] game.pieces[i].has(cell.0, cell.1) {
                let i = choose|i: int| 0 <= i < n && #[trigger] game.pieces[i].has(cell.0, cell.1);
                if i == n - 1 {
                    assert(piece@.contains(cell));
                } else {
                    assert(before.contains(cell));
                }
            }
        }
    }
}

/// On a full board on which each piece either is missing or lies in one of
/// its placements, no piece is missing.
pub proof fn lemma_full_board_holds_every_piece(game: Game)
    requires
        game.wf(),
        game.placed == Mask::spec_full(),
        game.in_placements(),
    ensures
        forall|i: int| 0 <= i < 8 ==> Piece::spec_nth(i).is_placement(#[trigger] game.pieces[i]),
{
    lemma_covered(game, 8);
    lemma_playable_len();
    Mask::lemma_blank_full();
    Mask::lemma_frame();
    assert forall|cell: (int, int)| playable().contains(cell) implies covered(game, 8).contains(
        cell,
    ) by {
        assert(game.placed.has(cell.0, cell.1));
        if !game.date.has(cell.0, cell.1) {
            assert(game.piece_covers(cell.0, cell.1));
            let i = choose|i: int| 0 <= i < 8 && #[trigger] game.pieces[i].has(cell.0, cell.1);
            assert(game.pieces[i].has(cell.0, cell.1));
        }
    }
    assert forall|cell: (int, int)| covered(game, 8).contains(cell) implies playable().contains(
        cell,
    ) by {
        if !game.date.has(cell.0, cell.1) {
            let i = choose|i: int| 0 <= i < 8 && #[trigger] game.pieces[i].has(cell.0, cell.1);
            assert(game.pieces[i].has(cell.0, cell.1));
        }
    }
    assert(covered(game, 8) =~= playable());
    assert(laid_cells(game, 8) == 41);
    reveal_with_fuel(laid_cells, 9);
    assert(game.pieces[0] != Mask::spec_blank());
    assert(game.pieces[1] != Mask::spec_blank());
    assert(game.pieces[2] != Mask::spec_blank());
    assert(game.pieces[3] != Mask::spec_blank());
    assert(game.pieces[4] != Mask::spec_blank());
    assert(game.pieces[5] != Mask::spec_blank());
    assert(game.pieces[6] != Mask::spec_blank());
    assert(game.pieces[7] != Mask::spec_blank());
}

/// A full board with every piece in one of its placements shows how the
/// pieces from index `from` on complete a board on which only the pieces
/// before them lie.
pub proof fn lemma_full_board_completes(game: Game, placed: Mask, from: int)
    requires
        game.wf(),
        game.placed == Mask::spec_full(),
        0 <= from <= 8,
        forall|i: int| from <= i < 8 ==> Piece::spec_nth(i).is_placement(#[trigger] game.pieces[i]),
        forall|r: int, c: int| #[trigger]
            placed.has(r, c) == (Mask::spec_frame().has(r, c) || game.date.has(r, c) || exists|
                i: int,
            |
                0 <= i < from && #[trigger] game.pieces[i].has(r, c)),
    ensures
        Game::completable(placed, from),
    decreases 8 - from,
{
    Mask::lemma_blank_full();
    if from == 8 {
        assert forall|r: int, c: int| 0 <= r < 8 && 0 <= c < 8 implies #[trigger] placed.has(r, c)
            == Mask::spec_full().has(r, c) by {
            assert(game.placed.has(r, c));
            if game.piece_covers(r, c) {
                let i = choose|i: int| 0 <= i < 8 && #[trigger] game.pieces[i].has(r, c);
                assert(game.pieces[i].has(r, c));
            }
        }
        placed.lemma_equal(Mask::spec_full());
        assert(Game::completable(placed, from));
    } else {
        let m = game.pieces[from];
        let next = placed.spec_union(m);
        placed.lemma_algebra(m);
        assert forall|r: int, c: int|
            !(#[trigger] m.has(r, c) && #[trigger] placed.has(r, c)) by {
            if m.has(r, c) && placed.has(r, c) {
                assert(game.pieces[from].has(r, c));
                if !Mask::spec_frame().has(r, c) && !game.date.has(r, c) {
                    let i = choose|i: int| 0 <= i < from && #[trigger] game.pieces[i].has(r, c);
                    assert(game.pieces[i].has(r, c));
                }
            }
        }
        assert forall|r: int, c: int| #[trigger]
            next.has(r, c) == (Mask::spec_frame().has(r, c) || game.date.has(r, c) || exists|
                i: int,
            |
                0 <= i < from + 1 && #[trigger] game.pieces[i].has(r, c)) by {
            if next.has(r, c) {
                if m.has(r, c) {
                    assert(game.pieces[from].has(r, c));
                } else if !Mask::spec_frame().has(r, c) && !game.date.has(r, c) {
                    let i = choose|i: int| 0 <= i < from && #[trigger] game.pieces[i].has(r, c);
                    assert(game.pieces[i].has(r, c));
                }
            }
            if exists|i: int| 0 <= i < from + 1 && #[trigger] game.pieces[i].has(r, c) {
                let i = choose|i: int| 0 <= i < from + 1 && #[trigger] game.pieces[i].has(r, c);
                if i < from {
                    assert(game.pieces[i].has(r, c));
                    assert(placed.has(r, c));
                }
            }
        }
        lemma_full_board_completes(game, next, from + 1);
        assert(Piece::spec_nth(from).is_placement(m));
        assert(m.disjoint(placed));
        assert(Game::completable(placed.spec_union(m), from + 1));
        assert(Game::completable(placed, from));
    }
}

} // verus!
