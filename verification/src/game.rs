//! The state of a game, and the search for a way to lay all the pieces.

use crate::mask::Mask;
use crate::piece::ascending;
use crate::piece::Piece;
use crate::tiling::lemma_full_board_completes;
use crate::tiling::lemma_full_board_holds_every_piece;
use crate::tiling::lemma_placement_len;
use vstd::prelude::*;

verus! {

/// The placements of every piece, made once and then only read.
pub struct Catalog {
    /// For each piece, by its index, every way to lay it on the board.
    pub lists: Vec<Vec<Mask>>,
}

impl Catalog {
    /// Whether the catalog holds, for each piece, its placements and nothing
    /// else, in ascending order.
    pub open spec fn wf(self) -> bool {
        &&& self.lists@.len() == 8
        &&& forall|i: int|
            0 <= i < 8 ==> ascending(#[trigger] self.lists@[i]@) && forall|m: Mask|
                self.lists@[i]@.contains(m) <==> Piece::spec_nth(i).is_placement(m)
    }

    /// Lists the placements of all the pieces.
    pub fn new() -> (catalog: Catalog)
        ensures
            catalog.wf(),
    {
        let mut lists: Vec<Vec<Mask>> = Vec::new();
        let mut i: usize = 0;
        while i < Piece::COUNT
            invariant
                i <= 8,
                lists@.len() == i,
                forall|k: int|
                    0 <= k < i ==> ascending(#[trigger] lists@[k]@) && forall|m: Mask|
                        lists@[k]@.contains(m) <==> Piece::spec_nth(k).is_placement(m),
            decreases 8 - i,
        {
            let piece = Piece::nth(i);
            lists.push(piece.positions());
            i += 1;
        }
        Catalog { lists }
    }
}

/// A board with a date marked on it and some of the pieces laid.
///
/// Each piece is on the board once at most, and no cell is covered twice.
pub struct Game {
    /// The two cells that stay open: they show the date that is solved for.
    pub date: Mask,
    /// The cells of each piece, by the piece's index; blank while the piece
    /// is not on the board.
    pub pieces: [Mask; 8],
    /// Every cell that is taken: by the frame, by the date or by a piece.
    pub placed: Mask,
    /// The index of the piece that the search lays next.
    pub next_piece_index: usize,
}

impl Game {
    /// Whether some piece covers the cell at `row` and `column`.
    pub open spec fn piece_covers(self, row: int, column: int) -> bool {
        exists|i: int| 0 <= i < 8 && #[trigger] self.pieces[i].has(row, column)
    }

    /// Whether the cells of `date` are the cell of the month `month` and the
    /// cell of the day `day`, both counted from 0.
    pub open spec fn marks(date: Mask, month: int, day: int) -> bool {
        &&& 0 <= month < 12
        &&& 0 <= day < 31
        &&& forall|r: int, c: int| #[trigger]
            date.has(r, c) == ((r == month / 6 && c == month % 6) || (r == 2 + day / 7 && c == day
                % 7))
    }

    /// Whether `date` marks a month and a day.
    pub open spec fn is_date(date: Mask) -> bool {
        exists|month: int, day: int| Game::marks(date, month, day)
    }

    /// Whether the date marks a month and a day, the taken cells are those of
    /// the frame, the date and the pieces, and no two of these share a cell.
    pub open spec fn wf(self) -> bool {
        &&& self.next_piece_index <= 8
        &&& Game::is_date(self.date)
        &&& forall|r: int, c: int| #[trigger]
            self.placed.has(r, c) == (Mask::spec_frame().has(r, c) || self.date.has(r, c)
                || self.piece_covers(r, c))
        &&& forall|r: int, c: int|
            !(#[trigger] self.date.has(r, c) && Mask::spec_frame().has(r, c))
        &&& forall|i: int, r: int, c: int|
            0 <= i < 8 && #[trigger] self.pieces[i].has(r, c) ==> !Mask::spec_frame().has(r, c)
                && !self.date.has(r, c)
        &&& forall|i: int, j: int, r: int, c: int|
            #![trigger self.pieces[i].has(r, c), self.pieces[j].has(r, c)]
            0 <= i < 8 && 0 <= j < 8 && i != j ==> !(self.pieces[i].has(r, c)
                && self.pieces[j].has(r, c))
    }

    /// Whether no piece from index `from` on is on the board.
    pub open spec fn unplaced_from(self, from: int) -> bool {
        forall|i: int| from <= i < 8 ==> #[trigger] self.pieces[i] == Mask::spec_blank()
    }

    /// Whether the pieces from index `from` on can be laid, each in one of
    /// its placements and on free cells only, so that with the cells of
    /// `placed` they take the whole board.
    pub open spec fn completable(placed: Mask, from: int) -> bool
        decreases 8 - from,
    {
        if from >= 8 {
            placed == Mask::spec_full()
        } else {
            exists|m: Mask|
                Piece::spec_nth(from).is_placement(m) && #[trigger] m.disjoint(placed)
                    && Game::completable(placed.spec_union(m), from + 1)
        }
    }

    /// Whether each piece that is on the board lies in one of its placements.
    pub open spec fn in_placements(self) -> bool {
        forall|i: int|
            0 <= i < 8 ==> #[trigger] self.pieces[i] == Mask::spec_blank() || Piece::spec_nth(
                i,
            ).is_placement(self.pieces[i])
    }

    /// Whether the pieces from index `from` on lie as the search lays them on
    /// a board whose taken cells are `placed`: each in the first of its
    /// placements, in ascending order of the masks' bits, that lies on free
    /// cells and lets the pieces after it fill the board.
    pub open spec fn first_way(self, placed: Mask, from: int) -> bool
        decreases 8 - from,
    {
        from < 0 || from >= 8 || {
            let m = self.pieces[from];
            &&& Piece::spec_nth(from).is_placement(m)
            &&& m.disjoint(placed)
            &&& Game::completable(placed.spec_union(m), from + 1)
            &&& forall|other: Mask|
                Piece::spec_nth(from).is_placement(other) && other.0 < m.0 ==> !(
                #[trigger] other.disjoint(placed) && Game::completable(
                    placed.spec_union(other),
                    from + 1,
                ))
            &&& self.first_way(placed.spec_union(m), from + 1)
        }
    }

    /// Whether the search, begun on `before`, may leave the game `self`:
    /// the date stays, and so do the pieces that lay before the search. If
    /// the board is not full now, the game is as it was, and the pieces that
    /// were left to lay cannot fill the board. If the board is full, each
    /// piece that the search laid lies in one of its placements; and where
    /// this holds of the pieces before them too, all eight pieces lie on the
    /// board, those that the search laid lie in the first way to fill it, and
    /// no piece is left to lay: `next_piece_index` is 8.
    pub open spec fn searched(self, before: Game) -> bool {
        let from = before.next_piece_index as int;
        &&& self.wf()
        &&& self.date == before.date
        &&& forall|i: int| 0 <= i < from ==> #[trigger] self.pieces[i] == before.pieces[i]
        &&& forall|i: int|
            from <= i < 8 ==> #[trigger] self.pieces[i] == Mask::spec_blank()
                || Piece::spec_nth(i).is_placement(self.pieces[i])
        &&& self.placed != Mask::spec_full() ==> self == before && !Game::completable(
            before.placed,
            from,
        )
        &&& self.placed == Mask::spec_full() && before.in_placements() ==> {
            &&& self.next_piece_index == 8
            &&& Game::completable(before.placed, from)
            &&& self.first_way(before.placed, from)
            &&& forall|i: int|
                0 <= i < 8 ==> Piece::spec_nth(i).is_placement(#[trigger] self.pieces[i])
        }
    }

    /// A game for the month `month` and the day `day`, both counted from 0,
    /// with no piece on the board.
    pub fn for_date(month: u32, day: u32) -> (game: Game)
        requires
            month < 12,
            day < 31,
        ensures
            Game::marks(game.date, month as int, day as int),
            game.placed == game.date.spec_union(Mask::spec_frame()),
            game.next_piece_index == 0,
            game.unplaced_from(0),
            game.wf(),
    {
        let day_cell = Mask::for_day(day);
        let month_cell = Mask::for_month(month);
        let date = day_cell | month_cell;
        let game = Game {
            date,
            pieces: [Mask::blank();8],
            placed: date | Mask::frame(),
            next_piece_index: 0,
        };
        proof {
            day_cell.lemma_algebra(month_cell);
            date.lemma_algebra(Mask::spec_frame());
            Mask::lemma_frame();
            Mask::lemma_blank_full();
            assert forall|r: int, c: int| !game.piece_covers(r, c) by {}
            assert(Game::marks(game.date, month as int, day as int));
        }
        game
    }

    /// Whether every cell of the board is taken. Since a piece is only laid
    /// on free cells, the game is then solved.
    pub fn all_pieces_placed(&self) -> (full: bool)
        ensures
            full == (self.placed == Mask::spec_full()),
    {
        self.placed == Mask::full()
    }

    /// Lays the piece on the cells of `position` if all of them are free, and
    /// says whether it did.
    pub fn place(&mut self, piece: Piece, position: Mask) -> (fits: bool)
        ensures
            fits == position.disjoint(old(self).placed),
            !fits ==> *final(self) == *old(self),
            fits ==> final(self).placed == old(self).placed.spec_union(position),
            fits ==> final(self).pieces@ == old(self).pieces@.update(piece.spec_index(), position),
            final(self).date == old(self).date,
            final(self).next_piece_index == old(self).next_piece_index,
            old(self).wf() && old(self).pieces[piece.spec_index()] == Mask::spec_blank()
                ==> final(self).wf(),
    {
        proof {
            position.lemma_disjoint(self.placed);
        }
        if (position & self.placed) == Mask::blank() {
            let index = piece.index();
            self.placed = self.placed | position;
            self.pieces[index] = position;
            proof {
                let before = *old(self);
                let after = *self;
                before.placed.lemma_algebra(position);
                Mask::lemma_blank_full();
                if before.wf() && before.pieces[index as int] == Mask::spec_blank() {
                    assert forall|r: int, c: int|
                        after.piece_covers(r, c) == (before.piece_covers(r, c) || position.has(
                            r,
                            c,
                        )) by {
                        if after.piece_covers(r, c) {
                            let i = choose|i: int| 0 <= i < 8 && after.pieces[i].has(r, c);
                            if i != index {
                                assert(before.pieces[i].has(r, c));
                            }
                        }
                        if before.piece_covers(r, c) {
                            let i = choose|i: int| 0 <= i < 8 && before.pieces[i].has(r, c);
                            assert(after.pieces[i].has(r, c));
                        }
                        if position.has(r, c) {
                            assert(after.pieces[index as int].has(r, c));
                        }
                    }
                    assert forall|i: int, r: int, c: int|
                        0 <= i < 8 && i != index && #[trigger] before.pieces[i].has(
                            r,
                            c,
                        ) implies !position.has(r, c) by {
                        assert(before.piece_covers(r, c));
                        assert(before.placed.has(r, c));
                    }
                    assert forall|r: int, c: int| position.has(r, c) implies !before.placed.has(
                        r,
                        c,
                    ) by {}
                    assert forall|i: int, r: int, c: int|
                        0 <= i < 8 && #[trigger] after.pieces[i].has(
                            r,
                            c,
                        ) implies !Mask::spec_frame().has(r, c) && !after.date.has(r, c) by {
                        if i != index {
                            assert(before.pieces[i].has(r, c));
                        }
                    }
                    assert forall|i: int, j: int, r: int, c: int|
                        #![trigger after.pieces[i].has(r, c), after.pieces[j].has(r, c)]
                        0 <= i < 8 && 0 <= j < 8 && i != j implies !(after.pieces[i].has(r, c)
                            && after.pieces[j].has(r, c)) by {
                        if after.pieces[i].has(r, c) && after.pieces[j].has(r, c) {
                            if i == index {
                                assert(before.pieces[j].has(r, c));
                            } else if j == index {
                                assert(before.pieces[i].has(r, c));
                            } else {
                                assert(before.pieces[i].has(r, c));
                                assert(before.pieces[j].has(r, c));
                            }
                        }
                    }
                    assert forall|r: int, c: int| #[trigger]
                        after.placed.has(r, c) == (Mask::spec_frame().has(r, c)
                            || after.date.has(r, c) || after.piece_covers(r, c)) by {
                        assert(after.placed.has(r, c) == (before.placed.has(r, c)
                            || position.has(r, c)));
                    }
                    assert(after.wf());
                }
            }
            true
        } else {
            false
        }
    }

    /// Takes the piece off the board.
    pub fn remove(&mut self, piece: Piece)
        ensures
            final(self).placed == old(self).placed.spec_difference(
                old(self).pieces[piece.spec_index()],
            ),
            final(self).pieces@ == old(self).pieces@.update(
                piece.spec_index(),
                Mask::spec_blank(),
            ),
            final(self).date == old(self).date,
            final(self).next_piece_index == old(self).next_piece_index,
            old(self).wf() ==> final(self).wf(),
    {
        let index = piece.index();
        let position = self.pieces[index];
        self.placed = self.placed - position;
        self.pieces[index] = Mask::blank();
        proof {
            let before = *old(self);
            let after = *self;
            before.placed.lemma_algebra(position);
            Mask::lemma_blank_full();
            if before.wf() {
                assert forall|r: int, c: int|
                    after.piece_covers(r, c) == (before.piece_covers(r, c) && !position.has(
                        r,
                        c,
                    )) by {
                    if after.piece_covers(r, c) {
                        let i = choose|i: int| 0 <= i < 8 && after.pieces[i].has(r, c);
                        assert(before.pieces[i].has(r, c));
                    }
                    if before.piece_covers(r, c) && !position.has(r, c) {
                        let i = choose|i: int| 0 <= i < 8 && before.pieces[i].has(r, c);
                        assert(after.pieces[i].has(r, c));
                    }
                }
                assert forall|r: int, c: int| position.has(r, c) implies !Mask::spec_frame().has(
                    r,
                    c,
                ) && !before.date.has(r, c) by {
                    assert(before.pieces[index as int].has(r, c));
                }
                assert(after.wf());
            }
        }
    }

    /// Searches depth first for a way to lay the pieces from
    /// `next_piece_index` on, each on free cells, so that the board is full.
    ///
    /// The placements of a piece are tried in the order of the catalog, and
    /// the first way found stays on the board. If there is none, the game is
    /// left as it was.
    pub fn solve_with(&mut self, catalog: &Catalog)
        requires
            catalog.wf(),
            old(self).wf(),
            old(self).unplaced_from(old(self).next_piece_index as int),
        ensures
            final(self).searched(*old(self)),
        decreases 8 - old(self).next_piece_index,
    {
        if self.next_piece_index < Piece::COUNT {
            let index = self.next_piece_index;
            let piece = Piece::nth(index);
            self.next_piece_index += 1;
            let ghost entry = *self;
            proof {
                assert forall|r: int, c: int|
                    entry.piece_covers(r, c) == old(self).piece_covers(r, c) by {
                    if entry.piece_covers(r, c) {
                        let i = choose|i: int| 0 <= i < 8 && entry.pieces[i].has(r, c);
                        assert(old(self).pieces[i].has(r, c));
                    }
                    if old(self).piece_covers(r, c) {
                        let i = choose|i: int| 0 <= i < 8 && old(self).pieces[i].has(r, c);
                        assert(entry.pieces[i].has(r, c));
                    }
                }
            }
            let list = &catalog.lists[index];
            let mut j: usize = 0;
            while j < list.len()
                invariant
                    j <= list@.len(),
                    index < 8,
                    piece == Piece::spec_nth(index as int),
                    piece.spec_index() == index,
                    catalog.wf(),
                    list@ == catalog.lists@[index as int]@,
                    *self == entry,
                    entry.wf(),
                    entry.unplaced_from(index as int),
                    entry.next_piece_index == index + 1,
                    entry.date == old(self).date,
                    entry.pieces == old(self).pieces,
                    entry.placed == old(self).placed,
                    old(self).next_piece_index == index,
                    forall|k: int|
                        0 <= k < j ==> !(#[trigger] list@[k].disjoint(entry.placed)
                            && Game::completable(entry.placed.spec_union(list@[k]), index + 1)),
                decreases list@.len() - j,
            {
                let position = list[j];
                proof {
                    assert(list@.contains(position));
                    assert(piece.is_placement(position));
                }
                if self.place(piece, position) {
                    let ghost laid = *self;
                    self.solve_with(catalog);
                    if self.all_pieces_placed() {
                        proof {
                            assert(self.pieces[index as int] == position);
                            if old(self).in_placements() {
                                self.lemma_searched_full(*old(self));
                                assert(laid.in_placements()) by {
                                    assert forall|i: int| 0 <= i < 8 implies #[trigger]
                                        laid.pieces[i] == Mask::spec_blank() || Piece::spec_nth(
                                        i,
                                    ).is_placement(laid.pieces[i]) by {
                                        if i != index {
                                            assert(laid.pieces[i] == old(self).pieces[i]);
                                        }
                                    }
                                }
                                assert(self.first_way(laid.placed, index + 1));
                                assert forall|other: Mask|
                                    piece.is_placement(other) && other.0 < position.0 implies !(
                                    #[trigger] other.disjoint(entry.placed) && Game::completable(
                                        entry.placed.spec_union(other),
                                        index + 1,
                                    )) by {
                                    assert(list@.contains(other));
                                    let k = choose|k: int|
                                        0 <= k < list@.len() && list@[k] == other;
                                    if k > j {
                                        assert(list@[j as int].0 < list@[k].0);
                                    }
                                    assert(k < j);
                                    assert(!(list@[k].disjoint(entry.placed)
                                        && Game::completable(
                                        entry.placed.spec_union(list@[k]),
                                        index + 1,
                                    )));
                                }
                                assert(self.first_way(old(self).placed, index as int));
                            }
                        }
                        return ;
                    } else {
                        self.remove(piece);
                        proof {
                            let a = entry.placed.0;
                            let b = position.0;
                            position.lemma_disjoint(entry.placed);
                            assert((a | b) & !b == a) by (bit_vector)
                                requires
                                    b & a == 0,
                            ;
                            assert(self.placed == entry.placed);
                            assert(self.pieces@ =~= entry.pieces@);
                            assert(self.pieces =~= entry.pieces);
                        }
                    }
                }
                j += 1;
            }
            self.next_piece_index -= 1;
            proof {
                assert(*self == *old(self));
                if Game::completable(entry.placed, index as int) {
                    let m = choose|m: Mask|
                        piece.is_placement(m) && #[trigger] m.disjoint(entry.placed)
                            && Game::completable(entry.placed.spec_union(m), index + 1);
                    assert(list@.contains(m));
                    let k = choose|k: int| 0 <= k < list@.len() && list@[k] == m;
                    assert(list@[k].disjoint(entry.placed));
                    assert(false);
                }
            }
        }
        proof {
            if self.placed == Mask::spec_full() && old(self).in_placements() {
                self.lemma_searched_full(*old(self));
                if old(self).next_piece_index < 8 {
                    let unplaced = old(self).next_piece_index as int;
                    assert(self.pieces[unplaced] == Mask::spec_blank());
                    lemma_placement_len(Piece::spec_nth(unplaced), self.pieces[unplaced]);
                }
            }
        }
    }

    /// Searches for a way to lay every piece that is not yet on the board,
    /// among all the placements of each.
    ///
    /// Afterwards either the board is full, or no way exists and the game is
    /// as it was: `all_pieces_placed` tells which.
    pub fn solve(&mut self)
        requires
            old(self).wf(),
            old(self).unplaced_from(old(self).next_piece_index as int),
        ensures
            final(self).searched(*old(self)),
    {
        let catalog = Catalog::new();
        self.solve_with(&catalog);
    }

    /// What holds of a full board that the search has reached.
    pub proof fn lemma_searched_full(self, before: Game)
        requires
            self.wf(),
            before.wf(),
            before.unplaced_from(before.next_piece_index as int),
            self.date == before.date,
            forall|i: int|
                0 <= i < before.next_piece_index ==> #[trigger] self.pieces[i]
                    == before.pieces[i],
            forall|i: int|
                before.next_piece_index <= i < 8 ==> #[trigger] self.pieces[i]
                    == Mask::spec_blank() || Piece::spec_nth(i).is_placement(self.pieces[i]),
            self.placed == Mask::spec_full(),
            before.in_placements(),
        ensures
            Game::completable(before.placed, before.next_piece_index as int),
            forall|i: int| 0 <= i < 8 ==> Piece::spec_nth(i).is_placement(#[trigger] self.pieces[i]),
    {
        let from = before.next_piece_index as int;
        assert(self.in_placements()) by {
            assert forall|i: int| 0 <= i < 8 implies #[trigger] self.pieces[i]
                == Mask::spec_blank() || Piece::spec_nth(i).is_placement(self.pieces[i]) by {
                if i < from {
                    assert(self.pieces[i] == before.pieces[i]);
                }
            }
        }
        lemma_full_board_holds_every_piece(self);
        Mask::lemma_blank_full();
        assert forall|r: int, c: int| #[trigger]
            before.placed.has(r, c) == (Mask::spec_frame().has(r, c) || self.date.has(r, c)
                || exists|i: int| 0 <= i < from && #[trigger] self.pieces[i].has(r, c)) by {
            if before.piece_covers(r, c) {
                let i = choose|i: int| 0 <= i < 8 && #[trigger] before.pieces[i].has(r, c);
                assert(i < from);
                assert(self.pieces[i].has(r, c));
            }
            if exists|i: int| 0 <= i < from && #[trigger] self.pieces[i].has(r, c) {
                let i = choose|i: int| 0 <= i < from && #[trigger] self.pieces[i].has(r, c);
                assert(before.pieces[i].has(r, c));
            }
        }
        lemma_full_board_completes(self, before.placed, from);
    }

    /// On a full board every cell outside the frame and the date belongs to
    /// exactly one piece, and no piece reaches into the frame or the date.
    pub proof fn lemma_full_board_is_tiled(self)
        requires
            self.wf(),
            self.placed == Mask::spec_full(),
        ensures
            forall|r: int, c: int|
                0 <= r < 8 && 0 <= c < 8 && !Mask::frame_cell(r, c) && !self.date.has(r, c)
                    ==> #[trigger] self.piece_covers(r, c),
            forall|i: int, j: int, r: int, c: int|
                #![trigger self.pieces[i].has(r, c), self.pieces[j].has(r, c)]
                0 <= i < 8 && 0 <= j < 8 && self.pieces[i].has(r, c) && self.pieces[j].has(r, c)
                    ==> i == j,
            forall|i: int, r: int, c: int|
                0 <= i < 8 && #[trigger] self.pieces[i].has(r, c) ==> !Mask::frame_cell(r, c)
                    && !self.date.has(r, c),
    {
        Mask::lemma_blank_full();
        Mask::lemma_frame();
        assert forall|r: int, c: int|
            0 <= r < 8 && 0 <= c < 8 && !Mask::frame_cell(r, c) && !self.date.has(
                r,
                c,
            ) implies #[trigger] self.piece_covers(r, c) by {
            assert(self.placed.has(r, c));
        }
    }

    /// The piece with the lowest index, from `from` on, that covers the cell
    /// at `row` and `column`.
    pub open spec fn first_piece_at(self, from: int, row: int, column: int) -> Option<Piece>
        decreases 8 - from,
    {
        if from < 0 || from >= 8 {
            None
        } else if self.pieces[from].has(row, column) {
            Some(Piece::spec_nth(from))
        } else {
            self.first_piece_at(from + 1, row, column)
        }
    }

    /// What stands for the cell at `row` and `column` when the board is
    /// shown: a space for the frame, else a dot for the date, else the letter
    /// of the first piece that covers the cell, else a dash.
    pub open spec fn spec_display_character(self, row: int, column: int) -> char {
        if Mask::spec_frame().has(row, column) {
            ' '
        } else if self.date.has(row, column) {
            '•'
        } else {
            match self.first_piece_at(0, row, column) {
                Some(piece) => piece.spec_display_character(),
                None => '-',
            }
        }
    }

    /// What stands for the cell at `row` and `column` when the board is
    /// shown.
    pub fn display_character(&self, row: usize, column: usize) -> (glyph: char)
        requires
            row < 8,
            column < 8,
        ensures
            glyph == self.spec_display_character(row as int, column as int),
    {
        if Mask::frame().get(row, column) {
            return ' ';
        }
        if self.date.get(row, column) {
            return '•';
        }
        let mut i: usize = 0;
        while i < Piece::COUNT
            invariant
                i <= 8,
                row < 8,
                column < 8,
                !Mask::spec_frame().has(row as int, column as int),
                !self.date.has(row as int, column as int),
                self.first_piece_at(0, row as int, column as int) == self.first_piece_at(
                    i as int,
                    row as int,
                    column as int,
                ),
            decreases 8 - i,
        {
            if self.pieces[i].get(row, column) {
                proof {
                    assert(self.first_piece_at(i as int, row as int, column as int) == Some(
                        Piece::spec_nth(i as int),
                    ));
                }
                return Piece::nth(i).display_character();
            }
            i += 1;
        }
        '-'
    }

    /// The board as text: the cells of all eight rows in reading order, eight
    /// to a row, each row closed by a line feed.
    pub fn render(&self) -> (text: Vec<char>)
        ensures
            text@.len() == 72,
            forall|r: int, c: int|
                0 <= r < 8 && 0 <= c < 8 ==> #[trigger] text@[r * 9 + c]
                    == self.spec_display_character(r, c),
            forall|r: int| 0 <= r < 8 ==> #[trigger] text@[r * 9 + 8] == '\n',
    {
        let mut text: Vec<char> = Vec::new();
        let mut row: usize = 0;
        while row < Mask::HEIGHT
            invariant
                row <= 8,
                text@.len() == row * 9,
                forall|r: int, c: int|
                    0 <= r < row && 0 <= c < 8 ==> #[trigger] text@[r * 9 + c]
                        == self.spec_display_character(r, c),
                forall|r: int| 0 <= r < row ==> #[trigger] text@[r * 9 + 8] == '\n',
            decreases 8 - row,
        {
            let mut column: usize = 0;
            while column < Mask::WIDTH
                invariant
                    row < 8,
                    column <= 8,
                    text@.len() == row * 9 + column,
                    forall|r: int, c: int|
                        0 <= r < row && 0 <= c < 8 ==> #[trigger] text@[r * 9 + c]
                            == self.spec_display_character(r, c),
                    forall|c: int|
                        0 <= c < column ==> #[trigger] text@[row * 9 + c]
                            == self.spec_display_character(row as int, c),
                    forall|r: int| 0 <= r < row ==> #[trigger] text@[r * 9 + 8] == '\n',
                decreases 8 - column,
            {
                text.push(self.display_character(row, column));
                column += 1;
            }
            text.push('\n');
            row += 1;
        }
        text
    }
}

} // verus!
