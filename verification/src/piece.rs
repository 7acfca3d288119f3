//! The eight pieces of the puzzle, and every way to lay each on the board.

use crate::mask::Mask;
use vstd::prelude::*;

verus! {

/// The pieces, loosely named after letters that look like them.
#[derive(Debug, Clone, Copy, PartialEq, Eq, Structural)]
pub enum Piece {
    C,
    Gamma,
    L,
    Lamedh,
    O,
    P,
    T,
    Z,
}

/// Whether the masks of the list grow strictly from each to the next, by
/// their bits read as a number. Such a list holds no mask twice.
pub open spec fn ascending(list: Seq<Mask>) -> bool {
    forall|i: int, j: int| 0 <= i < j < list.len() ==> list[i].0 < list[j].0
}

/// The cell that ends up at `(row, column)` when a board is turned clockwise
/// by `turns` quarter turns and then, if `mirrored`, mirrored across the main
/// diagonal.
pub open spec fn source_cell(turns: int, mirrored: bool, row: int, column: int) -> (int, int) {
    let r = if mirrored {
        column
    } else {
        row
    };
    let c = if mirrored {
        row
    } else {
        column
    };
    if turns == 0 {
        (r, c)
    } else if turns == 1 {
        (7 - c, r)
    } else if turns == 2 {
        (7 - r, 7 - c)
    } else {
        (c, 7 - r)
    }
}

/// Puts `mask` into a list that is in ascending order, at its place in that
/// order, unless the list holds it already.
pub fn insert_sorted(list: &mut Vec<Mask>, mask: Mask)
    requires
        ascending(old(list)@),
    ensures
        ascending(final(list)@),
        forall|m: Mask| final(list)@.contains(m) <==> (old(list)@.contains(m) || m == mask),
        final(list)@.len() == old(list)@.len() + (if old(list)@.contains(mask) {
            0int
        } else {
            1int
        }),
{
    let mut i: usize = 0;
    while i < list.len() && list[i].0 < mask.0
        invariant
            i <= list.len(),
            list@ == old(list)@,
            forall|j: int| 0 <= j < i ==> list@[j].0 < mask.0,
        decreases list.len() - i,
    {
        i += 1;
    }
    if i < list.len() && list[i].0 == mask.0 {
        proof {
            assert(list@[i as int] == mask);
        }
        return ;
    }
    let ghost before = list@;
    proof {
        assert forall|j: int| 0 <= j < before.len() implies before[j] != mask by {
            if j < i {
                assert(before[j].0 < mask.0);
            } else if j > i {
                assert(before[i as int].0 < before[j].0);
            }
        }
        assert(!before.contains(mask));
    }
    list.insert(i, mask);
    proof {
        let after = list@;
        assert(after == before.insert(i as int, mask));
        assert forall|a: int, b: int| 0 <= a < b < after.len() implies after[a].0 < after[b].0 by {
            if b < i {
            } else if b == i {
            } else if a < i {
                assert(before[b - 1].0 >= mask.0) by {
                    if b - 1 > i {
                        assert(before[i as int].0 < before[b - 1].0);
                    }
                }
            } else if a == i {
                if b - 1 > i {
                    assert(before[i as int].0 < before[b - 1].0);
                }
            } else {
                assert(before[a - 1].0 < before[b - 1].0);
            }
        }
        assert forall|m: Mask| after.contains(m) <==> (before.contains(m) || m == mask) by {
            if after.contains(m) {
                let k = choose|k: int| 0 <= k < after.len() && after[k] == m;
                if k < i {
                    assert(before[k] == m);
                } else if k > i {
                    assert(before[k - 1] == m);
                }
            }
            if before.contains(m) {
                let k = choose|k: int| 0 <= k < before.len() && before[k] == m;
                if k < i {
                    assert(after[k] == m);
                } else {
                    assert(after[k + 1] == m);
                }
            }
            if m == mask {
                assert(after[i as int] == m);
            }
        }
    }
}

impl Piece {
    /// The number of pieces.
    pub const COUNT: usize = 8;

    /// The pieces in order: each stands at its own `index`.
    pub const ALL: [Piece; 8] = [
        Piece::C,
        Piece::Gamma,
        Piece::L,
        Piece::Lamedh,
        Piece::O,
        Piece::P,
        Piece::T,
        Piece::Z,
    ];

    /// The place of the piece among the eight.
    pub open spec fn spec_index(self) -> int {
        match self {
            Piece::C => 0,
            Piece::Gamma => 1,
            Piece::L => 2,
            Piece::Lamedh => 3,
            Piece::O => 4,
            Piece::P => 5,
            Piece::T => 6,
            Piece::Z => 7,
        }
    }

    /// The piece at place `index` among the eight.
    pub open spec fn spec_nth(index: int) -> Piece {
        if index == 0 {
            Piece::C
        } else if index == 1 {
            Piece::Gamma
        } else if index == 2 {
            Piece::L
        } else if index == 3 {
            Piece::Lamedh
        } else if index == 4 {
            Piece::O
        } else if index == 5 {
            Piece::P
        } else if index == 6 {
            Piece::T
        } else {
            Piece::Z
        }
    }

    /// The place of the piece among the eight, from 0.
    pub fn index(self) -> (index: usize)
        ensures
            index == self.spec_index(),
            index < 8,
            Piece::spec_nth(index as int) == self,
    {
        match self {
            Piece::C => 0,
            Piece::Gamma => 1,
            Piece::L => 2,
            Piece::Lamedh => 3,
            Piece::O => 4,
            Piece::P => 5,
            Piece::T => 6,
            Piece::Z => 7,
        }
    }

    /// The piece at place `index` among the eight.
    pub fn nth(index: usize) -> (piece: Piece)
        requires
            index < 8,
        ensures
            piece == Piece::spec_nth(index as int),
            piece.spec_index() == index,
    {
        if index == 0 {
            Piece::C
        } else if index == 1 {
            Piece::Gamma
        } else if index == 2 {
            Piece::L
        } else if index == 3 {
            Piece::Lamedh
        } else if index == 4 {
            Piece::O
        } else if index == 5 {
            Piece::P
        } else if index == 6 {
            Piece::T
        } else {
            Piece::Z
        }
    }

    /// Whether the piece, laid at the top left of the board as it is drawn
    /// here, covers the cell at `row` and `column`.
    ///
    /// ```txt
    /// C    Gamma  L   Lamedh  O    P    T   Z
    /// •••  •••    •-  •-      •••  •••  •-  ••-
    /// •-•  •--    •-  •-      •••  ••-  •-  -•-
    ///      •--    •-  ••                ••  -••
    ///             ••  -•                •-
    /// ```
    pub open spec fn covers(self, row: int, column: int) -> bool {
        let cell = (row, column);
        match self {
            Piece::C => cell == (0int, 0int) || cell == (0int, 1int) || cell == (0int, 2int)
                || cell == (1int, 0int) || cell == (1int, 2int),
            Piece::Gamma => cell == (0int, 0int) || cell == (0int, 1int) || cell == (0int, 2int)
                || cell == (1int, 0int) || cell == (2int, 0int),
            Piece::L => cell == (0int, 0int) || cell == (1int, 0int) || cell == (2int, 0int)
                || cell == (3int, 0int) || cell == (3int, 1int),
            Piece::Lamedh => cell == (0int, 0int) || cell == (1int, 0int) || cell == (2int, 0int)
                || cell == (2int, 1int) || cell == (3int, 1int),
            Piece::O => cell == (0int, 0int) || cell == (0int, 1int) || cell == (0int, 2int)
                || cell == (1int, 0int) || cell == (1int, 1int) || cell == (1int, 2int),
            Piece::P => cell == (0int, 0int) || cell == (0int, 1int) || cell == (0int, 2int)
                || cell == (1int, 0int) || cell == (1int, 1int),
            Piece::T => cell == (0int, 0int) || cell == (1int, 0int) || cell == (2int, 0int)
                || cell == (2int, 1int) || cell == (3int, 0int),
            Piece::Z => cell == (0int, 0int) || cell == (0int, 1int) || cell == (1int, 1int)
                || cell == (2int, 1int) || cell == (2int, 2int),
        }
    }

    /// The width and the height of the box around the piece.
    pub open spec fn spec_size(self) -> (usize, usize) {
        match self {
            Piece::C => (3, 2),
            Piece::Gamma => (3, 3),
            Piece::L => (2, 4),
            Piece::Lamedh => (2, 4),
            Piece::O => (3, 2),
            Piece::P => (3, 2),
            Piece::T => (2, 4),
            Piece::Z => (3, 3),
        }
    }

    /// Whether the piece differs from its mirror image however it is turned.
    pub open spec fn spec_is_chiral(self) -> bool {
        self != Piece::C && self != Piece::O && self != Piece::Gamma
    }

    /// The mask of the piece laid at the top left of the board.
    pub fn base_mask(self) -> (mask: Mask)
        ensures
            forall|r: int, c: int| #[trigger] mask.has(r, c) == self.covers(r, c),
            mask.within(self.spec_size().0 as int, self.spec_size().1 as int),
    {
        let blank = Mask::blank();
        match self {
            Piece::C => blank.set(0, 0).set(0, 1).set(0, 2).set(1, 0).set(1, 2),
            Piece::Gamma => blank.set(0, 0).set(0, 1).set(0, 2).set(1, 0).set(2, 0),
            Piece::L => blank.set(0, 0).set(1, 0).set(2, 0).set(3, 0).set(3, 1),
            Piece::Lamedh => blank.set(0, 0).set(1, 0).set(2, 0).set(2, 1).set(3, 1),
            Piece::O => blank.set(0, 0).set(0, 1).set(0, 2).set(1, 0).set(1, 1).set(1, 2),
            Piece::P => blank.set(0, 0).set(0, 1).set(0, 2).set(1, 0).set(1, 1),
            Piece::T => blank.set(0, 0).set(1, 0).set(2, 0).set(2, 1).set(3, 0),
            Piece::Z => blank.set(0, 0).set(0, 1).set(1, 1).set(2, 1).set(2, 2),
        }
    }

    /// The width and the height of the box around the piece as `base_mask`
    /// lays it: how far the piece can move before it leaves the board.
    #[verifier::when_used_as_spec(spec_size)]
    pub fn size(self) -> (size: (usize, usize))
        ensures
            size == self.spec_size(),
            1 <= size.0 <= 4,
            1 <= size.1 <= 4,
            forall|r: int, c: int| #[trigger]
                self.covers(r, c) ==> 0 <= r < size.1 && 0 <= c < size.0,
    {
        match self {
            Piece::C => (3, 2),
            Piece::Gamma => (3, 3),
            Piece::L => (2, 4),
            Piece::Lamedh => (2, 4),
            Piece::O => (3, 2),
            Piece::P => (3, 2),
            Piece::T => (2, 4),
            Piece::Z => (3, 3),
        }
    }

    /// Whether the piece differs from its mirror image however it is turned.
    /// Such a piece can lie on either of its faces.
    #[verifier::when_used_as_spec(spec_is_chiral)]
    pub fn is_chiral(self) -> (chiral: bool)
        ensures
            chiral == self.spec_is_chiral(),
    {
        !matches!(self, Piece::C | Piece::O | Piece::Gamma)
    }

    /// The letter that stands for the piece when a board is shown.
    pub fn display_character(self) -> (glyph: char)
        ensures
            glyph == self.spec_display_character(),
    {
        match self {
            Piece::C => 'C',
            Piece::Gamma => 'Γ',
            Piece::L => 'L',
            Piece::Lamedh => 'ל',
            Piece::O => 'O',
            Piece::P => 'P',
            Piece::T => 'T',
            Piece::Z => 'Z',
        }
    }

    /// The letter that stands for the piece when a board is shown.
    pub open spec fn spec_display_character(self) -> char {
        match self {
            Piece::C => 'C',
            Piece::Gamma => 'Γ',
            Piece::L => 'L',
            Piece::Lamedh => 'ל',
            Piece::O => 'O',
            Piece::P => 'P',
            Piece::T => 'T',
            Piece::Z => 'Z',
        }
    }

    /// Whether `mask` is the piece moved `right` columns and `down` rows from
    /// the top left, with the whole board then turned clockwise by `turns`
    /// quarter turns and, if `mirrored`, mirrored across the main diagonal.
    /// The move keeps the piece's box on the board, and only a chiral piece
    /// is mirrored.
    pub open spec fn places(
        self,
        right: int,
        down: int,
        turns: int,
        mirrored: bool,
        mask: Mask,
    ) -> bool {
        &&& 0 <= right <= 8 - self.spec_size().0
        &&& 0 <= down <= 8 - self.spec_size().1
        &&& 0 <= turns < 4
        &&& mirrored ==> self.spec_is_chiral()
        &&& forall|r: int, c: int|
            0 <= r < 8 && 0 <= c < 8 ==> #[trigger] mask.has(r, c) == self.covers(
                source_cell(turns, mirrored, r, c).0 - down,
                source_cell(turns, mirrored, r, c).1 - right,
            )
    }

    /// Whether `mask` is one of the ways to lay the piece on the board.
    pub open spec fn is_placement(self, mask: Mask) -> bool {
        exists|right: int, down: int, turns: int, mirrored: bool|
            self.places(right, down, turns, mirrored, mask)
    }

    /// How many masks the enumeration of the piece's placements computes
    /// before it drops the repeated ones: four for each offset of the piece's
    /// box, eight if the piece is chiral.
    pub open spec fn spec_generated(self) -> int {
        (9 - self.spec_size().0) * (9 - self.spec_size().1) * (if self.spec_is_chiral() {
            8int
        } else {
            4int
        })
    }

    /// An offset, a number of turns and a face fix the mask.
    pub proof fn lemma_places_unique(
        self,
        right: int,
        down: int,
        turns: int,
        mirrored: bool,
        first: Mask,
        second: Mask,
    )
        requires
            self.places(right, down, turns, mirrored, first),
            self.places(right, down, turns, mirrored, second),
        ensures
            first == second,
    {
        first.lemma_equal(second);
    }

    /// Whether the enumeration, about to compute turn `turns` at the offset
    /// `(right, down)`, is past turn `t` at the offset `(r, d)`.
    pub open spec fn past(r: int, d: int, t: int, right: int, down: int, turns: int) -> bool {
        r < right || (r == right && (d < down || (d == down && t < turns)))
    }

    /// Every way to lay the piece on the board, in ascending order of the
    /// masks' bits, each once.
    ///
    /// The piece is moved to each offset that keeps its box on the board.
    /// There the whole board is turned four times by a quarter, and for a
    /// chiral piece each turn is mirrored as well. Since this is done at every
    /// offset, turning the board reaches the same masks as turning the piece.
    pub fn calculate_positions(self) -> (list: Vec<Mask>)
        ensures
            ascending(list@),
            forall|m: Mask| list@.contains(m) <==> self.is_placement(m),
            1 <= list@.len() <= self.spec_generated(),
    {
        let mut positions: Vec<Mask> = Vec::new();
        let (width, height) = self.size();
        let mask = self.base_mask();
        let chiral = self.is_chiral();
        let ghost rows: int = 9 - height;
        let ghost faces: int = if chiral {
            2
        } else {
            1
        };

        let mut right: usize = 0;
        while right <= Mask::WIDTH - width
            invariant
                right <= 9 - width,
                (width, height) == self.spec_size(),
                1 <= width <= 4,
                1 <= height <= 4,
                rows == 9 - height,
                chiral == self.spec_is_chiral(),
                faces == if chiral { 2int } else { 1int },
                forall|r: int, c: int| #[trigger] mask.has(r, c) == self.covers(r, c),
                mask.within(width as int, height as int),
                ascending(positions@),
                forall|j: int| 0 <= j < positions@.len() ==> self.is_placement(#[trigger] positions@[j]),
                forall|r0: int, d0: int, t0: int, f0: bool, m: Mask|
                    #[trigger] self.places(r0, d0, t0, f0, m) && Piece::past(
                        r0,
                        d0,
                        t0,
                        right as int,
                        0,
                        0,
                    ) ==> positions@.contains(m),
                positions@.len() <= (right * rows) * (4 * faces),
                right > 0 ==> positions@.len() >= 1,
            decreases 9 - width - right,
        {
            let mut down: usize = 0;
            while down <= Mask::HEIGHT - height
                invariant
                    right <= 8 - width,
                    down <= 9 - height,
                    (width, height) == self.spec_size(),
                    1 <= width <= 4,
                    1 <= height <= 4,
                    rows == 9 - height,
                    chiral == self.spec_is_chiral(),
                    faces == if chiral { 2int } else { 1int },
                    forall|r: int, c: int| #[trigger] mask.has(r, c) == self.covers(r, c),
                    mask.within(width as int, height as int),
                    ascending(positions@),
                    forall|j: int|
                        0 <= j < positions@.len() ==> self.is_placement(#[trigger] positions@[j]),
                    forall|r0: int, d0: int, t0: int, f0: bool, m: Mask|
                        #[trigger] self.places(r0, d0, t0, f0, m) && Piece::past(
                            r0,
                            d0,
                            t0,
                            right as int,
                            down as int,
                            0,
                        ) ==> positions@.contains(m),
                    positions@.len() <= (right * rows + down) * (4 * faces),
                    right > 0 || down > 0 ==> positions@.len() >= 1,
                decreases 9 - height - down,
            {
                let mut translated = mask.translate(right, down);
                proof {
                    assert(mask.within(8 - right, 8 - down));
                    assert(self.places(right as int, down as int, 0, false, translated));
                }
                let mut i: usize = 0;
                while i < 4
                    invariant
                        right <= 8 - width,
                        down <= 8 - height,
                        i <= 4,
                        (width, height) == self.spec_size(),
                        rows == 9 - height,
                        chiral == self.spec_is_chiral(),
                        faces == if chiral { 2int } else { 1int },
                        ascending(positions@),
                        i < 4 ==> self.places(
                            right as int,
                            down as int,
                            i as int,
                            false,
                            translated,
                        ),
                        forall|j: int|
                            0 <= j < positions@.len() ==> self.is_placement(
                                #[trigger] positions@[j],
                            ),
                        forall|r0: int, d0: int, t0: int, f0: bool, m: Mask|
                            #[trigger] self.places(r0, d0, t0, f0, m) && Piece::past(
                                r0,
                                d0,
                                t0,
                                right as int,
                                down as int,
                                i as int,
                            ) ==> positions@.contains(m),
                        positions@.len() <= (right * rows + down) * (4 * faces) + i * faces,
                        right > 0 || down > 0 || i > 0 ==> positions@.len() >= 1,
                    decreases 4 - i,
                {
                    let ghost before = positions@;
                    insert_sorted(&mut positions, translated);
                    let mirror = translated.transpose();
                    proof {
                        assert(self.is_placement(translated));
                        assert(chiral ==> self.places(
                            right as int,
                            down as int,
                            i as int,
                            true,
                            mirror,
                        ));
                    }
                    if chiral {
                        proof {
                            assert(self.is_placement(mirror));
                        }
                        insert_sorted(&mut positions, mirror);
                    }
                    proof {
                        let after = positions@;
                        assert forall|m: Mask| before.contains(m) implies after.contains(m) by {}
                        assert(after.contains(translated));
                        assert forall|j: int| 0 <= j < after.len() implies self.is_placement(
                            #[trigger] after[j],
                        ) by {
                            let m = after[j];
                            assert(after.contains(m));
                            if m != translated && m != mirror {
                                assert(before.contains(m));
                                let k = choose|k: int| 0 <= k < before.len() && before[k] == m;
                                assert(self.is_placement(before[k]));
                            }
                        }
                        assert forall|r0: int, d0: int, t0: int, f0: bool, m: Mask|
                            #[trigger] self.places(r0, d0, t0, f0, m) && Piece::past(
                                r0,
                                d0,
                                t0,
                                right as int,
                                down as int,
                                i + 1,
                            ) implies after.contains(m) by {
                            if r0 == right && d0 == down && t0 == i {
                                if f0 {
                                    self.lemma_places_unique(r0, d0, t0, f0, m, mirror);
                                } else {
                                    self.lemma_places_unique(r0, d0, t0, f0, m, translated);
                                }
                            } else {
                                assert(before.contains(m));
                            }
                        }
                    }
                    if i < 3 {
                        translated = translated.rotate();
                    }
                    i += 1;
                }
                proof {
                    assert((right * rows + down) * (4 * faces) + 4 * faces == (right * rows + down
                        + 1) * (4 * faces)) by (nonlinear_arith);
                }
                down += 1;
            }
            proof {
                assert((right * rows + rows) * (4 * faces) == ((right + 1) * rows) * (4 * faces))
                    by (nonlinear_arith);
            }
            right += 1;
        }
        proof {
            assert(((9 - width) * rows) * (4 * faces) == self.spec_generated()) by (nonlinear_arith)
                requires
                    rows == 9 - height,
                    (width, height) == self.spec_size(),
                    faces == if self.spec_is_chiral() { 2int } else { 1int },
            ;
            assert forall|m: Mask| self.is_placement(m) implies positions@.contains(m) by {
                let (r0, d0, t0, f0) = choose|r0: int, d0: int, t0: int, f0: bool|
                    self.places(r0, d0, t0, f0, m);
                assert(self.places(r0, d0, t0, f0, m));
            }
            assert forall|m: Mask| positions@.contains(m) implies self.is_placement(m) by {
                let k = choose|k: int| 0 <= k < positions@.len() && positions@[k] == m;
                assert(self.is_placement(positions@[k]));
            }
        }
        positions
    }

    /// Every way to lay the piece on the board: each offset and turn, and
    /// each face of a chiral piece. The list is in ascending order of the
    /// masks' bits and holds no mask twice.
    pub fn positions(&self) -> (list: Vec<Mask>)
        ensures
            ascending(list@),
            forall|m: Mask| list@.contains(m) <==> self.is_placement(m),
            1 <= list@.len() <= self.spec_generated(),
    {
        self.calculate_positions()
    }
}

} // verus!
