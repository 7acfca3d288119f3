//! Sets of board cells, stored as one bit per cell of an 8x8 board.

use vstd::prelude::*;

verus! {

/// Whether bit `index` of `bits` is set.
pub open spec fn bit(bits: u64, index: u64) -> bool {
    (bits >> index) & 1 == 1
}

/// The bits of a mask with its rows in reverse order.
pub open spec fn flipped_bits(x: u64) -> u64 {
    let a = ((x >> 8) & 0x00FF_00FF_00FF_00FF) | ((x & 0x00FF_00FF_00FF_00FF) << 8);
    let b = ((a >> 16) & 0x0000_FFFF_0000_FFFF) | ((a & 0x0000_FFFF_0000_FFFF) << 16);
    (b >> 32) | (b << 32)
}

/// The bits of a mask mirrored across the main diagonal, which runs from
/// the top left corner to the bottom right corner.
pub open spec fn transposed_bits(x: u64) -> u64 {
    let t1 = 0x0f0f_0f0f_0000_0000 & (x ^ (x << 28));
    let x1 = x ^ (t1 ^ (t1 >> 28));
    let t2 = 0x3333_0000_3333_0000 & (x1 ^ (x1 << 14));
    let x2 = x1 ^ (t2 ^ (t2 >> 14));
    let t3 = 0x5500_5500_5500_5500 & (x2 ^ (x2 << 7));
    x2 ^ (t3 ^ (t3 >> 7))
}

/// A bit of a bitwise or is set exactly if it is set in either operand.
proof fn lemma_bit_or(a: u64, b: u64, i: u64)
    by (bit_vector)
    requires
        i < 64,
    ensures
        bit(a | b, i) == (bit(a, i) || bit(b, i)),
{
}

/// A bit of a bitwise and is set exactly if it is set in both operands.
proof fn lemma_bit_and(a: u64, b: u64, i: u64)
    by (bit_vector)
    requires
        i < 64,
    ensures
        bit(a & b, i) == (bit(a, i) && bit(b, i)),
{
}

/// A bit of a complement is set exactly if it is clear in the word.
proof fn lemma_bit_not(a: u64, i: u64)
    by (bit_vector)
    requires
        i < 64,
    ensures
        bit(!a, i) == !bit(a, i),
{
}

/// No bit of zero is set, and every bit of the word of all ones is.
proof fn lemma_bit_zero(i: u64)
    by (bit_vector)
    requires
        i < 64,
    ensures
        !bit(0, i),
        bit(0xFFFF_FFFF_FFFF_FFFF, i),
{
}

/// The word `1 << s` has bit `s` set and no other.
proof fn lemma_bit_single(s: u64, i: u64)
    by (bit_vector)
    requires
        s < 64,
        i < 64,
    ensures
        bit(1u64 << s, i) == (i == s),
{
}

/// Masking a word with `1 << s` leaves something exactly if bit `s` is set.
proof fn lemma_bit_test(x: u64, s: u64)
    by (bit_vector)
    requires
        s < 64,
    ensures
        ((x & (1u64 << s)) != 0) == bit(x, s),
{
}

/// Bit `i` of a word shifted up by `k` places is bit `i - k` of the word.
proof fn lemma_bit_shl(x: u64, k: u64, i: u64)
    by (bit_vector)
    requires
        k < 64,
        i < 64,
    ensures
        bit(x << k, i) == (i >= k && bit(x, (i - k) as u64)),
{
}

/// Reversing the rows moves the bit of row `r` and column `c` to row `7 - r`.
proof fn lemma_bit_flipped(x: u64, i: u64)
    by (bit_vector)
    requires
        i < 64,
    ensures
        bit(flipped_bits(x), i) == bit(x, ((7 - i / 8) * 8 + i % 8) as u64),
{
}

/// Mirroring across the main diagonal moves the bit of row `r` and column
/// `c` to row `c` and column `r`.
proof fn lemma_bit_transposed(x: u64, i: u64)
    by (bit_vector)
    requires
        i < 64,
    ensures
        bit(transposed_bits(x), i) == bit(x, ((i % 8) * 8 + i / 8) as u64),
{
}

/// The bits of the frame, by row and column.
proof fn lemma_bit_frame(i: u64)
    by (bit_vector)
    requires
        i < 64,
    ensures
        bit(0xFFF8_8080_8080_C0C0, i) == (i / 8 == 7 || i % 8 == 7 || (i / 8 < 2 && i % 8 == 6) || (
        i / 8 == 6 && i % 8 >= 3)),
{
}

/// Two words that agree in every bit from `n` up agree when shifted down by
/// `n` places.
proof fn lemma_suffix_equal(a: u64, b: u64, n: u64)
    requires
        n <= 63,
        forall|i: u64| n <= i < 64 ==> bit(a, i) == bit(b, i),
    ensures
        a >> n == b >> n,
    decreases 63 - n,
{
    if n == 63 {
        assert(bit(a, 63) == bit(b, 63));
        assert(a >> 63 == b >> 63) by (bit_vector)
            requires
                bit(a, 63) == bit(b, 63),
        ;
    } else {
        let m: u64 = (n + 1) as u64;
        lemma_suffix_equal(a, b, m);
        assert(bit(a, n) == bit(b, n));
        assert(a >> n == b >> n) by (bit_vector)
            requires
                n < 63,
                m == n + 1,
                a >> m == b >> m,
                bit(a, n) == bit(b, n),
        ;
    }
}

/// Two words with the same bits are the same word.
proof fn lemma_bits_equal(a: u64, b: u64)
    requires
        forall|i: u64| i < 64 ==> bit(a, i) == bit(b, i),
    ensures
        a == b,
{
    lemma_suffix_equal(a, b, 0);
    assert(a >> 0 == a) by (bit_vector);
    assert(b >> 0 == b) by (bit_vector);
}

/// A set of cells of the 8x8 board.
///
/// Bit `row * 8 + column` stands for the cell in that row and column; bit 0 is
/// the top left cell, and the cells go on in reading order.
#[derive(Clone, Copy, PartialEq, Eq, PartialOrd, Ord, Debug, Structural)]
pub struct Mask(pub u64);

impl View for Mask {
    type V = Set<(int, int)>;

    /// The cells of the mask, each as `(row, column)`.
    open spec fn view(&self) -> Set<(int, int)> {
        Set::new(|cell: (int, int)| self.has(cell.0, cell.1))
    }
}

impl Mask {
    /// The number of columns of the board.
    pub const WIDTH: usize = 8;

    /// The number of rows of the board.
    pub const HEIGHT: usize = 8;

    /// The mask without any cell.
    pub open spec fn spec_blank() -> Mask {
        Mask(0)
    }

    /// The mask of all 64 cells.
    pub open spec fn spec_full() -> Mask {
        Mask(0xFFFF_FFFF_FFFF_FFFF)
    }

    /// The cells that no piece may cover.
    pub open spec fn spec_frame() -> Mask {
        Mask(0xFFF8_8080_8080_C0C0)
    }

    /// Whether the puzzle blocks the cell at `row` and `column` for good: the
    /// puzzle is seven cells wide and high at most, so the right and the
    /// bottom of the board are blocked, with two more cells at the top right
    /// and four at the bottom.
    pub open spec fn frame_cell(row: int, column: int) -> bool {
        row == 7 || column == 7 || (row < 2 && column == 6) || (row == 6 && column >= 3)
    }

    /// The mask without any cell.
    #[verifier::when_used_as_spec(spec_blank)]
    pub fn blank() -> (result: Mask)
        ensures
            result == Mask::spec_blank(),
            forall|r: int, c: int| !#[trigger] result.has(r, c),
    {
        proof {
            assert forall|r: int, c: int| !#[trigger] Mask(0).has(r, c) by {
                if 0 <= r < 8 && 0 <= c < 8 {
                    lemma_bit_zero((r * 8 + c) as u64);
                }
            }
        }
        Mask(0)
    }

    /// The mask of all 64 cells.
    #[verifier::when_used_as_spec(spec_full)]
    pub fn full() -> (result: Mask)
        ensures
            result == Mask::spec_full(),
            forall|r: int, c: int| 0 <= r < 8 && 0 <= c < 8 ==> #[trigger] result.has(r, c),
    {
        proof {
            assert forall|r: int, c: int| 0 <= r < 8 && 0 <= c < 8 implies #[trigger] Mask(
                0xFFFF_FFFF_FFFF_FFFF,
            ).has(r, c) by {
                lemma_bit_zero((r * 8 + c) as u64);
            }
        }
        Mask(0xFFFF_FFFF_FFFF_FFFF)
    }

    /// The cells that no piece may cover.
    #[verifier::when_used_as_spec(spec_frame)]
    pub fn frame() -> (result: Mask)
        ensures
            result == Mask::spec_frame(),
            forall|r: int, c: int| #[trigger]
                result.has(r, c) == (0 <= r < 8 && 0 <= c < 8 && Mask::frame_cell(r, c)),
    {
        let result = Mask(0xFFF8_8080_8080_C0C0);
        proof {
            Mask::lemma_frame();
            assert(result == Mask::spec_frame());
        }
        result
    }

    /// The blank mask has no cell, and the full mask has every cell of the
    /// board.
    pub proof fn lemma_blank_full()
        ensures
            forall|r: int, c: int| !#[trigger] Mask::spec_blank().has(r, c),
            forall|r: int, c: int|
                0 <= r < 8 && 0 <= c < 8 ==> #[trigger] Mask::spec_full().has(r, c),
    {
        assert forall|r: int, c: int| !#[trigger] Mask::spec_blank().has(r, c) by {
            if 0 <= r < 8 && 0 <= c < 8 {
                lemma_bit_zero((r * 8 + c) as u64);
            }
        }
        assert forall|r: int, c: int| 0 <= r < 8 && 0 <= c < 8 implies #[trigger]
            Mask::spec_full().has(r, c) by {
            lemma_bit_zero((r * 8 + c) as u64);
        }
    }

    /// The frame holds the blocked cells and no others.
    pub proof fn lemma_frame()
        ensures
            forall|r: int, c: int| #[trigger]
                Mask::spec_frame().has(r, c) == (0 <= r < 8 && 0 <= c < 8 && Mask::frame_cell(
                    r,
                    c,
                )),
    {
        assert forall|r: int, c: int| #[trigger]
            Mask::spec_frame().has(r, c) == (0 <= r < 8 && 0 <= c < 8 && Mask::frame_cell(
                r,
                c,
            )) by {
            if 0 <= r < 8 && 0 <= c < 8 {
                lemma_bit_frame((r * 8 + c) as u64);
            }
        }
    }

    /// Whether the cell at `row` and `column` is on the board and in the mask.
    pub open spec fn has(self, row: int, column: int) -> bool {
        0 <= row < 8 && 0 <= column < 8 && bit(self.0, (row * 8 + column) as u64)
    }

    /// Whether every cell of the mask lies in the first `height` rows and the
    /// first `width` columns.
    pub open spec fn within(self, width: int, height: int) -> bool {
        forall|row: int, column: int| #[trigger]
            self.has(row, column) ==> row < height && column < width
    }

    /// Whether the two masks share no cell.
    pub open spec fn disjoint(self, other: Mask) -> bool {
        forall|row: int, column: int|
            !(#[trigger] self.has(row, column) && #[trigger] other.has(row, column))
    }

    /// The mask mirrored top to bottom.
    pub open spec fn spec_flip_vertical(self) -> Mask {
        Mask(flipped_bits(self.0))
    }

    /// The mask mirrored across the main diagonal: rows and columns change
    /// places.
    pub open spec fn spec_transpose(self) -> Mask {
        Mask(transposed_bits(self.0))
    }

    /// The mask turned clockwise by a quarter.
    pub open spec fn spec_rotate(self) -> Mask {
        self.spec_flip_vertical().spec_transpose()
    }

    /// Where each cell of a mirrored or turned mask comes from.
    pub proof fn lemma_geometry(self)
        ensures
            forall|r: int, c: int| #[trigger]
                self.spec_flip_vertical().has(r, c) == self.has(7 - r, c),
            forall|r: int, c: int| #[trigger]
                self.spec_transpose().has(r, c) == self.has(c, r),
            forall|r: int, c: int| #[trigger] self.spec_rotate().has(r, c) == self.has(7 - c, r),
    {
        assert forall|r: int, c: int| #[trigger]
            self.spec_flip_vertical().has(r, c) == self.has(7 - r, c) by {
            if 0 <= r < 8 && 0 <= c < 8 {
                lemma_bit_flipped(self.0, (r * 8 + c) as u64);
            }
        }
        assert forall|r: int, c: int| #[trigger]
            self.spec_transpose().has(r, c) == self.has(c, r) by {
            if 0 <= r < 8 && 0 <= c < 8 {
                lemma_bit_transposed(self.0, (r * 8 + c) as u64);
            }
        }
        let flipped = self.spec_flip_vertical();
        assert forall|r: int, c: int| #[trigger]
            self.spec_rotate().has(r, c) == self.has(7 - c, r) by {
            if 0 <= r < 8 && 0 <= c < 8 {
                lemma_bit_transposed(flipped.0, (r * 8 + c) as u64);
                assert(flipped.has(c, r) == self.has(7 - c, r));
            }
        }
    }

    /// Mirroring top to bottom twice gives the mask back.
    pub proof fn lemma_flip_vertical_twice(self)
        ensures
            self.spec_flip_vertical().spec_flip_vertical() == self,
    {
        let once = self.spec_flip_vertical();
        self.lemma_geometry();
        once.lemma_geometry();
        assert forall|r: int, c: int| 0 <= r < 8 && 0 <= c < 8 implies #[trigger]
            once.spec_flip_vertical().has(r, c) == self.has(r, c) by {
            assert(once.has(7 - r, c) == self.has(7 - (7 - r), c));
        }
        once.spec_flip_vertical().lemma_equal(self);
    }

    /// Mirroring across the main diagonal twice gives the mask back.
    pub proof fn lemma_transpose_twice(self)
        ensures
            self.spec_transpose().spec_transpose() == self,
    {
        let once = self.spec_transpose();
        self.lemma_geometry();
        once.lemma_geometry();
        assert forall|r: int, c: int| 0 <= r < 8 && 0 <= c < 8 implies #[trigger]
            once.spec_transpose().has(r, c) == self.has(r, c) by {
            assert(once.has(c, r) == self.has(r, c));
        }
        once.spec_transpose().lemma_equal(self);
    }

    /// Four quarter turns give the mask back.
    pub proof fn lemma_rotate_four_times(self)
        ensures
            self.spec_rotate().spec_rotate().spec_rotate().spec_rotate() == self,
    {
        let one = self.spec_rotate();
        let two = one.spec_rotate();
        let three = two.spec_rotate();
        let four = three.spec_rotate();
        self.lemma_geometry();
        one.lemma_geometry();
        two.lemma_geometry();
        three.lemma_geometry();
        assert forall|r: int, c: int| 0 <= r < 8 && 0 <= c < 8 implies #[trigger] four.has(r, c)
            == self.has(r, c) by {
            assert(four.has(r, c) == three.has(7 - c, r));
            assert(three.has(7 - c, r) == two.has(7 - r, 7 - c));
            assert(two.has(7 - r, 7 - c) == one.has(7 - (7 - c), 7 - r));
            assert(one.has(c, 7 - r) == self.has(7 - (7 - r), c));
        }
        four.lemma_equal(self);
    }

    /// Masks with the same cells are equal.
    pub proof fn lemma_equal(self, other: Mask)
        requires
            forall|row: int, column: int|
                0 <= row < 8 && 0 <= column < 8 ==> #[trigger] self.has(row, column)
                    == other.has(row, column),
        ensures
            self == other,
    {
        assert forall|i: u64| i < 64 implies bit(self.0, i) == bit(other.0, i) by {
            let row = (i / 8) as int;
            let column = (i % 8) as int;
            assert(self.has(row, column) == other.has(row, column));
            assert((row * 8 + column) as u64 == i);
        }
        lemma_bits_equal(self.0, other.0);
    }

    /// Whether the cell at `row` and `column` is in the mask.
    pub fn get(&self, row: usize, column: usize) -> (found: bool)
        requires
            row < 8,
            column < 8,
        ensures
            found == self.has(row as int, column as int),
    {
        let shift: u64 = (row * 8 + column) as u64;
        proof {
            lemma_bit_test(self.0, shift);
        }
        (self.0 & (1u64 << shift)) != 0
    }

    /// The mask with the cell at `row` and `column` added.
    pub fn set(self, row: usize, column: usize) -> (result: Mask)
        requires
            row < 8,
            column < 8,
        ensures
            forall|r: int, c: int| #[trigger]
                result.has(r, c) == (self.has(r, c) || (r == row && c == column)),
    {
        let shift: u64 = (row * 8 + column) as u64;
        let result = Mask(self.0 | (1u64 << shift));
        proof {
            assert forall|r: int, c: int| #[trigger]
                result.has(r, c) == (self.has(r, c) || (r == row && c == column)) by {
                if 0 <= r < 8 && 0 <= c < 8 {
                    let i = (r * 8 + c) as u64;
                    lemma_bit_or(self.0, 1u64 << shift, i);
                    lemma_bit_single(shift, i);
                }
            }
        }
        result
    }

    /// The mask moved `right` columns to the right and `down` rows down.
    ///
    /// The result is the mask's bits shifted up by `down * 8 + right` places.
    /// Where no cell leaves the board on the way, this moves each cell as
    /// the names say; a cell pushed over the right edge would come back in
    /// the next row, and one pushed over the bottom is lost.
    pub fn translate(self, right: usize, down: usize) -> (result: Mask)
        requires
            down * 8 + right < 64,
        ensures
            result.0 == self.0 << ((down * 8 + right) as u64),
            self.within(8 - right, 8 - down) ==> forall|r: int, c: int| #[trigger]
                result.has(r, c) == (0 <= r < 8 && 0 <= c < 8 && self.has(r - down, c - right)),
    {
        let shift: u64 = (down * 8 + right) as u64;
        let result = Mask(self.0 << shift);
        proof {
            if self.within(8 - right, 8 - down) {
                assert forall|r: int, c: int| #[trigger]
                    result.has(r, c) == (0 <= r < 8 && 0 <= c < 8 && self.has(
                        r - down,
                        c - right,
                    )) by {
                    if 0 <= r < 8 && 0 <= c < 8 {
                        let i = (r * 8 + c) as u64;
                        lemma_bit_shl(self.0, shift, i);
                        if i >= shift {
                            let j = (i - shift) as int;
                            if self.has(j / 8, j % 8) {
                                assert(j % 8 + right < 8);
                                assert(r == j / 8 + down && c == j % 8 + right);
                            }
                            if self.has(r - down, c - right) {
                                assert(j == (r - down) * 8 + (c - right));
                            }
                        }
                    }
                }
            }
        }
        result
    }

    /// The mask mirrored top to bottom: row `r` changes places with row
    /// `7 - r`.
    #[verifier::when_used_as_spec(spec_flip_vertical)]
    pub fn flip_vertical(self) -> (result: Mask)
        ensures
            result == self.spec_flip_vertical(),
            forall|r: int, c: int| #[trigger] result.has(r, c) == self.has(7 - r, c),
    {
        let x: u64 = self.0;
        let a: u64 = ((x >> 8) & 0x00FF_00FF_00FF_00FF) | ((x & 0x00FF_00FF_00FF_00FF) << 8);
        let b: u64 = ((a >> 16) & 0x0000_FFFF_0000_FFFF) | ((a & 0x0000_FFFF_0000_FFFF) << 16);
        let result = Mask((b >> 32) | (b << 32));
        proof {
            assert(result == self.spec_flip_vertical());
            self.lemma_geometry();
        }
        result
    }

    /// The mask mirrored across the main diagonal, which runs from the top
    /// left corner to the bottom right corner: the cell at `(r, c)` changes
    /// places with the cell at `(c, r)`.
    ///
    /// Mirroring a piece this way always changes its handedness. The bits are
    /// moved in three rounds of swaps, of blocks of four by four, two by two
    /// and one by one cells.
    #[verifier::when_used_as_spec(spec_transpose)]
    pub fn transpose(self) -> (result: Mask)
        ensures
            result == self.spec_transpose(),
            forall|r: int, c: int| #[trigger] result.has(r, c) == self.has(c, r),
    {
        let x: u64 = self.0;
        let t1: u64 = 0x0f0f_0f0f_0000_0000 & (x ^ (x << 28));
        let x1: u64 = x ^ (t1 ^ (t1 >> 28));
        let t2: u64 = 0x3333_0000_3333_0000 & (x1 ^ (x1 << 14));
        let x2: u64 = x1 ^ (t2 ^ (t2 >> 14));
        let t3: u64 = 0x5500_5500_5500_5500 & (x2 ^ (x2 << 7));
        let result = Mask(x2 ^ (t3 ^ (t3 >> 7)));
        proof {
            assert(result == self.spec_transpose());
            self.lemma_geometry();
        }
        result
    }

    /// The mask turned clockwise by a quarter: mirrored top to bottom, then
    /// across the main diagonal. The cell at `(r, c)` goes to `(c, 7 - r)`,
    /// so that the top left corner becomes the top right corner.
    #[verifier::when_used_as_spec(spec_rotate)]
    pub fn rotate(self) -> (result: Mask)
        ensures
            result == self.spec_rotate(),
            forall|r: int, c: int| #[trigger] result.has(r, c) == self.has(7 - c, r),
    {
        proof {
            self.lemma_geometry();
        }
        self.flip_vertical().transpose()
    }

    /// The mask of the one cell that stands for the month `month`, counted
    /// from 0: the months fill the first six columns of the first two rows.
    pub fn for_month(month: u32) -> (result: Mask)
        requires
            month < 12,
        ensures
            forall|r: int, c: int| #[trigger]
                result.has(r, c) == (r == month / 6 && c == month % 6),
    {
        let index: u64 = if month < 6 {
            month as u64
        } else {
            (month - 6 + 8) as u64
        };
        let result = Mask(1u64 << index);
        proof {
            assert forall|r: int, c: int| #[trigger]
                result.has(r, c) == (r == month / 6 && c == month % 6) by {
                if 0 <= r < 8 && 0 <= c < 8 {
                    lemma_bit_single(index, (r * 8 + c) as u64);
                }
            }
        }
        result
    }

    /// The mask of the one cell that stands for the day `day` of a month,
    /// counted from 0: the days fill rows of seven cells below the two rows
    /// of the months.
    pub fn for_day(day: u32) -> (result: Mask)
        requires
            day < 31,
        ensures
            forall|r: int, c: int| #[trigger]
                result.has(r, c) == (r == 2 + day / 7 && c == day % 7),
    {
        let column: usize = (day % 7) as usize;
        let row: usize = (2 + day / 7) as usize;
        let empty = Mask::blank();
        empty.set(row, column)
    }

    /// The cells that are in `self`, in `other` or in both.
    pub open spec fn spec_union(self, other: Mask) -> Mask {
        Mask(self.0 | other.0)
    }

    /// The cells that are in `self` and in `other`.
    pub open spec fn spec_intersection(self, other: Mask) -> Mask {
        Mask(self.0 & other.0)
    }

    /// The cells of the board that are not in `self`.
    pub open spec fn spec_complement(self) -> Mask {
        Mask(!self.0)
    }

    /// The cells that are in `self` and not in `other`.
    pub open spec fn spec_difference(self, other: Mask) -> Mask {
        Mask(self.0 & !other.0)
    }

    /// What the four set operations do to each cell.
    pub proof fn lemma_algebra(self, other: Mask)
        ensures
            forall|r: int, c: int| #[trigger]
                self.spec_union(other).has(r, c) == (self.has(r, c) || other.has(r, c)),
            forall|r: int, c: int| #[trigger]
                self.spec_intersection(other).has(r, c) == (self.has(r, c) && other.has(r, c)),
            forall|r: int, c: int| #[trigger]
                self.spec_difference(other).has(r, c) == (self.has(r, c) && !other.has(r, c)),
            forall|r: int, c: int| #[trigger]
                self.spec_complement().has(r, c) == (0 <= r < 8 && 0 <= c < 8 && !self.has(r, c)),
    {
        assert forall|r: int, c: int| #[trigger]
            self.spec_union(other).has(r, c) == (self.has(r, c) || other.has(r, c)) by {
            if 0 <= r < 8 && 0 <= c < 8 {
                lemma_bit_or(self.0, other.0, (r * 8 + c) as u64);
            }
        }
        assert forall|r: int, c: int| #[trigger]
            self.spec_intersection(other).has(r, c) == (self.has(r, c) && other.has(r, c)) by {
            if 0 <= r < 8 && 0 <= c < 8 {
                lemma_bit_and(self.0, other.0, (r * 8 + c) as u64);
            }
        }
        assert forall|r: int, c: int| #[trigger]
            self.spec_difference(other).has(r, c) == (self.has(r, c) && !other.has(r, c)) by {
            if 0 <= r < 8 && 0 <= c < 8 {
                lemma_bit_and(self.0, !other.0, (r * 8 + c) as u64);
                lemma_bit_not(other.0, (r * 8 + c) as u64);
            }
        }
        assert forall|r: int, c: int| #[trigger]
            self.spec_complement().has(r, c) == (0 <= r < 8 && 0 <= c < 8 && !self.has(
                r,
                c,
            )) by {
            if 0 <= r < 8 && 0 <= c < 8 {
                lemma_bit_not(self.0, (r * 8 + c) as u64);
            }
        }
    }

    /// The set operations on masks are those on their sets of cells.
    pub proof fn lemma_views(self, other: Mask)
        ensures
            self.spec_union(other)@ == self@.union(other@),
            self.spec_intersection(other)@ == self@.intersect(other@),
            self.spec_difference(other)@ == self@.difference(other@),
            self.disjoint(other) <==> self@.disjoint(other@),
            self@ == other@ <==> self == other,
    {
        self.lemma_algebra(other);
        assert(self.spec_union(other)@ =~= self@.union(other@));
        assert(self.spec_intersection(other)@ =~= self@.intersect(other@));
        assert(self.spec_difference(other)@ =~= self@.difference(other@));
        if self@.disjoint(other@) {
            assert forall|r: int, c: int|
                !(#[trigger] self.has(r, c) && #[trigger] other.has(r, c)) by {
                assert(!(self@.contains((r, c)) && other@.contains((r, c))));
            }
        }
        if self@ == other@ {
            assert forall|r: int, c: int| 0 <= r < 8 && 0 <= c < 8 implies #[trigger] self.has(
                r,
                c,
            ) == other.has(r, c) by {
                assert(self@.contains((r, c)) == other@.contains((r, c)));
            }
            self.lemma_equal(other);
        }
    }

    /// A mask absorbs its intersection with any other, and taking `other`
    /// away is intersecting with what `other` leaves of the board.
    pub proof fn lemma_absorption(self, other: Mask)
        ensures
            self.spec_union(self.spec_intersection(other)) == self,
            self.spec_difference(other) == self.spec_intersection(other.spec_complement()),
    {
        let a = self.0;
        let b = other.0;
        assert(a | (a & b) == a) by (bit_vector);
    }

    /// Union and intersection do not depend on the order or the grouping of
    /// their operands, and the complement turns each into the other.
    pub proof fn lemma_boolean_algebra(self, other: Mask, third: Mask)
        ensures
            self.spec_union(other) == other.spec_union(self),
            self.spec_intersection(other) == other.spec_intersection(self),
            self.spec_union(other).spec_union(third) == self.spec_union(other.spec_union(third)),
            self.spec_intersection(other).spec_intersection(third) == self.spec_intersection(
                other.spec_intersection(third),
            ),
            self.spec_union(other).spec_complement() == self.spec_complement().spec_intersection(
                other.spec_complement(),
            ),
            self.spec_intersection(other).spec_complement() == self.spec_complement().spec_union(
                other.spec_complement(),
            ),
    {
        let a = self.0;
        let b = other.0;
        let c = third.0;
        assert(a | b == b | a) by (bit_vector);
        assert(a & b == b & a) by (bit_vector);
        assert((a | b) | c == a | (b | c)) by (bit_vector);
        assert((a & b) & c == a & (b & c)) by (bit_vector);
        assert(!(a | b) == !a & !b) by (bit_vector);
        assert(!(a & b) == !a | !b) by (bit_vector);
    }

    /// Two masks share no cell exactly if their intersection is blank.
    pub proof fn lemma_disjoint(self, other: Mask)
        ensures
            self.disjoint(other) <==> self.spec_intersection(other) == Mask::spec_blank(),
    {
        self.lemma_algebra(other);
        let both = self.spec_intersection(other);
        if self.disjoint(other) {
            assert forall|r: int, c: int| 0 <= r < 8 && 0 <= c < 8 implies #[trigger] both.has(
                r,
                c,
            ) == Mask::spec_blank().has(r, c) by {
                lemma_bit_zero((r * 8 + c) as u64);
                assert(!(self.has(r, c) && other.has(r, c)));
            }
            both.lemma_equal(Mask::spec_blank());
        }
        if both == Mask::spec_blank() {
            assert forall|r: int, c: int|
                !(#[trigger] self.has(r, c) && #[trigger] other.has(r, c)) by {
                if 0 <= r < 8 && 0 <= c < 8 {
                    lemma_bit_zero((r * 8 + c) as u64);
                    assert(both.has(r, c) == (self.has(r, c) && other.has(r, c)));
                }
            }
        }
    }

    /// The cells that are in `self`, in `other` or in both.
    pub fn union(self, other: Mask) -> (result: Mask)
        ensures
            result == self.spec_union(other),
            forall|r: int, c: int| #[trigger]
                result.has(r, c) == (self.has(r, c) || other.has(r, c)),
    {
        let result = Mask(self.0 | other.0);
        proof {
            self.lemma_algebra(other);
            assert(result == self.spec_union(other));
        }
        result
    }

    /// The cells that are in `self` and in `other`.
    pub fn intersection(self, other: Mask) -> (result: Mask)
        ensures
            result == self.spec_intersection(other),
            forall|r: int, c: int| #[trigger]
                result.has(r, c) == (self.has(r, c) && other.has(r, c)),
    {
        let result = Mask(self.0 & other.0);
        proof {
            self.lemma_algebra(other);
            assert(result == self.spec_intersection(other));
        }
        result
    }

    /// The cells that are in `self` and not in `other`.
    pub fn difference(self, other: Mask) -> (result: Mask)
        ensures
            result == self.spec_difference(other),
            forall|r: int, c: int| #[trigger]
                result.has(r, c) == (self.has(r, c) && !other.has(r, c)),
    {
        let result = Mask(self.0 & !other.0);
        proof {
            self.lemma_algebra(other);
            assert(result == self.spec_difference(other));
        }
        result
    }

    /// The cells of the board that are not in `self`.
    pub fn complement(self) -> (result: Mask)
        ensures
            result == self.spec_complement(),
            forall|r: int, c: int| #[trigger]
                result.has(r, c) == (0 <= r < 8 && 0 <= c < 8 && !self.has(r, c)),
    {
        let result = Mask(!self.0);
        proof {
            self.lemma_algebra(self);
            assert(result == self.spec_complement());
        }
        result
    }
}

impl core::ops::BitAnd<Mask> for Mask {
    type Output = Mask;

    fn bitand(self, rhs: Mask) -> (result: Mask) {
        self.intersection(rhs)
    }
}

impl vstd::std_specs::ops::BitAndSpecImpl<Mask> for Mask {
    open spec fn obeys_bitand_spec() -> bool {
        true
    }

    open spec fn bitand_req(self, rhs: Mask) -> bool {
        true
    }

    open spec fn bitand_spec(self, rhs: Mask) -> Mask {
        self.spec_intersection(rhs)
    }
}

impl core::ops::BitOr<Mask> for Mask {
    type Output = Mask;

    fn bitor(self, rhs: Mask) -> (result: Mask) {
        self.union(rhs)
    }
}

impl vstd::std_specs::ops::BitOrSpecImpl<Mask> for Mask {
    open spec fn obeys_bitor_spec() -> bool {
        true
    }

    open spec fn bitor_req(self, rhs: Mask) -> bool {
        true
    }

    open spec fn bitor_spec(self, rhs: Mask) -> Mask {
        self.spec_union(rhs)
    }
}

impl core::ops::Sub<Mask> for Mask {
    type Output = Mask;

    fn sub(self, rhs: Mask) -> (result: Mask) {
        self.difference(rhs)
    }
}

impl vstd::std_specs::ops::SubSpecImpl<Mask> for Mask {
    open spec fn obeys_sub_spec() -> bool {
        true
    }

    open spec fn sub_req(self, rhs: Mask) -> bool {
        true
    }

    open spec fn sub_spec(self, rhs: Mask) -> Mask {
        self.spec_difference(rhs)
    }
}

impl core::ops::Not for Mask {
    type Output = Mask;

    fn not(self) -> (result: Mask) {
        self.complement()
    }
}

impl vstd::std_specs::ops::NotSpecImpl for Mask {
    open spec fn obeys_not_spec() -> bool {
        true
    }

    open spec fn not_req(self) -> bool {
        true
    }

    open spec fn not_spec(self) -> Mask {
        self.spec_complement()
    }
}

impl Default for Mask {
    fn default() -> (result: Mask)
        ensures
            result == Mask::spec_blank(),
    {
        Mask(0)
    }
}

} // verus!
