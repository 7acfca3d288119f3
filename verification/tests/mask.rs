use puzzle_a_day::mask::Mask;

/// The mask with its rows and columns swapped, cell by cell.
fn mirror_by_cells(mask: Mask) -> Mask {
    let mut result = Mask::blank();
    for r in 0..8 {
        for c in 0..8 {
            if mask.get(c, r) {
                result = result.set(r, c);
            }
        }
    }
    result
}

fn count(mask: Mask) -> u32 {
    mask.0.count_ones()
}

const SAMPLES: [u64; 8] = [
    0,
    1,
    0xFFFF_FFFF_FFFF_FFFF,
    0x0123_4567_89AB_CDEF,
    0xF0F0_F0F0_0F0F_0F0F,
    0x8000_0000_0000_0001,
    0x0000_0000_0000_0307,
    0xDEAD_BEEF_0BAD_F00D,
];

#[test]
fn get() {
    assert!(Mask(1).get(0, 0));
    assert!(!Mask(1).get(0, 1));
}

#[test]
fn set() {
    assert_eq!(Mask(0).set(0, 0).set(0, 1).set(0, 2).set(0, 3), Mask(0xF));
    assert_eq!(Mask(0).set(1, 0), Mask(0x100));
}

#[test]
fn translate() {
    let mask = Mask(0).set(1, 0).set(1, 5);
    let after = Mask(0).set(3, 2).set(3, 7);
    assert_eq!(mask.translate(2, 2), after);
}

#[test]
fn flip_vertical() {
    let mask = Mask(0xF0F0F0F00F0F0F0F);
    let after = Mask(0x0F0F0F0FF0F0F0F0);
    assert_eq!(mask.flip_vertical(), after);
}

#[test]
fn transpose() {
    // The pattern is the same in its rows as in its columns, so swapping
    // them leaves it as it is.
    let mask = Mask(0xCCCC0000CCCC0000);
    let after = Mask(0xCCCC0000CCCC0000);
    assert_eq!(mask.transpose(), after);
}

#[test]
fn rotate() {
    let mask = Mask(0xAA00AA00AA00AA00);
    let after = Mask(0x5500550055005500);
    assert_eq!(mask.rotate(), after);
}

#[test]
fn for_month() {
    assert_eq!(Mask::for_month(0), Mask(1));
    assert_eq!(Mask::for_month(5), Mask(0x020), "pick the right column");
    assert_eq!(Mask::for_month(6), Mask(0x100), "didn't wrap correctly");
}

#[test]
fn for_day() {
    assert_eq!(
        Mask::for_day(0),
        Mask(0).set(2, 0),
        "didn't skip month rows"
    );
    assert_eq!(
        Mask::for_day(30),
        Mask(0).set(6, 2),
        "didn't wrap correctly"
    );
}

#[test]
fn date_of_writing() {
    let date = Mask::for_day(18) | Mask::for_month(5);
    let expected = Mask(0).set(0, 5).set(4, 4);
    assert_eq!(date, expected);
}

#[test]
fn get_reads_the_last_cell() {
    assert!(Mask(0x8000_0000_0000_0000).get(7, 7));
    assert!(!Mask(0x7FFF_FFFF_FFFF_FFFF).get(7, 7));
    assert!(Mask(0x0000_0000_0000_8000).get(1, 7));
}

#[test]
fn set_keeps_the_other_cells() {
    assert_eq!(Mask(0x100).set(7, 7), Mask(0x8000_0000_0000_0100));
    assert_eq!(Mask(0x100).set(1, 0), Mask(0x100));
}

#[test]
fn translate_by_nothing_is_the_same_mask() {
    assert_eq!(Mask(0x0307).translate(0, 0), Mask(0x0307));
    assert_eq!(Mask(0x0307).translate(1, 0), Mask(0x060E));
    assert_eq!(Mask(0x0307).translate(0, 1), Mask(0x0003_0700));
    assert_eq!(Mask(1).translate(7, 7), Mask(0x8000_0000_0000_0000));
}

#[test]
fn blank_full_and_frame() {
    assert_eq!(Mask::blank(), Mask(0));
    assert_eq!(Mask::default(), Mask(0));
    assert_eq!(Mask::full(), Mask(u64::MAX));
    let mut frame = Mask::blank();
    for r in 0..8 {
        for c in 0..8 {
            let blocked = r == 7 || c == 7 || (r < 2 && c == 6) || (r == 6 && c >= 3);
            if blocked {
                frame = frame.set(r, c);
            }
            assert_eq!(Mask::frame().get(r, c), blocked);
        }
    }
    assert_eq!(Mask::frame(), frame);
    assert_eq!(count(Mask::frame()), 21);
}

#[test]
fn flip_vertical_swaps_rows() {
    assert_eq!(Mask(0xFF).flip_vertical(), Mask(0xFF00_0000_0000_0000));
    assert_eq!(Mask(0x0123_4567_89AB_CDEF).flip_vertical(), Mask(0xEFCD_AB89_6745_2301));
    for bits in SAMPLES {
        assert_eq!(Mask(bits).flip_vertical(), Mask(bits.swap_bytes()));
    }
}

#[test]
fn transpose_matches_the_mirror_by_cells() {
    for bits in SAMPLES {
        assert_eq!(Mask(bits).transpose(), mirror_by_cells(Mask(bits)));
    }
    for index in 0..64 {
        let mask = Mask(1 << index);
        assert_eq!(mask.transpose(), mirror_by_cells(mask));
    }
    // The cells on the main diagonal stay.
    assert_eq!(Mask(1).transpose(), Mask(1));
    assert_eq!(Mask(0x8000_0000_0000_0000).transpose(), Mask(0x8000_0000_0000_0000));
    // The top right cell goes to the bottom left.
    assert_eq!(Mask(0x80).transpose(), Mask(0x0100_0000_0000_0000));
    assert_eq!(Mask(0).set(0, 1).transpose(), Mask(0).set(1, 0));
    // The first row becomes the first column.
    assert_eq!(Mask(0xFF).transpose(), Mask(0x0101_0101_0101_0101));
    assert_eq!(Mask(0x0307).transpose(), Mask(0x01_0303));
}

#[test]
fn rotate_moves_each_cell_a_quarter_turn() {
    for bits in SAMPLES {
        let mask = Mask(bits);
        let turned = mask.rotate();
        for r in 0..8 {
            for c in 0..8 {
                assert_eq!(turned.get(r, c), mask.get(7 - c, r));
                assert_eq!(turned.get(c, 7 - r), mask.get(r, c));
            }
        }
    }
    // The top left cell goes to the top right, and on to the bottom right.
    assert_eq!(Mask(1).rotate(), Mask(0x80));
    assert_eq!(Mask(0x80).rotate(), Mask(0x8000_0000_0000_0000));
    // The first row becomes the last column.
    assert_eq!(Mask(0xFF).rotate(), Mask(0x8080_8080_8080_8080));
}

#[test]
fn mirrors_and_turns_come_back() {
    for bits in SAMPLES {
        let mask = Mask(bits);
        assert_eq!(mask.flip_vertical().flip_vertical(), mask);
        assert_eq!(mask.transpose().transpose(), mask);
        assert_eq!(mask.rotate().rotate().rotate().rotate(), mask);
        assert_eq!(count(mask.rotate()), count(mask));
    }
}

#[test]
fn set_algebra() {
    for a in SAMPLES {
        for b in SAMPLES {
            let (a, b) = (Mask(a), Mask(b));
            assert_eq!(a | (a & b), a);
            assert_eq!(a - b, a & !b);
            assert_eq!(a | b, b | a);
            assert_eq!(a & b, b & a);
            assert_eq!(!(a | b), !a & !b);
            assert_eq!(!(a & b), !a | !b);
            assert_eq!(a.union(b), a | b);
            assert_eq!(a.intersection(b), a & b);
            assert_eq!(a.difference(b), a - b);
            assert_eq!(a.complement(), !a);
            for c in SAMPLES {
                let c = Mask(c);
                assert_eq!((a | b) | c, a | (b | c));
                assert_eq!((a & b) & c, a & (b & c));
            }
        }
    }
    assert_eq!(Mask(0b1100) | Mask(0b1010), Mask(0b1110));
    assert_eq!(Mask(0b1100) & Mask(0b1010), Mask(0b1000));
    assert_eq!(Mask(0b1100) - Mask(0b1010), Mask(0b0100));
    assert_eq!(!Mask(0b1100), Mask(0xFFFF_FFFF_FFFF_FFF3));
}

#[test]
fn masks_are_ordered_by_their_bits() {
    assert!(Mask(1) < Mask(2));
    assert!(Mask(0x100) > Mask(0xFF));
    assert_eq!(Mask(7).max(Mask(3)), Mask(7));
}

#[test]
fn every_month_and_day_has_its_cell() {
    for month in 0..12u32 {
        let expected = Mask(0).set((month / 6) as usize, (month % 6) as usize);
        assert_eq!(Mask::for_month(month), expected);
        assert_eq!(Mask::for_month(month) & Mask::frame(), Mask::blank());
    }
    for day in 0..31u32 {
        let expected = Mask(0).set((2 + day / 7) as usize, (day % 7) as usize);
        assert_eq!(Mask::for_day(day), expected);
        assert_eq!(Mask::for_day(day) & Mask::frame(), Mask::blank());
    }
    assert_eq!(Mask::for_month(11), Mask(0x2000));
    assert_eq!(Mask::for_day(6), Mask(0x40_0000));
    assert_eq!(Mask::for_day(7), Mask(0x0100_0000));
}
