use puzzle_a_day::mask::Mask;
use puzzle_a_day::piece::insert_sorted;
use puzzle_a_day::piece::Piece;

#[test]
fn check_positions() {
    // rotation, translation
    // --------
    // --------
    // --------
    // --------
    // ----•---
    // --•••---
    // --•-----
    // --------
    let mask = Mask::blank()
        .set(4, 4)
        .set(5, 2)
        .set(5, 3)
        .set(5, 4)
        .set(6, 2);
    assert!(Piece::Z.positions().contains(&mask));

    // chiral flip test
    // ••------
    // •-------
    // •-------
    // •-------
    // --------
    // --------
    // --------
    // --------
    let mask2 = Mask::blank()
        .set(0, 0)
        .set(0, 1)
        .set(1, 0)
        .set(2, 0)
        .set(3, 0);
    assert!(Piece::L.positions().contains(&mask2));
}

#[test]
fn all() {
    for piece in Piece::ALL {
        assert_eq!(piece, Piece::ALL[piece as usize]);
    }
}

#[test]
fn index_and_nth_agree() {
    assert_eq!(Piece::COUNT, 8);
    for (index, piece) in Piece::ALL.iter().enumerate() {
        assert_eq!(piece.index(), index);
        assert_eq!(Piece::nth(index), *piece);
    }
    assert_eq!(Piece::nth(3), Piece::Lamedh);
    assert_eq!(Piece::Z.index(), 7);
}

#[test]
fn base_masks_and_sizes() {
    assert_eq!(Piece::C.base_mask(), Mask(0x0507));
    assert_eq!(Piece::Gamma.base_mask(), Mask(0x01_0107));
    assert_eq!(Piece::L.base_mask(), Mask(0x0301_0101));
    assert_eq!(Piece::Lamedh.base_mask(), Mask(0x0203_0101));
    assert_eq!(Piece::O.base_mask(), Mask(0x0707));
    assert_eq!(Piece::P.base_mask(), Mask(0x0307));
    assert_eq!(Piece::T.base_mask(), Mask(0x0103_0101));
    assert_eq!(Piece::Z.base_mask(), Mask(0x06_0203));
    assert_eq!(Piece::C.size(), (3, 2));
    assert_eq!(Piece::Gamma.size(), (3, 3));
    assert_eq!(Piece::L.size(), (2, 4));
    assert_eq!(Piece::Lamedh.size(), (2, 4));
    assert_eq!(Piece::O.size(), (3, 2));
    assert_eq!(Piece::P.size(), (3, 2));
    assert_eq!(Piece::T.size(), (2, 4));
    assert_eq!(Piece::Z.size(), (3, 3));
    for piece in Piece::ALL {
        let (width, height) = piece.size();
        let mask = piece.base_mask();
        for r in 0..8 {
            for c in 0..8 {
                if mask.get(r, c) {
                    assert!(r < height && c < width);
                }
            }
        }
        assert!((0..height).all(|r| (0..width).any(|c| mask.get(r, c))));
        assert!((0..width).all(|c| (0..height).any(|r| mask.get(r, c))));
    }
}

#[test]
fn chirality_and_letters() {
    assert!(!Piece::C.is_chiral());
    assert!(!Piece::Gamma.is_chiral());
    assert!(Piece::L.is_chiral());
    assert!(Piece::Lamedh.is_chiral());
    assert!(!Piece::O.is_chiral());
    assert!(Piece::P.is_chiral());
    assert!(Piece::T.is_chiral());
    assert!(Piece::Z.is_chiral());
    let letters: Vec<char> = Piece::ALL.iter().map(|p| p.display_character()).collect();
    assert_eq!(letters, vec!['C', 'Γ', 'L', 'ל', 'O', 'P', 'T', 'Z']);
}

#[test]
fn insert_sorted_keeps_order_and_drops_repeats() {
    let mut list: Vec<Mask> = Vec::new();
    for bits in [5u64, 1, 9, 5, 3, 1, 12, 9] {
        insert_sorted(&mut list, Mask(bits));
    }
    assert_eq!(list, vec![Mask(1), Mask(3), Mask(5), Mask(9), Mask(12)]);
    insert_sorted(&mut list, Mask(0));
    insert_sorted(&mut list, Mask(13));
    assert_eq!(
        list,
        vec![Mask(0), Mask(1), Mask(3), Mask(5), Mask(9), Mask(12), Mask(13)]
    );
}

#[test]
fn positions_are_ascending_without_repeats() {
    for piece in Piece::ALL {
        let list = piece.positions();
        assert!(!list.is_empty());
        for pair in list.windows(2) {
            assert!(pair[0] < pair[1]);
        }
        assert_eq!(list, piece.calculate_positions());
    }
}

#[test]
fn positions_hold_every_turn_of_every_offset() {
    for piece in Piece::ALL {
        let list = piece.positions();
        let (width, height) = piece.size();
        let cells = piece.base_mask().0.count_ones();
        let mut made = 0;
        for right in 0..=(8 - width) {
            for down in 0..=(8 - height) {
                let mut mask = piece.base_mask().translate(right, down);
                for _ in 0..4 {
                    assert!(list.contains(&mask));
                    made += 1;
                    if piece.is_chiral() {
                        assert!(list.contains(&mask.transpose()));
                        made += 1;
                    }
                    mask = mask.rotate();
                }
            }
        }
        assert!(list.len() <= made);
        assert_eq!(made % list.len(), 0);
        for mask in &list {
            assert_eq!(mask.0.count_ones(), cells);
            // Each placement is in the list in all of its turns.
            assert!(list.contains(&mask.rotate()));
            assert_eq!(list.contains(&mask.transpose()), true);
        }
    }
}

#[test]
fn positions_have_the_expected_sizes() {
    assert_eq!(Piece::C.positions().len(), 168);
    assert_eq!(Piece::Gamma.positions().len(), 144);
    assert_eq!(Piece::L.positions().len(), 280);
    assert_eq!(Piece::Lamedh.positions().len(), 280);
    assert_eq!(Piece::O.positions().len(), 84);
    assert_eq!(Piece::P.positions().len(), 336);
    assert_eq!(Piece::T.positions().len(), 280);
    assert_eq!(Piece::Z.positions().len(), 144);
}

#[test]
fn first_position_of_the_first_piece() {
    // The lowest mask of the C piece lies in the top left corner.
    let first = Piece::C.positions()[0];
    assert_eq!(first, Mask(0x0507));
}
