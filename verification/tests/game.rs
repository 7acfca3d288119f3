use puzzle_a_day::game::Catalog;
use puzzle_a_day::game::Game;
use puzzle_a_day::mask::Mask;
use puzzle_a_day::piece::Piece;

/// Checks that the frame, the date and the eight pieces take each cell of the
/// board exactly once, and that each piece lies in one of its placements.
fn assert_solved(game: &Game, month: u32, day: u32) {
    assert!(game.all_pieces_placed());
    assert_eq!(game.placed, Mask::full());
    assert_eq!(game.date, Mask::for_month(month) | Mask::for_day(day));
    let mut seen = Mask::frame();
    assert_eq!(seen & game.date, Mask::blank());
    seen = seen | game.date;
    for piece in Piece::ALL {
        let mask = game.pieces[piece as usize];
        assert!(piece.positions().contains(&mask));
        assert_eq!(seen & mask, Mask::blank());
        seen = seen | mask;
    }
    assert_eq!(seen, Mask::full());
}

fn solve_month(month: u32, days: u32) {
    let catalog = Catalog::new();
    for day in 0..days {
        let mut game = Game::for_date(month, day);
        game.solve_with(&catalog);
        assert_solved(&game, month, day);
    }
}

#[test]
fn for_date() {
    let game = Game::for_date(11, 24);
    assert_eq!(game.date, Mask::blank().set(1, 5).set(5, 3));
}

#[test]
fn place() {
    let mut game = Game::for_date(11, 24);
    let piece = Piece::ALL[0];
    let positions = piece.positions();

    // game should be blank, no piece is too big to fit in the top right on
    // christmas.
    assert!(game.place(piece, positions[0]));
}

#[test]
fn collide() {
    let mut game = Game::for_date(11, 24);
    assert!(!game.place(Piece::C, Mask::frame()));
}

#[test]
fn remove() {
    let mut game = Game::for_date(11, 24);
    let piece = Piece::ALL[0];
    let position = piece.positions()[0];

    // game should be blank, no piece is too big to fit in the top right on
    // christmas.
    assert!(game.place(piece, position));
    game.remove(piece);
    assert!(game.pieces[piece as usize] == Mask::blank());
}

#[test]
fn solve_test() {
    let mut game = Game::for_date(11, 24);

    game.solve();

    assert!(game.all_pieces_placed());
}

#[test]
fn new_game_has_the_date_and_the_frame() {
    let game = Game::for_date(5, 18);
    assert_eq!(game.date, Mask(0).set(0, 5).set(4, 4));
    assert_eq!(game.placed, game.date | Mask::frame());
    assert_eq!(game.pieces, [Mask::blank(); 8]);
    assert_eq!(game.next_piece_index, 0);
    assert!(!game.all_pieces_placed());
}

#[test]
fn first_and_last_date() {
    let first = Game::for_date(0, 0);
    assert_eq!(first.date.0.count_ones(), 2);
    assert_eq!(first.date & Mask::frame(), Mask::blank());
    assert_eq!(first.date, Mask(0).set(0, 0).set(2, 0));
    assert_eq!(first.date, Mask(0x1_0001));

    let last = Game::for_date(11, 30);
    assert_eq!(last.date.0.count_ones(), 2);
    assert_eq!(last.date & Mask::frame(), Mask::blank());
    assert_eq!(last.date, Mask(0).set(1, 5).set(6, 2));
    assert_eq!(last.date, Mask(0x0004_0000_0000_2000));
}

#[test]
fn place_on_free_cells_takes_them() {
    let mut game = Game::for_date(11, 24);
    let before = game.placed;
    let position = Mask(0x0507);
    assert!(game.place(Piece::C, position));
    assert_eq!(game.placed, before | position);
    assert_eq!(game.pieces[0], position);
    for index in 1..8 {
        assert_eq!(game.pieces[index], Mask::blank());
    }
    assert_eq!(game.date, Mask(0).set(1, 5).set(5, 3));
    assert_eq!(game.next_piece_index, 0);
}

#[test]
fn place_on_taken_cells_changes_nothing() {
    let mut game = Game::for_date(11, 24);
    assert!(game.place(Piece::C, Mask(0x0507)));
    let date = game.date;
    let pieces = game.pieces;
    let placed = game.placed;
    let next = game.next_piece_index;

    // One cell of this position belongs to the C piece already.
    assert!(!game.place(Piece::O, Mask(0x0707).translate(2, 0)));
    // This one reaches into the date.
    assert!(!game.place(Piece::O, Mask(0x0707).translate(3, 1)));
    // And this one lies in the frame.
    assert!(!game.place(Piece::O, Mask(0x0707).translate(5, 0)));

    assert_eq!(game.date, date);
    assert_eq!(game.pieces, pieces);
    assert_eq!(game.placed, placed);
    assert_eq!(game.next_piece_index, next);
}

#[test]
fn remove_frees_the_cells() {
    let mut game = Game::for_date(3, 0);
    let before = game.placed;
    assert!(game.place(Piece::P, Mask(0x0307).translate(0, 3)));
    assert!(game.place(Piece::Z, Mask(0x06_0203).translate(3, 3)));
    game.remove(Piece::P);
    assert_eq!(game.placed, before | Mask(0x06_0203).translate(3, 3));
    assert_eq!(game.pieces[Piece::P as usize], Mask::blank());
    assert_eq!(game.pieces[Piece::Z as usize], Mask(0x06_0203).translate(3, 3));
    game.remove(Piece::Z);
    assert_eq!(game.placed, before);
    assert_eq!(game.pieces, [Mask::blank(); 8]);
}

#[test]
fn catalog_lists_the_positions_of_each_piece() {
    let catalog = Catalog::new();
    assert_eq!(catalog.lists.len(), 8);
    for piece in Piece::ALL {
        assert_eq!(catalog.lists[piece as usize], piece.positions());
    }
}

#[test]
fn solved_christmas_board() {
    let mut game = Game::for_date(11, 24);
    game.solve();
    assert_solved(&game, 11, 24);
    assert_eq!(game.date, Mask(0).set(1, 5).set(5, 3));
    assert_eq!(game.next_piece_index, 8);

    let text: String = game.render().into_iter().collect();
    let lines: Vec<&str> = text.lines().collect();
    assert_eq!(lines.len(), 8);
    let mut reread = [Mask::blank(); 8];
    let mut dots = Mask::blank();
    let mut blocked = Mask::blank();
    for (r, line) in lines.iter().enumerate() {
        let glyphs: Vec<char> = line.chars().collect();
        assert_eq!(glyphs.len(), 8);
        for (c, glyph) in glyphs.iter().enumerate() {
            assert_eq!(*glyph, game.display_character(r, c));
            if *glyph == ' ' {
                blocked = blocked.set(r, c);
            } else if *glyph == '•' {
                dots = dots.set(r, c);
            } else {
                let piece = Piece::ALL
                    .iter()
                    .find(|p| p.display_character() == *glyph)
                    .expect("a cell that no piece covers");
                reread[*piece as usize] = reread[*piece as usize].set(r, c);
            }
        }
    }
    assert_eq!(dots, game.date);
    assert_eq!(blocked, Mask::frame());
    assert_eq!(reread, game.pieces);
    for piece in Piece::ALL {
        let cells = reread[piece as usize].0.count_ones();
        assert_eq!(cells, if piece == Piece::O { 6 } else { 5 });
    }
}

#[test]
fn solving_twice_gives_the_same_board() {
    let mut first = Game::for_date(1, 28);
    first.solve();
    let mut second = Game::for_date(1, 28);
    second.solve();
    assert!(first.all_pieces_placed());
    assert_eq!(first.pieces, second.pieces);
}

#[test]
fn solution_is_the_first_in_order() {
    let catalog = Catalog::new();
    let mut solved = Game::for_date(7, 14);
    solved.solve_with(&catalog);
    assert!(solved.all_pieces_placed());

    // No placement of the first piece that comes before the one found can be
    // completed, and the rest is what the search finds after the first piece.
    let found = solved.pieces[0];
    for position in Piece::C.positions() {
        let mut game = Game::for_date(7, 14);
        if !game.place(Piece::C, position) {
            continue;
        }
        game.next_piece_index = 1;
        game.solve_with(&catalog);
        if position < found {
            assert!(!game.all_pieces_placed());
            assert_eq!(game.pieces[0], position);
            assert_eq!(game.pieces[1..], [Mask::blank(); 7]);
            assert_eq!(game.next_piece_index, 1);
        } else {
            assert_eq!(position, found);
            assert_eq!(game.pieces, solved.pieces);
            break;
        }
    }
}

#[test]
fn search_without_a_way_leaves_the_game_as_it_was() {
    // With only the last piece left to lay, the board cannot be filled.
    let mut game = Game::for_date(6, 3);
    game.next_piece_index = 7;
    let date = game.date;
    let placed = game.placed;
    game.solve();
    assert!(!game.all_pieces_placed());
    assert_eq!(game.date, date);
    assert_eq!(game.placed, placed);
    assert_eq!(game.pieces, [Mask::blank(); 8]);
    assert_eq!(game.next_piece_index, 7);

    // Nothing is left to lay: the search does nothing.
    let mut done = Game::for_date(6, 3);
    done.next_piece_index = 8;
    done.solve();
    assert!(!done.all_pieces_placed());
    assert_eq!(done.placed, placed);
    assert_eq!(done.next_piece_index, 8);
}

#[test]
fn display_character_prefers_frame_then_date_then_piece() {
    let mut game = Game::for_date(0, 0);
    assert_eq!(game.display_character(0, 6), ' ');
    assert_eq!(game.display_character(7, 0), ' ');
    assert_eq!(game.display_character(0, 0), '•');
    assert_eq!(game.display_character(2, 0), '•');
    assert_eq!(game.display_character(0, 1), '-');
    assert!(game.place(Piece::Gamma, Mask(0x01_0107).translate(1, 0)));
    assert_eq!(game.display_character(0, 1), 'Γ');
    assert_eq!(game.display_character(2, 1), 'Γ');
    assert_eq!(game.display_character(1, 2), '-');

    // Where masks overlap, the frame wins over the date, the date over any
    // piece, and a piece with a lower index over one with a higher.
    let crowded = Game {
        date: Mask(0b0111),
        pieces: [
            Mask::blank(),
            Mask::blank(),
            Mask(0b1110).set(0, 6),
            Mask::blank(),
            Mask(0b1_1000),
            Mask::blank(),
            Mask::blank(),
            Mask::blank(),
        ],
        placed: Mask::frame(),
        next_piece_index: 0,
    };
    assert_eq!(crowded.display_character(0, 0), '•');
    assert_eq!(crowded.display_character(0, 2), '•');
    assert_eq!(crowded.display_character(0, 3), 'L');
    assert_eq!(crowded.display_character(0, 4), 'O');
    assert_eq!(crowded.display_character(0, 5), '-');
    assert_eq!(crowded.display_character(0, 6), ' ');
}

#[test]
fn render_of_a_new_game() {
    let game = Game::for_date(11, 24);
    let text: String = game.render().into_iter().collect();
    let expected = "------  \n-----•  \n------- \n------- \n------- \n---•--- \n---     \n        \n";
    assert_eq!(text, expected);
}

#[test]
fn solves_january() {
    solve_month(0, 31);
}

#[test]
fn solves_february() {
    solve_month(1, 29);
}

#[test]
fn solves_march() {
    solve_month(2, 31);
}

#[test]
fn solves_april() {
    solve_month(3, 30);
}

#[test]
fn solves_may() {
    solve_month(4, 31);
}

#[test]
fn solves_june() {
    solve_month(5, 30);
}

#[test]
fn solves_july() {
    solve_month(6, 31);
}

#[test]
fn solves_august() {
    solve_month(7, 31);
}

#[test]
fn solves_september() {
    solve_month(8, 30);
}

#[test]
fn solves_october() {
    solve_month(9, 31);
}

#[test]
fn solves_november() {
    solve_month(10, 30);
}

#[test]
fn solves_december() {
    solve_month(11, 31);
}
