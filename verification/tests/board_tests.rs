use w9l::board::Board;
use w9l::game_data::{GameState, MoveError, Player, WinCon};
use w9l::hex::Hex;

#[test]
fn new_board_is_empty_and_ongoing() {
    let b = Board::<3>::new();
    assert_eq!(b.radius(), 3);
    assert_eq!(b.turn_count(), 0);
    assert!(matches!(b.get_game_state(), GameState::Ongoing));
    let cells = b.cells();
    assert_eq!(cells.len(), 37);
    assert!(cells.iter().all(|(_, o)| o.is_none()));
    assert_eq!(b.empty_cells().len(), 37);
}

#[test]
fn cell_count_closed_form() {
    assert_eq!(w9l::grid::cell_count(1), 7);
    assert_eq!(w9l::grid::cell_count(2), 19);
    assert_eq!(w9l::grid::cell_count(3), 37);
    assert_eq!(w9l::grid::cell_count(4), 61);
    assert_eq!(Board::<1>::new().cells().len(), 7);
    assert_eq!(Board::<2>::new().cells().len(), 19);
}

#[test]
fn occupied_count_tracks_accepted_moves() {
    let mut b = Board::<3>::new();
    let moves = [(0i32, 0i32), (1, 0), (-1, 0), (2, -1), (0, 2), (-2, 0), (3, -2), (0, -2)];
    for (k, (x, y)) in moves.iter().enumerate() {
        let r = b.move_at_raw(Hex { x: *x, y: *y });
        assert!(matches!(r, Ok(GameState::Ongoing)));
        let occupied = b.cells().iter().filter(|(_, o)| o.is_some()).count();
        assert_eq!(occupied, k + 1);
        assert_eq!(b.turn_count(), k + 1);
        assert_eq!(b.empty_cells().len(), 37 - (k + 1));
    }
}

#[test]
fn rejected_moves_change_nothing() {
    let mut b = Board::<3>::new();
    assert!(b.move_at_raw(Hex { x: 0, y: 0 }).is_ok());
    let before: Vec<(Hex, Option<Player>)> = b.cells();
    let turn = b.turn_count();
    for _ in 0..3 {
        let r = b.move_at_raw(Hex { x: 0, y: 0 });
        assert_eq!(r, Err(MoveError::CellOccupied));
        let r2 = b.move_at_raw(Hex { x: 9, y: 9 });
        assert_eq!(r2, Err(MoveError::OutOfBounds));
        assert_eq!(b.cells(), before);
        assert_eq!(b.turn_count(), turn);
        assert!(matches!(b.get_game_state(), GameState::Ongoing));
    }
}

#[test]
fn ring_win_on_radius_three() {
    // Black surrounds the center cell with six stones; the sixth closes
    // the ring.
    let mut b = Board::<3>::new();
    let seq = [
        (0i32, -1i32),
        (0, -3),
        (-1, 0),
        (-2, 0),
        (-1, 1),
        (-2, 1),
        (0, 1),
        (-2, 2),
        (1, 0),
        (-3, 3),
    ];
    for (x, y) in seq {
        let r = b.move_at_raw(Hex { x, y });
        assert!(matches!(r, Ok(GameState::Ongoing)));
    }
    let last = b.move_at_raw(Hex { x: 1, y: -1 });
    assert_eq!(last, Ok(GameState::Win(Player::Black, WinCon::Ring)));
    assert_eq!(b.get_game_state(), GameState::Win(Player::Black, WinCon::Ring));
}

#[test]
fn loop_around_occupied_center_is_no_ring() {
    // The same six Black stones, but the first sits on the center: the
    // closed walk around them turns by 120 degrees twice and encloses
    // nothing, so no ring is detected.
    let mut b = Board::<3>::new();
    let seq = [
        (0i32, 0i32),
        (0, -3),
        (-1, 0),
        (-2, 0),
        (-1, 1),
        (-2, 1),
        (0, 1),
        (-2, 2),
        (1, 0),
        (-3, 3),
    ];
    for (x, y) in seq {
        assert!(b.move_at_raw(Hex { x, y }).is_ok());
    }
    let last = b.move_at_raw(Hex { x: 1, y: -1 });
    assert_eq!(last, Ok(GameState::Ongoing));
}

#[test]
fn bridge_win_connects_two_corners() {
    let mut b = Board::<3>::new();
    let seq = [
        (0i32, 0i32),
        (-1, 0),
        (-2, 0),
        (-1, 1),
        (-2, 1),
        (0, 1),
        (-2, 2),
        (1, 0),
        (-3, 3),
        (1, -1),
    ];
    for (x, y) in seq {
        assert!(matches!(b.move_at_raw(Hex { x, y }), Ok(GameState::Ongoing)));
    }
    // Black's column along the left side reaches its second corner.
    let last = b.move_at_raw(Hex { x: -3, y: 0 });
    assert_eq!(last, Ok(GameState::Win(Player::Black, WinCon::Bridge)));
}

#[test]
fn fork_win_connects_three_edges() {
    let mut b = Board::<3>::new();
    let black = [(-3i32, 2i32), (-2, 2), (-2, 3), (-3, 1), (-2, 0)];
    let white = [(1i32, 0i32), (0, 1), (1, -1), (2, 0), (0, 2)];
    for i in 0..5 {
        let (bx, by) = black[i];
        assert!(matches!(b.move_at_raw(Hex { x: bx, y: by }), Ok(GameState::Ongoing)));
        let (wx, wy) = white[i];
        assert!(matches!(b.move_at_raw(Hex { x: wx, y: wy }), Ok(GameState::Ongoing)));
    }
    let last = b.move_at_raw(Hex { x: -2, y: -1 });
    assert_eq!(last, Ok(GameState::Win(Player::Black, WinCon::Fork)));
}

#[test]
fn finished_game_rejects_further_moves() {
    let mut b = Board::<3>::new();
    let seq = [
        (0i32, 0i32),
        (-1, 0),
        (-2, 0),
        (-1, 1),
        (-2, 1),
        (0, 1),
        (-2, 2),
        (1, 0),
        (-3, 3),
        (1, -1),
        (-3, 0),
    ];
    for (x, y) in seq {
        assert!(b.move_at_raw(Hex { x, y }).is_ok());
    }
    assert!(matches!(b.get_game_state(), GameState::Win(Player::Black, WinCon::Bridge)));
    let turn = b.turn_count();
    assert_eq!(b.move_at_raw(Hex { x: 2, y: 0 }), Err(MoveError::GameOver));
    assert_eq!(b.move_at_raw(Hex { x: 9, y: 9 }), Err(MoveError::GameOver));
    assert_eq!(b.turn_count(), turn);
}

#[test]
fn full_board_without_win_is_a_draw() {
    // A filling of the radius-2 board in which no win condition ever
    // fires: the next-to-last move still reports the game ongoing, and
    // the last empty cell yields the draw, never an ongoing game.
    let mut b = Board::<2>::new();
    let seq = [
        (-2i32, 1i32),
        (1, -2),
        (0, 1),
        (-1, 0),
        (-1, 1),
        (1, 1),
        (2, -2),
        (-2, 0),
        (0, -2),
        (0, 2),
        (1, -1),
        (2, -1),
        (-1, -1),
        (0, -1),
        (0, 0),
        (-2, 2),
        (-1, 2),
        (1, 0),
    ];
    for (x, y) in seq {
        let r = b.move_at_raw(Hex { x, y });
        assert!(matches!(r, Ok(GameState::Ongoing)));
    }
    assert_eq!(b.empty_cells().len(), 1);
    let last = b.move_at_raw(Hex { x: 2, y: 0 });
    assert_eq!(last, Ok(GameState::Draw));
    assert_eq!(b.get_game_state(), GameState::Draw);
    assert_eq!(b.move_at_raw(Hex { x: 2, y: 0 }), Err(MoveError::GameOver));
}

#[test]
fn rank_and_file_name_the_cells() {
    let mut b = Board::<3>::new();
    // rank 'd', file 4 is the center of the radius-3 board
    assert!(b.move_at('d', 4).is_ok());
    assert_eq!(b.move_at_raw(Hex { x: 0, y: 0 }), Err(MoveError::CellOccupied));
    assert_eq!(b.move_at('z', 1), Err(MoveError::OutOfBounds));
    assert_eq!(b.move_at('a', 99), Err(MoveError::OutOfBounds));
    assert_eq!(b.move_at('a', 0), Err(MoveError::OutOfBounds));
}

#[test]
fn bridge_game_replayed_by_rank_and_file() {
    let mut b = Board::<3>::new();
    let moves = [
        ('d', 4),
        ('c', 3),
        ('b', 2),
        ('d', 3),
        ('c', 2),
        ('e', 4),
        ('d', 2),
        ('e', 5),
        ('d', 1),
        ('d', 5),
    ];
    for (rank, file) in moves {
        assert!(matches!(b.move_at(rank, file), Ok(GameState::Ongoing)));
    }
    assert_eq!(b.move_at('a', 1), Ok(GameState::Win(Player::Black, WinCon::Bridge)));
}

#[test]
fn empty_cells_lists_exactly_the_free_cells() {
    let mut b = Board::<2>::new();
    assert!(b.move_at_raw(Hex { x: 0, y: 0 }).is_ok());
    assert!(b.move_at_raw(Hex { x: 1, y: 0 }).is_ok());
    let empties = b.empty_cells();
    assert_eq!(empties.len(), 17);
    assert!(!empties.contains(&Hex { x: 0, y: 0 }));
    assert!(!empties.contains(&Hex { x: 1, y: 0 }));
    assert!(empties.contains(&Hex { x: 0, y: 1 }));
}

#[test]
fn players_alternate_starting_black() {
    let mut b = Board::<2>::new();
    assert!(b.move_at_raw(Hex { x: 0, y: 0 }).is_ok());
    assert!(b.move_at_raw(Hex { x: 1, y: 0 }).is_ok());
    let cells = b.cells();
    let owner_of = |x: i32, y: i32| {
        cells.iter().find(|(h, _)| *h == Hex { x, y }).unwrap().1
    };
    assert_eq!(owner_of(0, 0), Some(Player::Black));
    assert_eq!(owner_of(1, 0), Some(Player::White));
    assert_eq!(Player::Black.flip(), Player::White);
    assert_eq!(Player::White.flip(), Player::Black);
}
