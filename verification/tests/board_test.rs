use hive::{Board, Piece, PieceKind, Player, Position};

fn piece(kind: PieceKind, owner: Player) -> Piece {
    Piece { kind, owner }
}

#[test]
fn places_three_pieces_staggered() {
    let board = Board::new()
        .place_piece(Position { q: 2, r: 0 }, piece(PieceKind::Spider, Player::White))
        .place_piece(Position { q: 0, r: 2 }, piece(PieceKind::Ant, Player::Black))
        .place_piece(Position { q: -1, r: 0 }, piece(PieceKind::Bee, Player::White));

    let to_string = board.snapshot();

    assert_eq!(to_string, "Q . . S\n . . . .\n  . a . .");
}

#[test]
fn correctly_removes_piece() {
    let board = Board::new()
        .place_piece(Position { q: 0, r: 0 }, piece(PieceKind::Spider, Player::White))
        .place_piece(Position { q: 1, r: 0 }, piece(PieceKind::Ant, Player::Black))
        .remove_piece(Position { q: 1, r: 0 });

    let to_string = board.snapshot();

    assert_eq!(to_string, "S");
}

#[test]
fn correctly_moves_piece() {
    let board = Board::new()
        .place_piece(Position { q: 0, r: 0 }, piece(PieceKind::Spider, Player::White))
        .place_piece(Position { q: 1, r: 0 }, piece(PieceKind::Ant, Player::Black))
        .move_piece(Position { q: 1, r: 0 }, Position { q: -1, r: 0 });

    let to_string = board.snapshot();

    assert_eq!(to_string, "a S");
}

#[test]
fn empty_board_has_empty_snapshot() {
    assert_eq!(Board::new().snapshot(), "");
    assert_eq!(Board::new().num_stacks(), 0);
}

#[test]
fn stacking_shows_the_top_piece() {
    let at = Position { q: 0, r: 0 };
    let board = Board::new()
        .place_piece(at, piece(PieceKind::Bee, Player::Black))
        .place_piece(at, piece(PieceKind::Beetle, Player::White));
    assert_eq!(board.snapshot(), "B");
    assert_eq!(board.num_stacks(), 1);
    assert_eq!(board.stack_at(at).unwrap().len(), 2);
    let lower = board.remove_piece(at);
    assert_eq!(lower.snapshot(), "q");
    assert_eq!(lower.stack_at(at).unwrap().len(), 1);
}

#[test]
fn removing_from_empty_cell_changes_nothing() {
    let board = Board::new().place_piece(Position { q: 3, r: -2 }, piece(PieceKind::Ant, Player::Black));
    let same = board.remove_piece(Position { q: 0, r: 0 });
    assert_eq!(same.snapshot(), board.snapshot());
    assert_eq!(same.positions(), vec![Position { q: 3, r: -2 }]);
}

#[test]
fn place_then_remove_restores_the_board() {
    let board = Board::new()
        .place_piece(Position { q: 0, r: 0 }, piece(PieceKind::Spider, Player::White))
        .place_piece(Position { q: 1, r: 0 }, piece(PieceKind::Ant, Player::Black));
    let again = board
        .place_piece(Position { q: 1, r: 0 }, piece(PieceKind::Beetle, Player::White))
        .remove_piece(Position { q: 1, r: 0 });
    assert_eq!(again.snapshot(), board.snapshot());
    let fresh = board.place_piece(Position { q: 5, r: 5 }, piece(PieceKind::Bee, Player::White))
        .remove_piece(Position { q: 5, r: 5 });
    assert_eq!(fresh.snapshot(), board.snapshot());
    assert_eq!(fresh.num_stacks(), 2);
}

#[test]
fn moving_back_restores_the_board() {
    let board = Board::new()
        .place_piece(Position { q: 0, r: 0 }, piece(PieceKind::Spider, Player::White))
        .place_piece(Position { q: 1, r: 0 }, piece(PieceKind::Ant, Player::Black));
    let moved = board.move_piece(Position { q: 1, r: 0 }, Position { q: 0, r: 1 });
    assert_eq!(moved.snapshot(), "S\n a");
    let back = moved.move_piece(Position { q: 0, r: 1 }, Position { q: 1, r: 0 });
    assert_eq!(back.snapshot(), board.snapshot());
}

#[test]
fn symbols_follow_kind_and_owner() {
    assert_eq!(hive::piece_symbol(&piece(PieceKind::Bee, Player::White)), 'Q');
    assert_eq!(hive::piece_symbol(&piece(PieceKind::Bee, Player::Black)), 'q');
    assert_eq!(hive::piece_symbol(&piece(PieceKind::Grasshopper, Player::White)), 'G');
    assert_eq!(hive::piece_symbol(&piece(PieceKind::Beetle, Player::Black)), 'b');
    assert_eq!(hive::piece_symbol(&piece(PieceKind::Spider, Player::Black)), 's');
    assert_eq!(hive::piece_symbol(&piece(PieceKind::Ant, Player::White)), 'A');
}
