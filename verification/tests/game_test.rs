use hive::{
    apply_move, initial_game_state, is_game_over, is_surrounded, legal_moves, neighbors, other_player, Board,
    GameResult, GameState, Move, Piece, PieceKind, Player, Position,
};

fn pos(q: i32, r: i32) -> Position {
    Position { q, r }
}

fn hand_of(state: &GameState, player: Player) -> Vec<(PieceKind, u8)> {
    state.unplaced.iter().find(|(p, _)| *p == player).unwrap().1.clone()
}

#[test]
fn new_game_starts_empty_with_full_hands() {
    let state = initial_game_state();
    assert_eq!(state.turn, Player::White);
    assert_eq!(state.turn_number, 1);
    assert_eq!(state.result, None);
    assert_eq!(state.board.num_stacks(), 0);
    let full = vec![
        (PieceKind::Bee, 1),
        (PieceKind::Ant, 3),
        (PieceKind::Beetle, 2),
        (PieceKind::Spider, 2),
        (PieceKind::Grasshopper, 3),
    ];
    assert_eq!(hand_of(&state, Player::White), full);
    assert_eq!(hand_of(&state, Player::Black), full);
}

#[test]
fn placing_takes_a_piece_from_the_hand_and_passes_the_turn() {
    let state = initial_game_state();
    let next = apply_move(&state, Move::Place { kind: PieceKind::Ant, at: pos(0, 0) });
    assert_eq!(next.turn, Player::Black);
    assert_eq!(next.turn_number, 2);
    assert_eq!(next.board.snapshot(), "A");
    assert_eq!(next.result, None);
    assert_eq!(
        hand_of(&next, Player::White),
        vec![
            (PieceKind::Bee, 1),
            (PieceKind::Ant, 2),
            (PieceKind::Beetle, 2),
            (PieceKind::Spider, 2),
            (PieceKind::Grasshopper, 3),
        ]
    );
    assert_eq!(hand_of(&next, Player::Black), hand_of(&state, Player::Black));
}

#[test]
fn last_piece_of_a_kind_leaves_the_hand() {
    let state = initial_game_state();
    let next = apply_move(&state, Move::Place { kind: PieceKind::Bee, at: pos(0, 0) });
    assert_eq!(
        hand_of(&next, Player::White),
        vec![(PieceKind::Ant, 3), (PieceKind::Beetle, 2), (PieceKind::Spider, 2), (PieceKind::Grasshopper, 3)]
    );
    assert_eq!(next.board.snapshot(), "Q");
}

#[test]
fn moving_keeps_the_hands() {
    let state = initial_game_state();
    let s1 = apply_move(&state, Move::Place { kind: PieceKind::Bee, at: pos(0, 0) });
    let s2 = apply_move(&s1, Move::Place { kind: PieceKind::Bee, at: pos(1, 0) });
    let s3 = apply_move(&s2, Move::Move { from: pos(0, 0), to: pos(0, 1) });
    assert_eq!(s3.turn, Player::Black);
    assert_eq!(s3.turn_number, 4);
    assert_eq!(s3.unplaced, s2.unplaced);
    assert_eq!(s3.board.snapshot(), ". q\n Q .");
}

#[test]
fn surrounding_a_bee_ends_the_game() {
    let mut board = Board::new().place_piece(pos(0, 0), Piece { kind: PieceKind::Bee, owner: Player::White });
    let around = neighbors(pos(0, 0));
    for p in &around[..5] {
        board = board.place_piece(*p, Piece { kind: PieceKind::Ant, owner: Player::Black });
    }
    assert!(!is_surrounded(&board, pos(0, 0)));
    assert_eq!(is_game_over(&board, around[4]), None);
    let closed = board.place_piece(around[5], Piece { kind: PieceKind::Ant, owner: Player::Black });
    assert!(is_surrounded(&closed, pos(0, 0)));
    assert_eq!(is_game_over(&closed, around[5]), Some(GameResult::Win(Player::Black)));
    // The landing cell itself is judged too.
    assert_eq!(is_game_over(&closed, pos(0, 0)), Some(GameResult::Win(Player::Black)));
}

#[test]
fn bee_placed_into_a_full_hole_is_trapped() {
    let mut board = Board::new();
    for p in neighbors(pos(0, 0)) {
        board = board.place_piece(p, Piece { kind: PieceKind::Ant, owner: Player::White });
    }
    let board = board.place_piece(pos(0, 0), Piece { kind: PieceKind::Bee, owner: Player::White });
    assert_eq!(is_game_over(&board, pos(0, 0)), Some(GameResult::Win(Player::Black)));
}

#[test]
fn both_bees_trapped_is_a_draw() {
    // Two bees side by side, each enclosed by ants; the last ant closes both.
    let mut board = Board::new()
        .place_piece(pos(0, 0), Piece { kind: PieceKind::Bee, owner: Player::White })
        .place_piece(pos(1, 0), Piece { kind: PieceKind::Bee, owner: Player::Black });
    let mut ring: Vec<Position> = Vec::new();
    for centre in [pos(0, 0), pos(1, 0)] {
        for p in neighbors(centre) {
            if p != pos(0, 0) && p != pos(1, 0) && !ring.contains(&p) {
                ring.push(p);
            }
        }
    }
    let last = pos(0, 1);
    for p in ring.iter().filter(|p| **p != last) {
        board = board.place_piece(*p, Piece { kind: PieceKind::Ant, owner: Player::White });
    }
    assert_eq!(is_game_over(&board, last), None);
    let closed = board.place_piece(last, Piece { kind: PieceKind::Ant, owner: Player::White });
    assert_eq!(is_game_over(&closed, last), Some(GameResult::Draw));
}

#[test]
fn trapping_the_black_bee_wins_for_white() {
    let state = GameState {
        board: Board::new().place_piece(pos(0, 0), Piece { kind: PieceKind::Bee, owner: Player::Black }),
        turn: Player::White,
        turn_number: 9,
        unplaced: vec![(Player::White, vec![(PieceKind::Ant, 6)]), (Player::Black, vec![])],
        result: None,
    };
    let mut s = state;
    let around = neighbors(pos(0, 0));
    for p in &around {
        s.turn = Player::White;
        s = apply_move(&s, Move::Place { kind: PieceKind::Ant, at: *p });
    }
    assert_eq!(s.result, Some(GameResult::Win(Player::White)));
    assert_eq!(hand_of(&s, Player::White), vec![]);
}

#[test]
fn nothing_moves_while_the_bee_is_in_hand() {
    let state = initial_game_state();
    let s1 = apply_move(&state, Move::Place { kind: PieceKind::Ant, at: pos(0, 0) });
    let s2 = apply_move(&s1, Move::Place { kind: PieceKind::Bee, at: pos(1, 0) });
    // White still holds its bee: the ant cannot move.
    assert!(legal_moves(&pos(0, 0), &s2).is_empty());
}

#[test]
fn only_own_pieces_move() {
    let state = initial_game_state();
    let s1 = apply_move(&state, Move::Place { kind: PieceKind::Bee, at: pos(0, 0) });
    let s2 = apply_move(&s1, Move::Place { kind: PieceKind::Bee, at: pos(1, 0) });
    // White to move: the black bee at (1, 0) is not White's, an empty cell has nothing.
    assert!(legal_moves(&pos(1, 0), &s2).is_empty());
    assert!(legal_moves(&pos(4, 4), &s2).is_empty());
    let mut moves = legal_moves(&pos(0, 0), &s2);
    moves.sort_by_key(|m| match m {
        Move::Move { to, .. } => (to.q, to.r),
        Move::Place { at, .. } => (at.q, at.r),
    });
    assert_eq!(
        moves,
        vec![Move::Move { from: pos(0, 0), to: pos(0, 1) }, Move::Move { from: pos(0, 0), to: pos(1, -1) }]
    );
}

#[test]
fn grasshoppers_have_no_moves() {
    let state = initial_game_state();
    let s1 = apply_move(&state, Move::Place { kind: PieceKind::Bee, at: pos(0, 0) });
    let s2 = apply_move(&s1, Move::Place { kind: PieceKind::Bee, at: pos(1, 0) });
    let s3 = apply_move(&s2, Move::Place { kind: PieceKind::Grasshopper, at: pos(-1, 0) });
    let s4 = apply_move(&s3, Move::Place { kind: PieceKind::Ant, at: pos(2, 0) });
    assert!(legal_moves(&pos(-1, 0), &s4).is_empty());
    assert_eq!(s4.turn, Player::White);
}

#[test]
fn turns_alternate() {
    assert_eq!(other_player(Player::White), Player::Black);
    assert_eq!(other_player(Player::Black), Player::White);
}

fn total_of(state: &GameState, owner: Player, kind: PieceKind) -> usize {
    let on_board: usize = state
        .board
        .positions()
        .iter()
        .map(|p| state.board.stack_at(*p).unwrap().iter().filter(|x| x.owner == owner && x.kind == kind).count())
        .sum();
    let in_hand: usize = hand_of(state, owner).iter().filter(|(k, _)| *k == kind).map(|(_, c)| *c as usize).sum();
    on_board + in_hand
}

#[test]
fn moves_neither_create_nor_lose_pieces() {
    let s0 = initial_game_state();
    let s1 = apply_move(&s0, Move::Place { kind: PieceKind::Bee, at: pos(0, 0) });
    let s2 = apply_move(&s1, Move::Place { kind: PieceKind::Beetle, at: pos(1, 0) });
    let s3 = apply_move(&s2, Move::Place { kind: PieceKind::Ant, at: pos(-1, 0) });
    let s4 = apply_move(&s3, Move::Move { from: pos(1, 0), to: pos(0, 0) });
    for owner in [Player::White, Player::Black] {
        for kind in [PieceKind::Bee, PieceKind::Ant, PieceKind::Beetle, PieceKind::Spider, PieceKind::Grasshopper] {
            let start = total_of(&s0, owner, kind);
            for s in [&s1, &s2, &s3, &s4] {
                assert_eq!(total_of(s, owner, kind), start);
            }
        }
    }
    assert_eq!(s4.board.snapshot(), "A b");
}
