use hive::{
    adjacent_to_opponent, ant_moves, bee_moves, beetle_moves, can_place, can_slide, connected_positions,
    flanking_positions, is_on_hive, legal_placements, neighbors, preserves_hive, spider_moves, Board, Move,
    Piece, PieceKind, Player, Position,
};
use proptest::strategy::{Strategy, ValueTree};
use proptest::test_runner::TestRunner;

fn render_moves(moves: &[Move]) -> String {
    // Draws a white ant on every destination
    let visualised = moves.iter().fold(Board::new(), |b, mov| match mov {
        Move::Move { to, .. } => b.place_piece(*to, Piece { kind: PieceKind::Ant, owner: Player::White }),
        Move::Place { at, .. } => b.place_piece(*at, Piece { kind: PieceKind::Ant, owner: Player::White }),
    });
    visualised.snapshot()
}

fn white_ants(positions: &[Position]) -> Board {
    positions.iter().fold(Board::new(), |board, &pos| {
        board.place_piece(pos, Piece { kind: PieceKind::Ant, owner: Player::White })
    })
}

#[test]
fn correct_neighbor_positions() {
    let board = neighbors(Position { q: 0, r: 0 })
        .into_iter()
        .fold(Board::new(), |board, pos| {
            board.place_piece(pos, Piece { kind: PieceKind::Ant, owner: Player::White })
        });

    let output = board.snapshot();

    assert_eq!(output, ". A A\n A . A\n  A A .");
}

#[test]
fn on_hive_requires_shared_neighbor() {
    let board = white_ants(&[
        Position { q: 1, r: 1 },
        Position { q: 0, r: 2 },
        Position { q: -1, r: 2 },
        Position { q: -1, r: 1 },
    ]);
    let moves = bee_moves(&Position { q: 0, r: 0 }, &board);
    let output = render_moves(&moves);

    assert_eq!(output, "A .\n . A");
}

#[test]
fn correct_bee_moves() {
    let board = white_ants(&[
        Position { q: 1, r: 0 },
        Position { q: 1, r: 1 },
        Position { q: 0, r: 2 },
        Position { q: -1, r: 2 },
        Position { q: -1, r: 1 },
    ]);
    let moves = bee_moves(&Position { q: 0, r: 0 }, &board);
    let output = render_moves(&moves);

    assert_eq!(output, ". . A\n A . .");
}

#[test]
fn correct_ant_moves() {
    let board = white_ants(&[
        Position { q: 1, r: 0 },
        Position { q: 1, r: 1 },
        Position { q: 0, r: 2 },
        Position { q: -1, r: 2 },
        Position { q: -1, r: 1 },
    ]);
    let moves = ant_moves(&Position { q: 0, r: 0 }, &board);
    let output = render_moves(&moves);

    assert_eq!(
        output,
        ". . . A A\n . A A . A\n  A . . . A\n   A . . A .\n    A A A . ."
    );
}

#[test]
fn correct_spider_moves() {
    let board = white_ants(&[
        Position { q: 1, r: 0 },
        Position { q: 1, r: 1 },
        Position { q: 0, r: 2 },
        Position { q: -1, r: 2 },
        Position { q: -1, r: 1 },
    ]);
    let moves = spider_moves(&Position { q: 0, r: 0 }, &board);
    let output = render_moves(&moves);

    assert_eq!(output, ". . . . A\n . . . . .\n  A . . . .");
}

#[test]
fn correct_beetle_moves() {
    let board = white_ants(&[
        Position { q: 0, r: 0 },
        Position { q: 1, r: 0 },
        Position { q: 1, r: 1 },
        Position { q: 0, r: 2 },
        Position { q: -1, r: 2 },
        Position { q: -1, r: 1 },
    ]);
    let moves = beetle_moves(&Position { q: 0, r: 0 }, &board);
    let output = render_moves(&moves);

    assert_eq!(output, ". . A\n A . A\n  A . .");
}

#[test]
fn complex_beetle_moves() {
    let board = white_ants(&[
        // Double stacked pieces
        Position { q: 0, r: 0 },
        Position { q: 0, r: 0 },
        Position { q: 1, r: 0 },
        Position { q: 1, r: 0 },
        Position { q: -1, r: 1 },
        Position { q: -1, r: 1 },
        // Single stacked pieces
        Position { q: -1, r: 0 },
        Position { q: 0, r: -1 },
        Position { q: 1, r: -1 },
    ]);
    let moves = beetle_moves(&Position { q: 0, r: 0 }, &board);
    let output = render_moves(&moves);

    assert_eq!(output, ". A A\n A . A\n  A . .");
}

#[test]
fn placing_only_with_no_enemy_neighbors() {
    let occupied_positions = vec![
        Position { q: 1, r: 0 },
        Position { q: 1, r: 1 },
        Position { q: 0, r: 2 },
        Position { q: -1, r: 2 },
        Position { q: -1, r: 1 },
    ];

    let board = occupied_positions.iter().enumerate().fold(Board::new(), |board, (index, &pos)| {
        board.place_piece(
            pos,
            Piece { kind: PieceKind::Ant, owner: if index % 2 == 0 { Player::White } else { Player::Black } },
        )
    });
    let placements = legal_placements(&board, Player::White)
        .into_iter()
        .map(|p| Move::Place { kind: PieceKind::Bee, at: p })
        .collect::<Vec<Move>>();
    let output = render_moves(&placements);

    assert_eq!(
        output,
        ". . . A A\n . A A . .\n  A . . . .\n   . . . . .\n    . . A . ."
    );
}

#[test]
fn legal_place_when_board_has_only_one_piece() {
    let board = Board::new().place_piece(Position { q: 0, r: 0 }, Piece { kind: PieceKind::Bee, owner: Player::White });
    let placements = legal_placements(&board, Player::Black)
        .into_iter()
        .map(|p| Move::Place { kind: PieceKind::Bee, at: p })
        .collect::<Vec<Move>>();
    let output = render_moves(&placements);

    assert_eq!(output, ". A A\n A . A\n  A A .");
}

#[test]
fn legal_place_when_board_is_empty() {
    let board = Board::new();
    let placements = legal_placements(&board, Player::White)
        .into_iter()
        .map(|p| Move::Place { kind: PieceKind::Bee, at: p })
        .collect::<Vec<Move>>();
    let output = render_moves(&placements);

    assert_eq!(output, "A");
}

#[test]
fn removing_a_bridge_piece_breaks_the_hive() {
    let board = Board::new()
        .place_piece(Position { q: 0, r: 0 }, Piece { kind: PieceKind::Ant, owner: Player::White })
        .place_piece(Position { q: 1, r: 0 }, Piece { kind: PieceKind::Ant, owner: Player::White })
        .place_piece(Position { q: 2, r: 0 }, Piece { kind: PieceKind::Ant, owner: Player::White });

    assert!(!preserves_hive(&board, Position { q: 1, r: 0 }));
    assert!(preserves_hive(&board, Position { q: 2, r: 0 }));
}

#[test]
fn cannot_slide_through_pinched_gap() {
    let board = Board::new()
        .place_piece(Position { q: 1, r: 0 }, Piece { kind: PieceKind::Ant, owner: Player::White })
        .place_piece(Position { q: -1, r: 1 }, Piece { kind: PieceKind::Ant, owner: Player::White });

    assert!(!can_slide(&board, Position { q: 0, r: 0 }, Position { q: 0, r: 1 }, 1));
}

/// Builds a board by `steps` placements, alternating players, each at a legal
/// placement picked by the generated choices.
fn arbitrary_board(steps: usize) -> impl Strategy<Value = Board> {
    proptest::collection::vec(proptest::arbitrary::any::<usize>(), steps).prop_map(move |choices| {
        choices.into_iter().enumerate().fold(Board::new(), |board, (step, choice)| {
            let player = if step % 2 == 0 { Player::White } else { Player::Black };
            let candidates: Vec<Position> = legal_placements(&board, player);

            if candidates.is_empty() {
                return board; // Nowhere is legal to place, skip this step rather than panic
            }

            let pos = candidates[choice % candidates.len()];
            board.place_piece(pos, Piece { kind: PieceKind::Ant, owner: player })
        })
    })
}

fn count_owned(board: &Board, owner: Player) -> usize {
    board
        .positions()
        .iter()
        .map(|p| board.stack_at(*p).unwrap().iter().filter(|piece| piece.owner == owner).count())
        .sum()
}

#[test]
fn generated_boards_have_balanced_piece_counts() {
    let mut runner = TestRunner::default();
    let steps = 10;

    let tree = arbitrary_board(steps).new_tree(&mut runner).unwrap();
    let board = tree.current();

    let white_count = count_owned(&board, Player::White);
    let black_count = count_owned(&board, Player::Black);

    assert_eq!(white_count + black_count, steps, "Every step should place exactly one piece");
    assert_eq!(white_count, black_count, "Even step count should split evenly between players");
}

#[test]
fn legal_place_have_no_enemy_neighbors() {
    let mut runner = TestRunner::default();
    let players = proptest::sample::select(vec![Player::White, Player::Black]);
    runner
        .run(&(arbitrary_board(8), players), |(board, player)| {
            let placements = legal_placements(&board, player);
            assert!(placements.iter().all(|&p| !adjacent_to_opponent(&board, p, player)));
            Ok(())
        })
        .unwrap();
}

#[test]
fn legal_placements_are_empty_cells_touching_the_hive() {
    let mut runner = TestRunner::default();
    runner
        .run(&arbitrary_board(6), |board| {
            for player in [Player::White, Player::Black] {
                for p in legal_placements(&board, player) {
                    assert!(board.stack_at(p).is_none());
                    assert!(is_on_hive(&board, p, None));
                    assert!(can_place(&board, p, player));
                }
            }
            Ok(())
        })
        .unwrap();
}

#[test]
fn flanking_cells_of_neighbours() {
    let mut flank = flanking_positions(Position { q: 0, r: 0 }, Position { q: 1, r: 0 });
    flank.sort_by_key(|p| (p.q, p.r));
    assert_eq!(flank, vec![Position { q: 0, r: 1 }, Position { q: 1, r: -1 }]);
    assert!(flanking_positions(Position { q: 0, r: 0 }, Position { q: 5, r: 5 }).is_empty());
}

#[test]
fn neighbors_come_in_fixed_order() {
    assert_eq!(
        neighbors(Position { q: 2, r: -3 }),
        vec![
            Position { q: 2, r: -2 },
            Position { q: 3, r: -4 },
            Position { q: 3, r: -3 },
            Position { q: 2, r: -4 },
            Position { q: 1, r: -2 },
            Position { q: 1, r: -3 },
        ]
    );
}

#[test]
fn connected_positions_follow_adjacent_cells() {
    let occupied = vec![
        Position { q: 1, r: 0 },
        Position { q: 2, r: 0 },
        Position { q: 5, r: 5 },
    ];
    let mut reached = connected_positions(&occupied, Position { q: 0, r: 0 });
    reached.sort_by_key(|p| (p.q, p.r));
    assert_eq!(reached, vec![Position { q: 0, r: 0 }, Position { q: 1, r: 0 }, Position { q: 2, r: 0 }]);
    let alone = connected_positions(&occupied, Position { q: 5, r: 5 });
    assert_eq!(alone, vec![Position { q: 5, r: 5 }]);
}

#[test]
fn ring_stays_connected_without_any_one_piece() {
    let ring = white_ants(&neighbors(Position { q: 0, r: 0 }));
    for p in neighbors(Position { q: 0, r: 0 }) {
        assert!(preserves_hive(&ring, p));
    }
    assert!(preserves_hive(&Board::new(), Position { q: 0, r: 0 }));
}

#[test]
fn no_moves_when_lifting_splits_the_hive() {
    let line = white_ants(&[Position { q: 0, r: 0 }, Position { q: 1, r: 0 }, Position { q: 2, r: 0 }]);
    let middle = Position { q: 1, r: 0 };
    assert!(bee_moves(&middle, &line).is_empty());
    assert!(ant_moves(&middle, &line).is_empty());
    assert!(spider_moves(&middle, &line).is_empty());
    assert!(beetle_moves(&middle, &line).is_empty());
}

#[test]
fn slide_needs_a_low_flanking_cell() {
    let board = Board::new()
        .place_piece(Position { q: 1, r: 0 }, Piece { kind: PieceKind::Ant, owner: Player::White })
        .place_piece(Position { q: -1, r: 1 }, Piece { kind: PieceKind::Ant, owner: Player::White });
    assert!(can_slide(&board, Position { q: 0, r: 0 }, Position { q: 0, r: 1 }, 2));
    assert!(can_slide(&board, Position { q: 0, r: 1 }, Position { q: 0, r: 0 }, 2));
    assert!(can_slide(&board, Position { q: 0, r: 0 }, Position { q: 1, r: -1 }, 1));
}

#[test]
fn placement_rule_on_a_crowded_board() {
    let board = Board::new()
        .place_piece(Position { q: 0, r: 0 }, Piece { kind: PieceKind::Bee, owner: Player::White })
        .place_piece(Position { q: 1, r: 0 }, Piece { kind: PieceKind::Bee, owner: Player::Black });
    assert!(!can_place(&board, Position { q: 0, r: 0 }, Player::White));
    assert!(!can_place(&board, Position { q: 5, r: 5 }, Player::White));
    assert!(!can_place(&board, Position { q: 0, r: 1 }, Player::White));
    assert!(can_place(&board, Position { q: -1, r: 0 }, Player::White));
    assert!(can_place(&Board::new(), Position { q: 7, r: 7 }, Player::Black));
    assert!(adjacent_to_opponent(&board, Position { q: 0, r: 1 }, Player::White));
    assert!(!adjacent_to_opponent(&board, Position { q: -1, r: 0 }, Player::White));
    assert!(is_on_hive(&board, Position { q: 0, r: 1 }, Some(Position { q: 0, r: 0 })));
    assert!(!is_on_hive(&board, Position { q: 0, r: 2 }, Some(Position { q: 0, r: 1 })));
}

#[test]
fn neighbours_are_mutual() {
    let centre = Position { q: -4, r: 7 };
    for n in neighbors(centre) {
        assert!(neighbors(n).contains(&centre));
        assert_ne!(n, centre);
    }
}

#[test]
fn a_move_changes_only_its_two_cells() {
    let board = white_ants(&[Position { q: 0, r: 0 }, Position { q: 1, r: 0 }, Position { q: 2, r: 0 }]);
    let moved = board.move_piece(Position { q: 2, r: 0 }, Position { q: 1, r: 1 });
    assert_eq!(moved.stack_at(Position { q: 0, r: 0 }).map(|s| s.len()), Some(1));
    assert_eq!(moved.stack_at(Position { q: 1, r: 0 }).map(|s| s.len()), Some(1));
    assert!(moved.stack_at(Position { q: 2, r: 0 }).is_none());
    assert_eq!(moved.stack_at(Position { q: 1, r: 1 }).map(|s| s.len()), Some(1));
}
