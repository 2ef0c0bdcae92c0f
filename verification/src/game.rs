//! The state of a game and how a move changes it.

use vstd::prelude::*;
use crate::types::{GameResult, Move, Piece, PieceKind, Player, Position, spec_other, other_player};
use crate::hex::{within, spec_neighbors, neighbors, lemma_neighbor_within, lemma_neighbors_are_adjacent};
use crate::board::{Board, spec_place, spec_move};
use crate::rules::{occupied, is_occupied};

verus! {

/// A player's hand: how many pieces of each kind are still to be placed.
pub type Hand = Vec<(PieceKind, u8)>;

/// Everything that decides how a game goes on.
#[derive(Clone, Debug)]
pub struct GameState {
    pub board: Board,
    pub turn: Player,
    pub turn_number: u32,
    pub unplaced: Vec<(Player, Hand)>,
    pub result: Option<GameResult>,
}

/// No kind is listed twice in a hand.
pub open spec fn kinds_distinct(h: Seq<(PieceKind, u8)>) -> bool {
    forall|a: int, b: int| #![trigger h[a], h[b]] 0 <= a < h.len() && 0 <= b < h.len() && a != b ==> h[a].0 != h[b].0
}

/// Each player has at most one hand, and no hand lists a kind twice.
pub open spec fn hands_wf(hands: Seq<(Player, Seq<(PieceKind, u8)>)>) -> bool {
    &&& forall|i: int, j: int| #![trigger hands[i], hands[j]] 0 <= i < hands.len() && 0 <= j < hands.len() && i != j
        ==> hands[i].0 != hands[j].0
    &&& forall|i: int| 0 <= i < hands.len() ==> kinds_distinct(#[trigger] hands[i].1)
}

impl GameState {
    /// The hands hold one entry per player and one count per kind.
    pub open spec fn well_formed(&self) -> bool {
        hands_wf(hands_view(self.unplaced@))
    }
}

/// The hands as plain sequences.
pub open spec fn hands_view(u: Seq<(Player, Hand)>) -> Seq<(Player, Seq<(PieceKind, u8)>)> {
    u.map_values(|e: (Player, Hand)| (e.0, e.1@))
}

/// One piece of `kind` taken from an entry of a hand.
pub open spec fn decrement(kind: PieceKind) -> spec_fn((PieceKind, u8)) -> (PieceKind, u8) {
    |e: (PieceKind, u8)| if e.0 == kind { (e.0, (e.1 - 1) as u8) } else { e }
}

/// An entry stays in a hand unless it is of `kind` and its count is zero.
pub open spec fn keeps(kind: PieceKind) -> spec_fn((PieceKind, u8)) -> bool {
    |e: (PieceKind, u8)| e.0 != kind || e.1 > 0
}

/// A hand after one piece of `kind` leaves it: its count drops by one, and a
/// kind whose count reaches zero leaves the hand.
pub open spec fn take_from_hand(hand: Seq<(PieceKind, u8)>, kind: PieceKind) -> Seq<(PieceKind, u8)> {
    hand.map_values(decrement(kind)).filter(keeps(kind))
}

/// The hands after `player` takes one piece of `kind` from their hand.
pub open spec fn take_from_hands(hands: Seq<(Player, Seq<(PieceKind, u8)>)>, player: Player, kind: PieceKind)
    -> Seq<(Player, Seq<(PieceKind, u8)>)> {
    hands.map_values(|e: (Player, Seq<(PieceKind, u8)>)| if e.0 == player { (e.0, take_from_hand(e.1, kind)) } else { e })
}

/// Taking a piece of `kind` from `player`'s hand needs a positive count for it.
pub open spec fn can_take(hands: Seq<(Player, Seq<(PieceKind, u8)>)>, player: Player, kind: PieceKind) -> bool {
    forall|i: int, j: int| 0 <= i < hands.len() && hands[i].0 == player && 0 <= j < hands[i].1.len()
        && #[trigger] hands[i].1[j].0 == kind ==> hands[i].1[j].1 > 0
}

/// Every neighbour of `p` is occupied.
pub open spec fn surrounded(m: Map<Position, Seq<Piece>>, p: Position) -> bool {
    forall|n: Position| #[trigger] spec_neighbors(p).contains(n) ==> occupied(m, n)
}

/// The bee of `player`.
pub open spec fn bee_of(player: Player) -> Piece {
    Piece { kind: PieceKind::Bee, owner: player }
}

/// The cells judged after a piece lands at `pos`: its neighbours, then `pos` itself.
pub open spec fn candidate_cells(pos: Position) -> Seq<Position> {
    spec_neighbors(pos).push(pos)
}

/// The landing cell `pos` or one of its neighbours is surrounded and holds the
/// bee of `player` in its stack.
pub open spec fn bee_trapped_near(m: Map<Position, Seq<Piece>>, pos: Position, player: Player) -> bool {
    exists|n: Position| #[trigger] candidate_cells(pos).contains(n) && trapped_at(m, n, player)
}

/// The outcome after a piece lands at `pos`: a draw when both bees next to it
/// are trapped, a win for the other player when one is, nothing otherwise.
pub open spec fn spec_game_over(m: Map<Position, Seq<Piece>>, pos: Position) -> Option<GameResult> {
    let white = bee_trapped_near(m, pos, Player::White);
    let black = bee_trapped_near(m, pos, Player::Black);
    if white && black {
        Some(GameResult::Draw)
    } else if white {
        Some(GameResult::Win(Player::Black))
    } else if black {
        Some(GameResult::Win(Player::White))
    } else {
        None
    }
}

/// The cell a move puts a piece on.
pub open spec fn landing(mv: Move) -> Position {
    match mv {
        Move::Place { at, .. } => at,
        Move::Move { to, .. } => to,
    }
}

/// The board after `mv`, played by `player`.
pub open spec fn board_after(m: Map<Position, Seq<Piece>>, player: Player, mv: Move) -> Map<Position, Seq<Piece>> {
    match mv {
        Move::Place { kind, at } => spec_place(m, at, Piece { kind, owner: player }),
        Move::Move { from, to } => spec_move(m, from, to),
    }
}

/// The hands after `mv`, played by `player`.
pub open spec fn hands_after(hands: Seq<(Player, Seq<(PieceKind, u8)>)>, player: Player, mv: Move)
    -> Seq<(Player, Seq<(PieceKind, u8)>)> {
    match mv {
        Move::Place { kind, .. } => take_from_hands(hands, player, kind),
        Move::Move { .. } => hands,
    }
}

/// The hand each player starts with.
pub open spec fn starting_hand() -> Seq<(PieceKind, u8)> {
    seq![
        (PieceKind::Bee, 1u8),
        (PieceKind::Ant, 3u8),
        (PieceKind::Beetle, 2u8),
        (PieceKind::Spider, 2u8),
        (PieceKind::Grasshopper, 3u8),
    ]
}

/// Whether every neighbour of `pos` is occupied.
pub fn is_surrounded(board: &Board, pos: Position) -> (res: bool)
    requires
        within(pos, 1),
    ensures
        res == surrounded(board@, pos),
{
    let ns = neighbors(pos);
    proof { lemma_neighbors_are_adjacent(pos); }
    let mut count: usize = 0;
    let mut j: usize = 0;
    while j < ns.len()
        invariant
            ns@ == spec_neighbors(pos),
            ns@.len() == 6,
            j <= ns@.len(),
            count <= j,
            count == j <==> forall|k: int| 0 <= k < j ==> occupied(board@, #[trigger] ns@[k]),
        decreases ns@.len() - j,
    {
        if is_occupied(ns[j], board) {
            count = count + 1;
        }
        j = j + 1;
    }
    proof {
        assert((forall|k: int| 0 <= k < 6 ==> occupied(board@, #[trigger] ns@[k])) <==> surrounded(board@, pos)) by {
            if forall|k: int| 0 <= k < 6 ==> occupied(board@, #[trigger] ns@[k]) {
                assert forall|n: Position| #[trigger] spec_neighbors(pos).contains(n) implies occupied(board@, n) by {
                    let k = choose|k: int| 0 <= k < 6 && ns@[k] == n;
                }
            }
            if surrounded(board@, pos) {
                assert forall|k: int| 0 <= k < 6 implies occupied(board@, #[trigger] ns@[k]) by {
                    assert(spec_neighbors(pos).contains(ns@[k]));
                }
            }
        }
    }
    count == 6
}

/// The outcome after a piece lands at `pos`, judged from the bees in the
/// stacks on `pos` and its neighbours that are surrounded.
pub fn is_game_over(board: &Board, pos: Position) -> (res: Option<GameResult>)
    requires
        within(pos, 2),
    ensures
        res == spec_game_over(board@, pos),
{
    let mut ns = neighbors(pos);
    ns.push(pos);
    let mut white = false;
    let mut black = false;
    let mut j: usize = 0;
    while j < ns.len()
        invariant
            within(pos, 2),
            ns@ == candidate_cells(pos),
            j <= ns@.len(),
            white <==> exists|k: int| 0 <= k < j && #[trigger] trapped_at(board@, ns@[k], Player::White),
            black <==> exists|k: int| 0 <= k < j && #[trigger] trapped_at(board@, ns@[k], Player::Black),
        decreases ns@.len() - j,
    {
        let n = ns[j];
        let ghost wj = white;
        let ghost bj = black;
        proof {
            if j < 6 {
                assert(ns@[j as int] == spec_neighbors(pos)[j as int]);
                assert(spec_neighbors(pos).contains(n));
                lemma_neighbor_within(pos, n, 1);
            } else {
                assert(n == pos);
            }
        }
        if is_surrounded(board, n) {
            match board.stack_at(n) {
                Some(stack) => {
                    let mut i: usize = 0;
                    let ghost w0 = white;
                    let ghost b0 = black;
                    while i < stack.len()
                        invariant
                            i <= stack@.len(),
                            white <==> w0 || exists|t: int| 0 <= t < i && stack@[t] == bee_of(Player::White),
                            black <==> b0 || exists|t: int| 0 <= t < i && stack@[t] == bee_of(Player::Black),
                        decreases stack@.len() - i,
                    {
                        let piece = stack[i];
                        if piece.kind == PieceKind::Bee {
                            if piece.owner == Player::White {
                                white = true;
                            } else {
                                black = true;
                            }
                        }
                        i = i + 1;
                    }
                    proof {
                        assert(stack@.contains(bee_of(Player::White)) <==>
                            exists|t: int| 0 <= t < stack@.len() && stack@[t] == bee_of(Player::White));
                        assert(stack@.contains(bee_of(Player::Black)) <==>
                            exists|t: int| 0 <= t < stack@.len() && stack@[t] == bee_of(Player::Black));
                    }
                },
                None => {},
            }
        }
        proof {
            assert(white <==> wj || trapped_at(board@, n, Player::White));
            assert(black <==> bj || trapped_at(board@, n, Player::Black));
            if trapped_at(board@, n, Player::White) {
                assert(trapped_at(board@, ns@[j as int], Player::White));
            }
            if trapped_at(board@, n, Player::Black) {
                assert(trapped_at(board@, ns@[j as int], Player::Black));
            }
            assert(white <==> exists|k: int| 0 <= k < j + 1 && #[trigger] trapped_at(board@, ns@[k], Player::White));
            assert(black <==> exists|k: int| 0 <= k < j + 1 && #[trigger] trapped_at(board@, ns@[k], Player::Black));
        }
        j = j + 1;
    }
    proof {
        assert forall|pl: Player| bee_trapped_near(board@, pos, pl) <==>
            exists|k: int| 0 <= k < 7 && #[trigger] trapped_at(board@, ns@[k], pl) by {
            if bee_trapped_near(board@, pos, pl) {
                let n = choose|n: Position| #[trigger] candidate_cells(pos).contains(n) && trapped_at(board@, n, pl);
                let k = choose|k: int| 0 <= k < 7 && ns@[k] == n;
                assert(trapped_at(board@, ns@[k], pl));
            }
            if exists|k: int| 0 <= k < 7 && #[trigger] trapped_at(board@, ns@[k], pl) {
                let k = choose|k: int| 0 <= k < 7 && #[trigger] trapped_at(board@, ns@[k], pl);
                assert(candidate_cells(pos).contains(ns@[k]));
            }
        }
    }
    if white && black {
        Some(GameResult::Draw)
    } else if white {
        Some(GameResult::Win(Player::Black))
    } else if black {
        Some(GameResult::Win(Player::White))
    } else {
        None
    }
}

/// A fresh copy of a hand.
fn copy_hand(h: &Hand) -> (res: Hand)
    ensures
        res@ == h@,
{
    let mut res: Hand = Vec::new();
    let mut i: usize = 0;
    while i < h.len()
        invariant
            i <= h@.len(),
            res@ == h@.take(i as int),
        decreases h@.len() - i,
    {
        res.push(h[i]);
        assert(h@.take(i + 1) =~= h@.take(i as int).push(h@[i as int]));
        i = i + 1;
    }
    assert(h@.take(h@.len() as int) =~= h@);
    res
}

/// The hand after one piece of `kind` leaves it.
fn take_one(h: &Hand, kind: PieceKind) -> (res: Hand)
    requires
        forall|j: int| 0 <= j < h@.len() && #[trigger] h@[j].0 == kind ==> h@[j].1 > 0,
    ensures
        res@ == take_from_hand(h@, kind),
{
    let ghost mapped = h@.map_values(decrement(kind));
    let mut res: Hand = Vec::new();
    let mut i: usize = 0;
    while i < h.len()
        invariant
            forall|j: int| 0 <= j < h@.len() && #[trigger] h@[j].0 == kind ==> h@[j].1 > 0,
            mapped == h@.map_values(decrement(kind)),
            i <= h@.len(),
            res@ == mapped.take(i as int).filter(keeps(kind)),
        decreases h@.len() - i,
    {
        let (k, c) = h[i];
        proof {
            mapped.take(i as int).lemma_filter_push(mapped[i as int], keeps(kind));
            assert(mapped.take(i + 1) =~= mapped.take(i as int).push(mapped[i as int]));
        }
        if k == kind {
            let left = c - 1;
            if left > 0 {
                res.push((k, left));
            }
        } else {
            res.push((k, c));
        }
        i = i + 1;
    }
    assert(mapped.take(h@.len() as int) =~= mapped);
    res
}

/// The hands after `player` takes a piece of `kind`, or unchanged copies.
fn hands_after_exec(u: &Vec<(Player, Hand)>, player: Player, kind: Option<PieceKind>) -> (res: Vec<(Player, Hand)>)
    requires
        kind matches Some(k) ==> can_take(hands_view(u@), player, k),
    ensures
        hands_view(res@) == match kind {
            Some(k) => take_from_hands(hands_view(u@), player, k),
            None => hands_view(u@),
        },
{
    let ghost target = match kind {
        Some(k) => take_from_hands(hands_view(u@), player, k),
        None => hands_view(u@),
    };
    let mut res: Vec<(Player, Hand)> = Vec::new();
    let mut i: usize = 0;
    while i < u.len()
        invariant
            kind matches Some(k) ==> can_take(hands_view(u@), player, k),
            target == match kind {
                Some(k) => take_from_hands(hands_view(u@), player, k),
                None => hands_view(u@),
            },
            i <= u@.len(),
            res@.len() == i,
            forall|t: int| 0 <= t < i ==> #[trigger] hands_view(res@)[t] == target[t],
        decreases u@.len() - i,
    {
        let pl = u[i].0;
        let h = match kind {
            Some(k) => {
                if pl == player {
                    proof {
                        assert forall|j: int| 0 <= j < u@[i as int].1@.len() && #[trigger] u@[i as int].1@[j].0 == k
                            implies u@[i as int].1@[j].1 > 0 by {
                            assert(hands_view(u@)[i as int].1[j] == u@[i as int].1@[j]);
                        }
                    }
                    take_one(&u[i].1, k)
                } else {
                    copy_hand(&u[i].1)
                }
            },
            None => copy_hand(&u[i].1),
        };
        let ghost prev = res@;
        res.push((pl, h));
        proof {
            assert forall|t: int| 0 <= t < i + 1 implies #[trigger] hands_view(res@)[t] == target[t] by {
                if t < i {
                    assert(res@[t] == prev[t]);
                    assert(hands_view(prev)[t] == target[t]);
                }
            }
        }
        i = i + 1;
    }
    assert(hands_view(res@) =~= target);
    res
}

/// The hand each player starts with.
fn new_hand() -> (res: Hand)
    ensures
        res@ == starting_hand(),
{
    let mut res: Hand = Vec::new();
    res.push((PieceKind::Bee, 1));
    res.push((PieceKind::Ant, 3));
    res.push((PieceKind::Beetle, 2));
    res.push((PieceKind::Spider, 2));
    res.push((PieceKind::Grasshopper, 3));
    assert(res@ =~= starting_hand());
    res
}

/// The state before the first move: an empty board, White to move on turn 1,
/// and both players holding the full set of pieces.
pub fn initial_game_state() -> (res: GameState)
    ensures
        res.board@ == Map::<Position, Seq<Piece>>::empty(),
        res.turn == Player::White,
        res.turn_number == 1,
        hands_view(res.unplaced@) == seq![(Player::White, starting_hand()), (Player::Black, starting_hand())],
        res.result == None::<GameResult>,
        res.well_formed(),
{
    let mut unplaced: Vec<(Player, Hand)> = Vec::new();
    unplaced.push((Player::White, new_hand()));
    unplaced.push((Player::Black, new_hand()));
    let res = GameState {
        board: Board::new(),
        turn: Player::White,
        turn_number: 1,
        unplaced,
        result: None,
    };
    assert(hands_view(res.unplaced@) =~= seq![(Player::White, starting_hand()), (Player::Black, starting_hand())]);
    res
}

/// The state after the player to move plays `mv`: the board changes, a placed
/// piece leaves the player's hand, the other player is to move, the turn count
/// grows by one, and the outcome is judged around the cell the piece landed on.
pub fn apply_move(state: &GameState, mv: Move) -> (res: GameState)
    requires
        mv matches Move::Move { from, .. } ==> occupied(state.board@, from),
        mv matches Move::Place { kind, .. } ==> can_take(hands_view(state.unplaced@), state.turn, kind),
        within(landing(mv), 2),
        state.turn_number < u32::MAX,
        state.well_formed(),
    ensures
        res.well_formed(),
        res.board@ == board_after(state.board@, state.turn, mv),
        res.turn == spec_other(state.turn),
        res.turn_number == state.turn_number + 1,
        hands_view(res.unplaced@) == hands_after(hands_view(state.unplaced@), state.turn, mv),
        res.result == spec_game_over(res.board@, landing(mv)),
{
    let new_board = match mv {
        Move::Place { kind, at } => state.board.place_piece(at, Piece { kind, owner: state.turn }),
        Move::Move { from, to } => state.board.move_piece(from, to),
    };
    let affected_position = match mv {
        Move::Place { at, .. } => at,
        Move::Move { to, .. } => to,
    };
    let new_unplaced = match mv {
        Move::Place { kind, .. } => hands_after_exec(&state.unplaced, state.turn, Some(kind)),
        Move::Move { .. } => hands_after_exec(&state.unplaced, state.turn, None),
    };
    let result = is_game_over(&new_board, affected_position);
    proof {
        match mv {
            Move::Place { kind, .. } => {
                crate::census::lemma_take_keeps_hands_wf(hands_view(state.unplaced@), state.turn, kind);
            },
            Move::Move { .. } => {},
        }
    }
    GameState {
        board: new_board,
        turn: other_player(state.turn),
        turn_number: state.turn_number + 1,
        unplaced: new_unplaced,
        result,
    }
}

/// The cell `n` is surrounded and holds the bee of `player`.
pub open spec fn trapped_at(m: Map<Position, Seq<Piece>>, n: Position, player: Player) -> bool {
    surrounded(m, n) && occupied(m, n) && m[n].contains(bee_of(player))
}

} // verus!
