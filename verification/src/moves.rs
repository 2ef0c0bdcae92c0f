//! How each kind of piece moves.

use vstd::prelude::*;
use crate::types::{Move, Piece, PieceKind, Player, Position};
use crate::game::{GameState, Hand, hands_view};
use crate::hex::{within, spec_neighbors, neighbors, lemma_neighbors_are_adjacent, lemma_neighbor_within};
use crate::board::Board;
use crate::reach::{hive_connected, reachable, lemma_reach_refl, lemma_reach_extend,
    lemma_closed_contains_reachable, lemma_distinct_bound};
use crate::hex::{adjacent, contains_position, lemma_push_contains, lemma_push_no_duplicates};
use crate::rules::{occupied, height, board_within, spec_on_hive, spec_can_slide, is_occupied,
    is_on_hive, can_slide, stack_height, preserves_hive};

verus! {

/// A piece on the ground crawls from `a` to the empty cell `c` next to it,
/// keeping contact with the hive and passing through the gap between them.
pub open spec fn crawl(m: Map<Position, Seq<crate::types::Piece>>) -> spec_fn(Position, Position) -> bool {
    |a: Position, c: Position| !occupied(m, c) && spec_on_hive(m, c, Some(a)) && spec_can_slide(m, a, c, 1)
}

/// The move of the piece at `from` to `to`.
pub open spec fn step_move(from: Position, to: Position) -> Move {
    Move::Move { from, to }
}

/// The moves of the piece at `from` to each cell of `dests`, in order.
pub open spec fn moves_to(from: Position, dests: Seq<Position>) -> Seq<Move> {
    dests.map_values(|c: Position| step_move(from, c))
}

/// Where the bee at `pos` may go: the neighbours it can crawl to, in
/// neighbour order.
pub open spec fn bee_dests(m: Map<Position, Seq<crate::types::Piece>>, pos: Position) -> Seq<Position> {
    spec_neighbors(pos).filter(|c: Position| crawl(m)(pos, c))
}

/// The beetle at `pos` may go to a neighbour that touches the hive or holds a
/// stack, and only through a gap that is lower than the beetle or onto a stack
/// at least as high as its own.
pub open spec fn beetle_target(m: Map<Position, Seq<crate::types::Piece>>, pos: Position, p: Position) -> bool {
    &&& (spec_on_hive(m, p, Some(pos)) || occupied(m, p))
    &&& (spec_can_slide(m, p, pos, height(m, pos) as int) || height(m, p) >= height(m, pos))
}

/// Where the beetle at `pos` may go, in neighbour order.
pub open spec fn beetle_dests(m: Map<Position, Seq<crate::types::Piece>>, pos: Position) -> Seq<Position> {
    spec_neighbors(pos).filter(|p: Position| beetle_target(m, pos, p))
}

/// Whether a piece on the ground can crawl from `from` to `to`.
fn can_crawl(board: &Board, from: Position, to: Position) -> (res: bool)
    requires
        within(from, 1),
        within(to, 1),
    ensures
        res == crawl(board@)(from, to),
{
    !is_occupied(to, board) && is_on_hive(board, to, Some(from)) && can_slide(board, from, to, 1)
}

/// The moves of the bee at `pos`: none when lifting it splits the hive,
/// otherwise one step to each neighbour it can crawl to, in neighbour order.
pub fn bee_moves(pos: &Position, board: &Board) -> (res: Vec<Move>)
    requires
        within(*pos, 2),
        board_within(board@, 1),
    ensures
        res@ == if hive_connected(board@.dom().remove(*pos)) {
            moves_to(*pos, bee_dests(board@, *pos))
        } else {
            Seq::<Move>::empty()
        },
{
    if !preserves_hive(board, *pos) {
        return Vec::new();
    }
    let ns = neighbors(*pos);
    let ghost pred = |c: Position| crawl(board@)(*pos, c);
    let mut res: Vec<Move> = Vec::new();
    let mut j: usize = 0;
    while j < ns.len()
        invariant
            within(*pos, 2),
            ns@ == spec_neighbors(*pos),
            pred == (|c: Position| crawl(board@)(*pos, c)),
            j <= ns@.len(),
            res@ == moves_to(*pos, ns@.take(j as int).filter(pred)),
        decreases ns@.len() - j,
    {
        let c = ns[j];
        proof {
            assert(spec_neighbors(*pos).contains(c));
            lemma_neighbor_within(*pos, c, 1);
            ns@.take(j as int).lemma_filter_push(c, pred);
            assert(ns@.take(j + 1) =~= ns@.take(j as int).push(c));
        }
        if can_crawl(board, *pos, c) {
            res.push(Move::Move { from: *pos, to: c });
        }
        proof {
            assert(res@ =~= moves_to(*pos, ns@.take(j + 1).filter(pred)));
        }
        j = j + 1;
    }
    proof {
        assert(ns@.take(ns@.len() as int) =~= ns@);
    }
    res
}

/// The moves of the beetle at `pos`: none when it stands on the ground and
/// lifting it splits the hive, otherwise one step to each neighbour allowed
/// by `beetle_target`, in neighbour order.
pub fn beetle_moves(pos: &Position, board: &Board) -> (res: Vec<Move>)
    requires
        within(*pos, 2),
        board_within(board@, 1),
    ensures
        res@ == if height(board@, *pos) == 1 && !hive_connected(board@.dom().remove(*pos)) {
            Seq::<Move>::empty()
        } else {
            moves_to(*pos, beetle_dests(board@, *pos))
        },
{
    let h = stack_height(board, pos);
    if h == 1 && !preserves_hive(board, *pos) {
        return Vec::new();
    }
    let ns = neighbors(*pos);
    let ghost pred = |p: Position| beetle_target(board@, *pos, p);
    let mut res: Vec<Move> = Vec::new();
    let mut j: usize = 0;
    while j < ns.len()
        invariant
            within(*pos, 2),
            h == height(board@, *pos),
            ns@ == spec_neighbors(*pos),
            pred == (|p: Position| beetle_target(board@, *pos, p)),
            j <= ns@.len(),
            res@ == moves_to(*pos, ns@.take(j as int).filter(pred)),
        decreases ns@.len() - j,
    {
        let p = ns[j];
        proof {
            assert(spec_neighbors(*pos).contains(p));
            lemma_neighbor_within(*pos, p, 1);
            ns@.take(j as int).lemma_filter_push(p, pred);
            assert(ns@.take(j + 1) =~= ns@.take(j as int).push(p));
        }
        if (is_on_hive(board, p, Some(*pos)) || is_occupied(p, board))
            && (can_slide(board, p, *pos, h) || stack_height(board, &p) >= h) {
            res.push(Move::Move { from: *pos, to: p });
        }
        proof {
            assert(res@ =~= moves_to(*pos, ns@.take(j + 1).filter(pred)));
        }
        j = j + 1;
    }
    proof {
        assert(ns@.take(ns@.len() as int) =~= ns@);
    }
    res
}

/// The neighbours of the cells of `keys`, in order, with repetitions.
spec fn ring(keys: Seq<Position>) -> Seq<Position>
    decreases keys.len(),
{
    if keys.len() == 0 {
        Seq::empty()
    } else {
        ring(keys.drop_last()) + spec_neighbors(keys.last())
    }
}

proof fn lemma_ring(keys: Seq<Position>, p: Position)
    ensures
        ring(keys).contains(p) <==> exists|i: int| 0 <= i < keys.len() && #[trigger] spec_neighbors(keys[i]).contains(p),
    decreases keys.len(),
{
    if keys.len() > 0 {
        let init = keys.drop_last();
        lemma_ring(init, p);
        let a = ring(init);
        let b = spec_neighbors(keys.last());
        assert(ring(keys) == a + b);
        if (a + b).contains(p) {
            let k = choose|k: int| 0 <= k < (a + b).len() && (a + b)[k] == p;
            if k < a.len() {
                assert(a[k] == p);
                assert(a.contains(p));
                let i = choose|i: int| 0 <= i < init.len() && #[trigger] spec_neighbors(init[i]).contains(p);
                assert(keys[i] == init[i]);
            } else {
                assert(b[k - a.len()] == p);
                assert(b.contains(p));
                assert(spec_neighbors(keys[keys.len() - 1]).contains(p));
            }
        }
        if exists|i: int| 0 <= i < keys.len() && #[trigger] spec_neighbors(keys[i]).contains(p) {
            let i = choose|i: int| 0 <= i < keys.len() && #[trigger] spec_neighbors(keys[i]).contains(p);
            if i < keys.len() - 1 {
                assert(init[i] == keys[i]);
                assert(a.contains(p));
                let k = choose|k: int| 0 <= k < a.len() && a[k] == p;
                assert((a + b)[k] == p);
            } else {
                assert(b.contains(p));
                let k = choose|k: int| 0 <= k < b.len() && b[k] == p;
                assert((a + b)[a.len() + k] == p);
            }
        }
    }
}

/// A crawl ends next to an occupied cell, hence among the neighbours of the hive.
proof fn lemma_crawl_near_hive(m: Map<Position, Seq<crate::types::Piece>>, keys: Seq<Position>, a: Position, c: Position)
    requires
        crawl(m)(a, c),
        within(a, 2),
        board_within(m, 3),
        forall|p: Position| #[trigger] keys.contains(p) <==> m.dom().contains(p),
    ensures
        ring(keys).contains(c),
        within(c, 2),
{
    lemma_neighbor_within(a, c, 1);
    let n = choose|n: Position| #[trigger] crate::hex::flanks(a, c, n) && occupied(m, n);
    lemma_neighbors_are_adjacent(c);
    assert(adjacent(c, n));
    assert(within(n, 3));
    lemma_neighbors_are_adjacent(n);
    assert(spec_neighbors(n).contains(c));
    lemma_neighbor_within(n, c, 2);
    assert(keys.contains(n));
    let i = choose|i: int| 0 <= i < keys.len() && keys[i] == n;
    lemma_ring(keys, c);
}

/// The hands hold a bee of `player` still to be placed.
pub open spec fn bee_in_hand(hands: Seq<(Player, Seq<(PieceKind, u8)>)>, player: Player) -> bool {
    exists|i: int, j: int| 0 <= i < hands.len() && hands[i].0 == player && 0 <= j < hands[i].1.len()
        && #[trigger] hands[i].1[j].0 == PieceKind::Bee
}

/// The hands hold an entry for `player`.
pub open spec fn has_hand(hands: Seq<(Player, Seq<(PieceKind, u8)>)>, player: Player) -> bool {
    exists|i: int| 0 <= i < hands.len() && #[trigger] hands[i].0 == player
}

/// The piece that the player to move may move from `pos`: none while that
/// player's bee is still in hand, none on an empty cell, and none when the top
/// piece there belongs to the other player.
pub open spec fn movable_piece(m: Map<Position, Seq<Piece>>, hands: Seq<(Player, Seq<(PieceKind, u8)>)>, turn: Player, pos: Position) -> Option<Piece> {
    if bee_in_hand(hands, turn) || !occupied(m, pos) || m[pos].last().owner != turn {
        None
    } else {
        Some(m[pos].last())
    }
}

/// Whether the hands hold a bee of `player` still to be placed.
fn bee_still_in_hand(unplaced: &Vec<(Player, Hand)>, player: Player) -> (res: bool)
    ensures
        res == bee_in_hand(hands_view(unplaced@), player),
{
    let ghost hv = hands_view(unplaced@);
    let mut i: usize = 0;
    while i < unplaced.len()
        invariant
            hv == hands_view(unplaced@),
            i <= unplaced@.len(),
            forall|a: int, b: int| 0 <= a < i && hv[a].0 == player && 0 <= b < hv[a].1.len()
                ==> #[trigger] hv[a].1[b].0 != PieceKind::Bee,
        decreases unplaced@.len() - i,
    {
        if unplaced[i].0 == player {
            let hand = &unplaced[i].1;
            let mut j: usize = 0;
            while j < hand.len()
                invariant
                    hv == hands_view(unplaced@),
                    i < unplaced@.len(),
                    hand@ == hv[i as int].1,
                    hv[i as int].0 == player,
                    j <= hand@.len(),
                    forall|b: int| 0 <= b < j ==> #[trigger] hand@[b].0 != PieceKind::Bee,
                decreases hand@.len() - j,
            {
                if hand[j].0 == PieceKind::Bee {
                    assert(hv[i as int].1[j as int].0 == PieceKind::Bee);
                    return true;
                }
                j = j + 1;
            }
        }
        i = i + 1;
    }
    false
}

/// The moves of the piece at `pos` for the player to move. Nothing may move
/// while that player's bee is still in hand, nor from an empty cell, nor a
/// piece of the other player; grasshoppers have no moves; every other kind
/// moves by its own rule.
pub fn legal_moves(pos: &Position, game: &GameState) -> (res: Vec<Move>)
    requires
        within(*pos, 2),
        board_within(game.board@, 3),
        has_hand(hands_view(game.unplaced@), game.turn),
    ensures
        ({
            let m = game.board@;
            let piece = movable_piece(m, hands_view(game.unplaced@), game.turn, *pos);
            &&& (piece is None || piece->0.kind == PieceKind::Grasshopper) ==> res@.len() == 0
            &&& piece == Some(Piece { kind: PieceKind::Bee, owner: game.turn }) ==> res@ == (if hive_connected(m.dom().remove(*pos)) {
                moves_to(*pos, bee_dests(m, *pos))
            } else {
                Seq::<Move>::empty()
            })
            &&& piece == Some(Piece { kind: PieceKind::Beetle, owner: game.turn }) ==> res@ == (if height(m, *pos) == 1
                && !hive_connected(m.dom().remove(*pos)) {
                Seq::<Move>::empty()
            } else {
                moves_to(*pos, beetle_dests(m, *pos))
            })
            &&& piece == Some(Piece { kind: PieceKind::Ant, owner: game.turn }) ==> (res@.no_duplicates()
                && forall|mv: Move| #[trigger] res@.contains(mv) <==> hive_connected(m.dom().remove(*pos))
                    && exists|c: Position| mv == step_move(*pos, c) && reachable(crawl(m), *pos, c))
            &&& piece == Some(Piece { kind: PieceKind::Spider, owner: game.turn }) ==> (res@.no_duplicates()
                && forall|mv: Move| #[trigger] res@.contains(mv) <==> hive_connected(m.dom().remove(*pos))
                    && exists|d: Position| mv == step_move(*pos, d) && spider_dest(m, *pos, d))
        }),
{
    if bee_still_in_hand(&game.unplaced, game.turn) {
        return Vec::new();
    }
    proof {
        assert forall|p: Position| #[trigger] game.board@.dom().contains(p) implies within(p, 1) by {}
    }
    match game.board.stack_at(*pos) {
        Some(stack) => {
            let piece = stack[stack.len() - 1];
            if piece.owner != game.turn {
                return Vec::new();
            }
            match piece.kind {
                PieceKind::Bee => bee_moves(pos, &game.board),
                PieceKind::Ant => ant_moves(pos, &game.board),
                PieceKind::Spider => spider_moves(pos, &game.board),
                PieceKind::Beetle => beetle_moves(pos, &game.board),
                PieceKind::Grasshopper => Vec::new(),
            }
        },
        None => Vec::new(),
    }
}

/// A crawl from a cell inside the grid ends next to an occupied cell, so
/// at least two cells inside the grid when the hive is three cells inside.
proof fn lemma_crawl_within(m: Map<Position, Seq<crate::types::Piece>>, a: Position, c: Position)
    requires
        crawl(m)(a, c),
        within(a, 1),
        board_within(m, 3),
    ensures
        within(c, 2),
        spec_neighbors(a).contains(c),
{
    lemma_neighbors_are_adjacent(a);
    assert(adjacent(a, c));
    let n = choose|n: Position| #[trigger] crate::hex::flanks(a, c, n) && occupied(m, n);
    assert(within(n, 3));
    lemma_neighbors_are_adjacent(n);
    assert(spec_neighbors(n).contains(c));
    lemma_neighbor_within(n, c, 2);
}

/// The spider at `pos` walks `pos`, `a`, `b`, `d`: three crawls that never
/// return to a cell already on the walk.
pub open spec fn spider_walk(m: Map<Position, Seq<crate::types::Piece>>, pos: Position, a: Position, b: Position, d: Position) -> bool {
    &&& crawl(m)(pos, a) && a != pos
    &&& spider_tail(m, pos, a, b, d)
}

/// The last two crawls of a spider walk `pos`, `a`, `b`, `d`.
pub open spec fn spider_tail(m: Map<Position, Seq<crate::types::Piece>>, pos: Position, a: Position, b: Position, d: Position) -> bool {
    &&& crawl(m)(a, b) && b != pos && b != a
    &&& crawl(m)(b, d) && d != pos && d != a && d != b
}

/// The spider at `pos` may end its walk at `d`.
pub open spec fn spider_dest(m: Map<Position, Seq<crate::types::Piece>>, pos: Position, d: Position) -> bool {
    exists|a: Position, b: Position| #[trigger] spider_walk(m, pos, a, b, d)
}

/// Adds to `acc` every cell where a third crawl from `b` may end.
fn spider_third_leg(board: &Board, pos: Position, a: Position, b: Position, acc: &mut Vec<Position>)
    requires
        within(b, 2),
        old(acc)@.no_duplicates(),
    ensures
        final(acc)@.no_duplicates(),
        forall|d: Position| #[trigger] final(acc)@.contains(d) <==> old(acc)@.contains(d)
            || (crawl(board@)(b, d) && d != pos && d != a && d != b),
{
    let ns = neighbors(b);
    let ghost init = acc@;
    let mut j: usize = 0;
    while j < ns.len()
        invariant
            within(b, 2),
            ns@ == spec_neighbors(b),
            j <= ns@.len(),
            acc@.no_duplicates(),
            forall|d: Position| #[trigger] acc@.contains(d) <==> init.contains(d)
                || ((exists|k: int| 0 <= k < j && ns@[k] == d) && crawl(board@)(b, d) && d != pos && d != a && d != b),
        decreases ns@.len() - j,
    {
        let d = ns[j];
        proof {
            assert(spec_neighbors(b).contains(d));
            lemma_neighbor_within(b, d, 1);
        }
        let ghost before = acc@;
        if d != pos && d != a && d != b && can_crawl(board, b, d) && !contains_position(acc, d) {
            acc.push(d);
            proof { lemma_push_no_duplicates(before, d); }
        }
        proof {
            assert forall|x: Position| #[trigger] acc@.contains(x) <==> init.contains(x)
                || ((exists|k: int| 0 <= k < j + 1 && ns@[k] == x) && crawl(board@)(b, x) && x != pos && x != a && x != b) by {
                lemma_push_contains(before, d, x);
                if exists|k: int| 0 <= k < j + 1 && ns@[k] == x {
                    let k = choose|k: int| 0 <= k < j + 1 && ns@[k] == x;
                    if k < j {
                        assert(exists|k2: int| 0 <= k2 < j && ns@[k2] == x);
                    }
                }
            }
        }
        j = j + 1;
    }
    proof {
        assert forall|d: Position| #[trigger] acc@.contains(d) <==> init.contains(d)
            || (crawl(board@)(b, d) && d != pos && d != a && d != b) by {
            if crawl(board@)(b, d) {
                assert(spec_neighbors(b).contains(d));
                let k = choose|k: int| 0 <= k < ns@.len() && ns@[k] == d;
            }
        }
    }
}

/// Adds to `acc` every cell where a walk that continues from `a` with two more
/// crawls may end.
fn spider_second_leg(board: &Board, pos: Position, a: Position, acc: &mut Vec<Position>)
    requires
        within(a, 2),
        board_within(board@, 3),
        old(acc)@.no_duplicates(),
    ensures
        final(acc)@.no_duplicates(),
        forall|d: Position| #[trigger] final(acc)@.contains(d) <==> old(acc)@.contains(d)
            || exists|b: Position| #[trigger] spider_tail(board@, pos, a, b, d),
{
    let ns = neighbors(a);
    let ghost init = acc@;
    let mut j: usize = 0;
    while j < ns.len()
        invariant
            within(a, 2),
            board_within(board@, 3),
            ns@ == spec_neighbors(a),
            j <= ns@.len(),
            acc@.no_duplicates(),
            forall|d: Position| #[trigger] acc@.contains(d) <==> init.contains(d)
                || exists|k: int| 0 <= k < j && crawl(board@)(a, #[trigger] ns@[k]) && ns@[k] != pos && ns@[k] != a
                    && crawl(board@)(ns@[k], d) && d != pos && d != a && d != ns@[k],
        decreases ns@.len() - j,
    {
        let b = ns[j];
        let ghost before = acc@;
        proof {
            assert(spec_neighbors(a).contains(b));
            lemma_neighbor_within(a, b, 1);
        }
        if b != pos && b != a && can_crawl(board, a, b) {
            proof { lemma_crawl_within(board@, a, b); }
            spider_third_leg(board, pos, a, b, acc);
        }
        proof {
            assert forall|x: Position| #[trigger] acc@.contains(x) <==> init.contains(x)
                || exists|k: int| 0 <= k < j + 1 && crawl(board@)(a, #[trigger] ns@[k]) && ns@[k] != pos && ns@[k] != a
                    && crawl(board@)(ns@[k], x) && x != pos && x != a && x != ns@[k] by {
                if exists|k: int| 0 <= k < j + 1 && crawl(board@)(a, #[trigger] ns@[k]) && ns@[k] != pos && ns@[k] != a
                    && crawl(board@)(ns@[k], x) && x != pos && x != a && x != ns@[k] {
                    let k = choose|k: int| 0 <= k < j + 1 && crawl(board@)(a, #[trigger] ns@[k]) && ns@[k] != pos && ns@[k] != a
                        && crawl(board@)(ns@[k], x) && x != pos && x != a && x != ns@[k];
                    if k < j {
                        assert(before.contains(x));
                    }
                }
            }
        }
        j = j + 1;
    }
    proof {
        assert forall|d: Position| #[trigger] acc@.contains(d) <==> init.contains(d)
            || exists|b: Position| #[trigger] spider_tail(board@, pos, a, b, d) by {
            if acc@.contains(d) && !init.contains(d) {
                let k = choose|k: int| 0 <= k < j && crawl(board@)(a, #[trigger] ns@[k]) && ns@[k] != pos && ns@[k] != a
                    && crawl(board@)(ns@[k], d) && d != pos && d != a && d != ns@[k];
                assert(spider_tail(board@, pos, a, ns@[k], d));
            }
            if exists|b: Position| #[trigger] spider_tail(board@, pos, a, b, d) {
                let b = choose|b: Position| #[trigger] spider_tail(board@, pos, a, b, d);
                assert(spec_neighbors(a).contains(b));
                let k = choose|k: int| 0 <= k < ns@.len() && ns@[k] == b;
                assert(crawl(board@)(a, ns@[k]));
            }
        }
    }
}

/// The moves of the spider at `pos`: none when lifting it splits the hive,
/// otherwise one to every cell where a walk of exactly three crawls that never
/// revisits a cell may end, each once.
pub fn spider_moves(pos: &Position, board: &Board) -> (res: Vec<Move>)
    requires
        within(*pos, 2),
        board_within(board@, 3),
    ensures
        res@.no_duplicates(),
        forall|mv: Move| #[trigger] res@.contains(mv) <==> hive_connected(board@.dom().remove(*pos))
            && exists|d: Position| mv == step_move(*pos, d) && spider_dest(board@, *pos, d),
{
    if !preserves_hive(board, *pos) {
        let res: Vec<Move> = Vec::new();
        proof {
            assert forall|mv: Move| #[trigger] res@.contains(mv) <==> hive_connected(board@.dom().remove(*pos))
                && exists|d: Position| mv == step_move(*pos, d) && spider_dest(board@, *pos, d) by {
                if res@.contains(mv) {
                    let k = choose|k: int| 0 <= k < res@.len() && res@[k] == mv;
                }
            }
        }
        return res;
    }
    let ns = neighbors(*pos);
    let mut dests: Vec<Position> = Vec::new();
    let mut j: usize = 0;
    while j < ns.len()
        invariant
            within(*pos, 2),
            board_within(board@, 3),
            ns@ == spec_neighbors(*pos),
            j <= ns@.len(),
            dests@.no_duplicates(),
            forall|d: Position| #[trigger] dests@.contains(d) <==>
                exists|k: int, b: Position| 0 <= k < j && #[trigger] spider_walk(board@, *pos, ns@[k], b, d),
        decreases ns@.len() - j,
    {
        let a = ns[j];
        let ghost before = dests@;
        proof {
            assert(spec_neighbors(*pos).contains(a));
            lemma_neighbor_within(*pos, a, 1);
        }
        if a != *pos && can_crawl(board, *pos, a) {
            proof { lemma_crawl_within(board@, *pos, a); }
            spider_second_leg(board, *pos, a, &mut dests);
        }
        proof {
            assert forall|d: Position| #[trigger] dests@.contains(d) <==>
                exists|k: int, b: Position| 0 <= k < j + 1 && #[trigger] spider_walk(board@, *pos, ns@[k], b, d) by {
                if dests@.contains(d) && !before.contains(d) {
                    let b = choose|b: Position| #[trigger] spider_tail(board@, *pos, a, b, d);
                    assert(spider_walk(board@, *pos, ns@[j as int], b, d));
                }
                if exists|k: int, b: Position| 0 <= k < j + 1 && #[trigger] spider_walk(board@, *pos, ns@[k], b, d) {
                    let (k, b) = choose|k: int, b: Position| 0 <= k < j + 1 && #[trigger] spider_walk(board@, *pos, ns@[k], b, d);
                    if k < j {
                        assert(before.contains(d));
                    }
                }
            }
        }
        j = j + 1;
    }
    let mut res: Vec<Move> = Vec::new();
    let mut i: usize = 0;
    while i < dests.len()
        invariant
            i <= dests@.len(),
            res@ == moves_to(*pos, dests@.take(i as int)),
        decreases dests@.len() - i,
    {
        res.push(Move::Move { from: *pos, to: dests[i] });
        proof {
            assert(dests@.take(i + 1) =~= dests@.take(i as int).push(dests@[i as int]));
            assert(res@ =~= moves_to(*pos, dests@.take(i + 1)));
        }
        i = i + 1;
    }
    proof {
        assert(dests@.take(dests@.len() as int) =~= dests@);
        assert forall|d: Position| #[trigger] dests@.contains(d) <==> spider_dest(board@, *pos, d) by {
            if spider_dest(board@, *pos, d) {
                let (a, b) = choose|a: Position, b: Position| #[trigger] spider_walk(board@, *pos, a, b, d);
                assert(spec_neighbors(*pos).contains(a)) by {
                    lemma_neighbors_are_adjacent(*pos);
                }
                let k = choose|k: int| 0 <= k < ns@.len() && ns@[k] == a;
                assert(spider_walk(board@, *pos, ns@[k], b, d));
            }
        }
        assert forall|mv: Move| #[trigger] res@.contains(mv) <==>
            exists|d: Position| mv == step_move(*pos, d) && spider_dest(board@, *pos, d) by {
            if res@.contains(mv) {
                let k = choose|k: int| 0 <= k < res@.len() && res@[k] == mv;
                assert(dests@.contains(dests@[k]));
            }
            if exists|d: Position| mv == step_move(*pos, d) && spider_dest(board@, *pos, d) {
                let d = choose|d: Position| mv == step_move(*pos, d) && spider_dest(board@, *pos, d);
                assert(dests@.contains(d));
                let k = choose|k: int| 0 <= k < dests@.len() && dests@[k] == d;
                assert(res@[k] == mv);
            }
        }
        assert forall|x: int, y: int| 0 <= x < res@.len() && 0 <= y < res@.len() && x != y
            implies res@[x] != res@[y] by {
            assert(dests@[x] != dests@[y]);
        }
    }
    res
}

/// The cells the piece at `pos` reaches by any number of crawls, `pos`
/// included, each once.
fn crawl_reach(board: &Board, pos: Position) -> (res: Vec<Position>)
    requires
        within(pos, 2),
        board_within(board@, 3),
    ensures
        res@.no_duplicates(),
        forall|p: Position| #[trigger] res@.contains(p) <==> reachable(crawl(board@), pos, p),
{
    let keys = board.positions();
    let ghost st = crawl(board@);
    let ghost u = seq![pos] + ring(keys@);
    let mut visited: Vec<Position> = Vec::new();
    let mut stack: Vec<Position> = Vec::new();
    stack.push(pos);
    proof {
        lemma_reach_refl(st, pos);
        assert(u[0] == pos);
        assert forall|x: Position| #[trigger] stack@.contains(x) implies u.contains(x)
            && reachable(st, pos, x) by {
            lemma_push_contains(Seq::<Position>::empty(), pos, x);
        }
        assert(stack@.contains(pos)) by { assert(stack@[0] == pos); }
        assert forall|x: Position| #[trigger] u.contains(x) implies within(x, 2) by {
            let k = choose|k: int| 0 <= k < u.len() && u[k] == x;
            if k > 0 {
                assert(ring(keys@)[k - 1] == x);
                assert(ring(keys@).contains(x));
                lemma_ring(keys@, x);
                let i = choose|i: int| 0 <= i < keys@.len() && #[trigger] spec_neighbors(keys@[i]).contains(x);
                assert(keys@.contains(keys@[i]));
                assert(board@.dom().contains(keys@[i]));
                lemma_neighbor_within(keys@[i], x, 2);
            }
        }
    }
    while stack.len() > 0
        invariant
            st == crawl(board@),
            board_within(board@, 3),
            forall|p: Position| #[trigger] keys@.contains(p) <==> board@.dom().contains(p),
            u == seq![pos] + ring(keys@),
            forall|x: Position| #[trigger] u.contains(x) ==> within(x, 2),
            visited@.no_duplicates(),
            forall|x: Position| #[trigger] visited@.contains(x) ==> u.contains(x) && reachable(st, pos, x),
            forall|x: Position| #[trigger] stack@.contains(x) ==> u.contains(x) && reachable(st, pos, x),
            visited@.contains(pos) || stack@.contains(pos),
            forall|x: Position, y: Position| #[trigger] visited@.contains(x) && #[trigger] st(x, y)
                ==> visited@.contains(y) || stack@.contains(y),
        decreases u.len() - visited@.len(), stack@.len(),
    {
        let ghost old_stack = stack@;
        let ghost old_visited = visited@;
        let c = stack.pop().unwrap();
        proof {
            assert(old_stack == stack@.push(c));
            assert forall|x: Position| #[trigger] old_stack.contains(x) implies stack@.contains(x) || x == c by {
                lemma_push_contains(stack@, c, x);
            }
            assert forall|x: Position| #[trigger] stack@.contains(x) implies old_stack.contains(x) by {
                lemma_push_contains(stack@, c, x);
            }
            lemma_push_contains(stack@, c, c);
            lemma_distinct_bound(visited@, u);
        }
        if !contains_position(&visited, c) {
            visited.push(c);
            proof {
                lemma_push_no_duplicates(old_visited, c);
                assert forall|x: Position| #[trigger] visited@.contains(x) implies old_visited.contains(x) || x == c by {
                    lemma_push_contains(old_visited, c, x);
                }
                assert forall|x: Position| #[trigger] old_visited.contains(x) implies visited@.contains(x) by {
                    lemma_push_contains(old_visited, c, x);
                }
                lemma_push_contains(old_visited, c, c);
                lemma_distinct_bound(visited@, u);
                assert(within(c, 2));
            }
            let ns = neighbors(c);
            let mut j: usize = 0;
            while j < ns.len()
                invariant
                    st == crawl(board@),
                    board_within(board@, 3),
                    forall|p: Position| #[trigger] keys@.contains(p) <==> board@.dom().contains(p),
                    u == seq![pos] + ring(keys@),
                    forall|x: Position| #[trigger] u.contains(x) ==> within(x, 2),
                    within(c, 2),
                    ns@ == spec_neighbors(c),
                    visited@.contains(c),
                    reachable(st, pos, c),
                    visited@.no_duplicates(),
                    visited@.len() <= u.len(),
                    j <= ns@.len(),
                    forall|x: Position| #[trigger] visited@.contains(x) ==> u.contains(x) && reachable(st, pos, x),
                    forall|x: Position| #[trigger] stack@.contains(x) ==> u.contains(x) && reachable(st, pos, x),
                    visited@.contains(pos) || stack@.contains(pos),
                    forall|x: Position, y: Position| #[trigger] visited@.contains(x) && #[trigger] st(x, y) && x != c
                        ==> visited@.contains(y) || stack@.contains(y),
                    forall|b: int| 0 <= b < j && #[trigger] st(c, ns@[b]) ==> visited@.contains(ns@[b]) || stack@.contains(ns@[b]),
                decreases ns@.len() - j,
            {
                let n = ns[j];
                let ghost before = stack@;
                proof {
                    assert(spec_neighbors(c).contains(n));
                    lemma_neighbor_within(c, n, 1);
                }
                if can_crawl(board, c, n) && !contains_position(&visited, n) {
                    stack.push(n);
                    proof {
                        lemma_reach_extend(st, pos, c, n);
                        lemma_crawl_near_hive(board@, keys@, c, n);
                        let r = ring(keys@);
                        let k = choose|k: int| 0 <= k < r.len() && r[k] == n;
                        assert(u[k + 1] == n);
                        assert forall|x: Position| #[trigger] stack@.contains(x) <==> before.contains(x) || x == n by {
                            lemma_push_contains(before, n, x);
                        }
                    }
                }
                j = j + 1;
            }
            proof {
                assert forall|x: Position, y: Position| #[trigger] visited@.contains(x) && #[trigger] st(x, y)
                    implies visited@.contains(y) || stack@.contains(y) by {
                    if x == c {
                        assert(spec_neighbors(c).contains(y));
                        let b = choose|b: int| 0 <= b < ns@.len() && ns@[b] == y;
                        assert(st(c, ns@[b]));
                    }
                }
            }
        } else {
            proof {
                assert forall|x: Position, y: Position| #[trigger] visited@.contains(x) && #[trigger] st(x, y)
                    implies visited@.contains(y) || stack@.contains(y) by {
                    assert(old_visited.contains(y) || old_stack.contains(y));
                }
            }
        }
    }
    proof {
        assert forall|p: Position| #[trigger] visited@.contains(p) <==> reachable(st, pos, p) by {
            if reachable(st, pos, p) {
                lemma_closed_contains_reachable(st, visited@, pos, p);
            }
        }
    }
    visited
}

/// The moves of the ant at `pos`: none when lifting it splits the hive,
/// otherwise one to every cell it reaches by any number of crawls (its own
/// cell included), each once.
pub fn ant_moves(pos: &Position, board: &Board) -> (res: Vec<Move>)
    requires
        within(*pos, 2),
        board_within(board@, 3),
    ensures
        res@.no_duplicates(),
        forall|mv: Move| #[trigger] res@.contains(mv) <==> hive_connected(board@.dom().remove(*pos))
            && exists|c: Position| mv == step_move(*pos, c) && reachable(crawl(board@), *pos, c),
{
    proof {
        assert forall|p: Position| #[trigger] board@.dom().contains(p) implies within(p, 1) by {}
    }
    if !preserves_hive(board, *pos) {
        let res: Vec<Move> = Vec::new();
        proof {
            assert forall|mv: Move| #[trigger] res@.contains(mv) <==> hive_connected(board@.dom().remove(*pos))
                && exists|c: Position| mv == step_move(*pos, c) && reachable(crawl(board@), *pos, c) by {
                if res@.contains(mv) {
                    let k = choose|k: int| 0 <= k < res@.len() && res@[k] == mv;
                }
            }
        }
        return res;
    }
    let dests = crawl_reach(board, *pos);
    let mut res: Vec<Move> = Vec::new();
    let mut i: usize = 0;
    while i < dests.len()
        invariant
            i <= dests@.len(),
            res@ == moves_to(*pos, dests@.take(i as int)),
        decreases dests@.len() - i,
    {
        res.push(Move::Move { from: *pos, to: dests[i] });
        proof {
            assert(dests@.take(i + 1) =~= dests@.take(i as int).push(dests@[i as int]));
            assert(res@ =~= moves_to(*pos, dests@.take(i + 1)));
        }
        i = i + 1;
    }
    proof {
        assert(dests@.take(dests@.len() as int) =~= dests@);
        assert forall|mv: Move| #[trigger] res@.contains(mv) <==>
            exists|c: Position| mv == step_move(*pos, c) && reachable(crawl(board@), *pos, c) by {
            if res@.contains(mv) {
                let k = choose|k: int| 0 <= k < res@.len() && res@[k] == mv;
                assert(dests@.contains(dests@[k]));
            }
            if exists|c: Position| mv == step_move(*pos, c) && reachable(crawl(board@), *pos, c) {
                let c = choose|c: Position| mv == step_move(*pos, c) && reachable(crawl(board@), *pos, c);
                assert(dests@.contains(c));
                let k = choose|k: int| 0 <= k < dests@.len() && dests@[k] == c;
                assert(res@[k] == mv);
            }
        }
        assert forall|a: int, b: int| 0 <= a < res@.len() && 0 <= b < res@.len() && a != b
            implies res@[a] != res@[b] by {
            assert(dests@[a] != dests@[b]);
        }
    }
    res
}

} // verus!
