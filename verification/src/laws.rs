//! Properties that hold across the operations of the library.

use vstd::prelude::*;
use crate::types::{Piece, Player, Position};
use crate::hex::{within, spec_neighbors, adjacent, flanks, lemma_neighbors_are_adjacent};
use crate::board::{valid_board, spec_place, spec_remove, spec_move};
use crate::rules::{occupied, height, board_within, spec_on_hive, spec_can_slide,
    spec_adjacent_to_opponent, is_legal_placement};
use crate::reach::{reachable, conn_step, hive_connected, lemma_conn_symmetric, lemma_reach_trans};
use crate::moves::{crawl, bee_dests, spider_dest, spider_walk, spider_tail, beetle_dests, beetle_target,
    moves_to, step_move, bee_in_hand, movable_piece};
use crate::rules::spec_can_place;
use crate::game::{spec_game_over, candidate_cells, surrounded, bee_trapped_near, trapped_at, bee_of};
use crate::types::GameResult;
use crate::types::PieceKind;
use crate::board::stack_of;
use crate::game::take_from_hands;

verus! {

/// Taking away the piece just placed at `p` gives back the board.
pub proof fn lemma_remove_undoes_place(m: Map<Position, Seq<Piece>>, p: Position, x: Piece)
    requires
        valid_board(m),
    ensures
        spec_remove(spec_place(m, p, x), p) == m,
{
    let placed = spec_place(m, p, x);
    if m.dom().contains(p) {
        assert(placed[p].drop_last() =~= m[p]);
        assert(spec_remove(placed, p) =~= m);
    } else {
        assert(spec_remove(placed, p) =~= m);
    }
}

/// Moving the piece from `from` to `to` and back again gives back the board.
pub proof fn lemma_move_back_undoes_move(m: Map<Position, Seq<Piece>>, from: Position, to: Position)
    requires
        valid_board(m),
        occupied(m, from),
    ensures
        spec_move(spec_move(m, from, to), to, from) == m,
{
    let top = m[from].last();
    let lifted = spec_remove(m, from);
    let moved = spec_move(m, from, to);
    assert(moved == spec_place(lifted, to, top));
    assert(moved.dom().contains(to));
    assert(moved[to].last() == top);
    assert(valid_board(lifted)) by {
        assert(lifted.dom() <= m.dom());
        assert(lifted.dom().finite()) by {
            vstd::set_lib::lemma_len_subset(lifted.dom(), m.dom());
        }
    }
    lemma_remove_undoes_place(lifted, to, top);
    assert(spec_remove(moved, to) == lifted);
    let back = spec_move(moved, to, from);
    assert(back == spec_place(lifted, from, top));
    if m[from].len() == 1 {
        assert(m[from] =~= seq![top]);
    } else {
        assert(m[from].drop_last().push(top) =~= m[from]);
    }
    assert(back =~= m);
}

/// The gap between two cells is passable in one direction exactly when it is
/// passable in the other.
pub proof fn lemma_can_slide_symmetric(m: Map<Position, Seq<Piece>>, a: Position, b: Position, h: int)
    ensures
        spec_can_slide(m, a, b, h) == spec_can_slide(m, b, a, h),
{
    if spec_can_slide(m, a, b, h) {
        let n = choose|n: Position| #[trigger] flanks(a, b, n) && height(m, n) < h;
        assert(flanks(b, a, n));
    }
    if spec_can_slide(m, b, a, h) {
        let n = choose|n: Position| #[trigger] flanks(b, a, n) && height(m, n) < h;
        assert(flanks(a, b, n));
    }
}

/// Cells are adjacent in either order, and the listed neighbours of a cell
/// are exactly the six cells adjacent to it, none of them the cell itself.
pub proof fn lemma_neighbors_symmetric(a: Position, b: Position)
    requires
        within(a, 1),
        within(b, 1),
    ensures
        spec_neighbors(a).contains(b) <==> spec_neighbors(b).contains(a),
        !spec_neighbors(a).contains(a),
{
    lemma_neighbors_are_adjacent(a);
    lemma_neighbors_are_adjacent(b);
}

/// A set of cells is connected as soon as every cell of it can be reached
/// from one of its cells.
pub proof fn lemma_connected_from_one_cell(s: Set<Position>, a: Position)
    requires
        s.contains(a),
        forall|b: Position| #[trigger] s.contains(b) ==> reachable(conn_step(s), a, b),
    ensures
        hive_connected(s),
{
    assert forall|x: Position, y: Position| s.contains(x) && s.contains(y)
        implies #[trigger] reachable(conn_step(s), x, y) by {
        lemma_conn_symmetric(s, a, x);
        lemma_reach_trans(conn_step(s), x, a, y);
    }
}

/// A cell where a new piece may be placed is empty, and on a board that is
/// not empty it touches the hive; unless the board holds a single stack, no
/// piece of the opponent touches it.
pub proof fn lemma_legal_placement_properties(m: Map<Position, Seq<Piece>>, player: Player, p: Position)
    requires
        valid_board(m),
        board_within(m, 1),
        is_legal_placement(m, player, p),
    ensures
        !occupied(m, p),
        m.dom().len() > 0 ==> spec_on_hive(m, p, None),
        m.dom().len() != 1 ==> !spec_adjacent_to_opponent(m, p, player),
{
    if m.dom().len() == 0 {
        assert(!m.dom().contains(p)) by {
            if m.dom().contains(p) {
                vstd::set_lib::lemma_len_subset(set![p], m.dom());
                assert(set![p].len() == 1);
            }
        }
    } else {
        let k = choose|k: Position| #[trigger] m.dom().contains(k) && spec_neighbors(k).contains(p);
        lemma_neighbors_are_adjacent(k);
        assert(adjacent(k, p));
        assert(p != k);
        assert(within(p, 0));
        assert(spec_neighbors(p).contains(k)) by {
            assert(adjacent(p, k));
            if p.q - k.q == 0 && p.r - k.r == 1 {
                assert(spec_neighbors(p)[3] == k);
            } else if p.q - k.q == 1 && p.r - k.r == -1 {
                assert(spec_neighbors(p)[4] == k);
            } else if p.q - k.q == 1 && p.r - k.r == 0 {
                assert(spec_neighbors(p)[5] == k);
            } else if p.q - k.q == 0 && p.r - k.r == -1 {
                assert(spec_neighbors(p)[0] == k);
            } else if p.q - k.q == -1 && p.r - k.r == 1 {
                assert(spec_neighbors(p)[1] == k);
            } else {
                assert(spec_neighbors(p)[2] == k);
            }
        }
        assert(spec_on_hive(m, p, None));
        if m.dom().len() == 1 {
            if m.dom().contains(p) {
                let two = set![k].insert(p);
                assert(two.len() == 2);
                assert(two.subset_of(m.dom()));
                vstd::set_lib::lemma_len_subset(two, m.dom());
            }
        }
    }
}

/// Placing a piece on a legal cell starts a new stack of that one piece, so
/// the number of occupied cells grows by exactly one.
pub proof fn lemma_placement_adds_a_stack(m: Map<Position, Seq<Piece>>, player: Player, p: Position, x: Piece)
    requires
        valid_board(m),
        board_within(m, 1),
        is_legal_placement(m, player, p),
    ensures
        spec_place(m, p, x).dom().len() == m.dom().len() + 1,
        spec_place(m, p, x)[p] == seq![x],
        valid_board(spec_place(m, p, x)),
{
    lemma_legal_placement_properties(m, player, p);
    assert(spec_place(m, p, x).dom() == m.dom().insert(p));
    assert(Seq::<Piece>::empty().push(x) =~= seq![x]);
}

/// A move changes the stacks at its two cells only.
pub proof fn lemma_move_touches_two_cells(m: Map<Position, Seq<Piece>>, from: Position, to: Position, c: Position)
    requires
        occupied(m, from),
        c != from,
        c != to,
    ensures
        stack_of(spec_move(m, from, to), c) == stack_of(m, c),
{
}

/// Placing a piece leaves the hands of the other player as they were, and
/// keeps one entry per player.
pub proof fn lemma_place_keeps_other_hands(
    hands: Seq<(Player, Seq<(PieceKind, u8)>)>,
    player: Player,
    kind: PieceKind,
    i: int,
)
    requires
        0 <= i < hands.len(),
        hands[i].0 != player,
    ensures
        take_from_hands(hands, player, kind).len() == hands.len(),
        take_from_hands(hands, player, kind)[i] == hands[i],
{
}

/// The bee only moves to an empty neighbour of its cell.
pub proof fn lemma_bee_lands_on_empty_neighbor(m: Map<Position, Seq<Piece>>, pos: Position, c: Position)
    requires
        bee_dests(m, pos).contains(c),
    ensures
        !occupied(m, c),
        spec_neighbors(pos).contains(c),
{
    broadcast use vstd::seq_lib::group_filter_ensures;
    let pred = |x: Position| crawl(m)(pos, x);
    let k = choose|k: int| 0 <= k < bee_dests(m, pos).len() && bee_dests(m, pos)[k] == c;
    assert(pred(bee_dests(m, pos)[k]));
}

/// The spider only ends its walk on an empty cell other than its own.
pub proof fn lemma_spider_lands_on_empty_cell(m: Map<Position, Seq<Piece>>, pos: Position, d: Position)
    requires
        spider_dest(m, pos, d),
    ensures
        !occupied(m, d),
        d != pos,
{
    let (a, b) = choose|a: Position, b: Position| #[trigger] spider_walk(m, pos, a, b, d);
}

/// Every step of a spider walk, the first one included, obeys the freedom to
/// move: the spider at `pos` ends on `d` only through two empty cells `a`,
/// `b`, each step going to an empty neighbour through a gap with a free
/// flanking cell, never returning to a cell of the walk.
pub proof fn lemma_spider_walk_slides(m: Map<Position, Seq<Piece>>, pos: Position, d: Position)
    requires
        spider_dest(m, pos, d),
    ensures
        exists|a: Position, b: Position|
            #![trigger spec_neighbors(pos).contains(a), spec_neighbors(a).contains(b)]
            spec_neighbors(pos).contains(a) && spec_neighbors(a).contains(b) && spec_neighbors(b).contains(d)
            && !occupied(m, a) && !occupied(m, b) && !occupied(m, d)
            && spec_can_slide(m, pos, a, 1) && spec_can_slide(m, a, b, 1) && spec_can_slide(m, b, d, 1)
            && a != pos && b != pos && b != a && d != pos && d != a && d != b,
{
    let (a, b) = choose|a: Position, b: Position| #[trigger] spider_walk(m, pos, a, b, d);
    assert(spider_tail(m, pos, a, b, d));
    assert(crawl(m)(pos, a) && crawl(m)(a, b) && crawl(m)(b, d));
}

/// A beetle may always climb onto a neighbouring stack at least as high as
/// its own, whatever the cells flanking the gap, unless it stands on the
/// ground and lifting it splits the hive.
pub proof fn lemma_beetle_climbs(m: Map<Position, Seq<Piece>>, pos: Position, p: Position)
    requires
        spec_neighbors(pos).contains(p),
        height(m, pos) > 0,
        height(m, p) >= height(m, pos),
        height(m, pos) > 1 || hive_connected(m.dom().remove(pos)),
    ensures
        (if height(m, pos) == 1 && !hive_connected(m.dom().remove(pos)) {
            Seq::<crate::types::Move>::empty()
        } else {
            moves_to(pos, beetle_dests(m, pos))
        }).contains(step_move(pos, p)),
{
    broadcast use vstd::seq_lib::group_filter_ensures;
    let pred = |x: Position| beetle_target(m, pos, x);
    assert(occupied(m, p));
    assert(pred(p));
    let k = choose|k: int| 0 <= k < spec_neighbors(pos).len() && spec_neighbors(pos)[k] == p;
    assert(beetle_dests(m, pos).contains(p));
    let dests = beetle_dests(m, pos);
    let j = choose|j: int| 0 <= j < dests.len() && dests[j] == p;
    assert(moves_to(pos, dests)[j] == step_move(pos, p));
}

/// Only the hand of the player to move decides whether its bee is still to be
/// placed: another player's hand changes nothing, whatever it holds.
pub proof fn lemma_bee_gate_ignores_other_hands(
    m: Map<Position, Seq<Piece>>,
    hands: Seq<(Player, Seq<(PieceKind, u8)>)>,
    turn: Player,
    other: Player,
    hand: Seq<(PieceKind, u8)>,
    pos: Position,
)
    requires
        other != turn,
    ensures
        bee_in_hand(hands.push((other, hand)), turn) == bee_in_hand(hands, turn),
        movable_piece(m, hands.push((other, hand)), turn, pos) == movable_piece(m, hands, turn, pos),
{
    let h2 = hands.push((other, hand));
    if bee_in_hand(h2, turn) {
        let (i, j) = choose|i: int, j: int| 0 <= i < h2.len() && h2[i].0 == turn && 0 <= j < h2[i].1.len()
            && #[trigger] h2[i].1[j].0 == PieceKind::Bee;
        assert(i < hands.len());
        assert(hands[i] == h2[i]);
        assert(hands[i].1[j].0 == PieceKind::Bee);
    }
    if bee_in_hand(hands, turn) {
        let (i, j) = choose|i: int, j: int| 0 <= i < hands.len() && hands[i].0 == turn && 0 <= j < hands[i].1.len()
            && #[trigger] hands[i].1[j].0 == PieceKind::Bee;
        assert(h2[i] == hands[i]);
        assert(h2[i].1[j].0 == PieceKind::Bee);
    }
}

/// A bee in the mover's own hand stops every piece of that player.
pub proof fn lemma_bee_gate_own_bee(
    m: Map<Position, Seq<Piece>>,
    hands: Seq<(Player, Seq<(PieceKind, u8)>)>,
    turn: Player,
    hand: Seq<(PieceKind, u8)>,
    j: int,
    pos: Position,
)
    requires
        0 <= j < hand.len(),
        hand[j].0 == PieceKind::Bee,
    ensures
        movable_piece(m, hands.push((turn, hand)), turn, pos) == None::<Piece>,
{
    let h2 = hands.push((turn, hand));
    assert(h2[hands.len() as int] == (turn, hand));
    assert(h2[hands.len() as int].1[j].0 == PieceKind::Bee);
}

/// With no bee left in any hand, the player to move may move exactly the top
/// piece of a stack it owns.
pub proof fn lemma_no_bee_in_hand_moves_own_top(
    m: Map<Position, Seq<Piece>>,
    hands: Seq<(Player, Seq<(PieceKind, u8)>)>,
    turn: Player,
    pos: Position,
)
    requires
        forall|i: int, j: int| 0 <= i < hands.len() && 0 <= j < hands[i].1.len()
            ==> #[trigger] hands[i].1[j].0 != PieceKind::Bee,
    ensures
        movable_piece(m, hands, turn, pos) == if m.dom().contains(pos) && m[pos].last().owner == turn {
            Some(m[pos].last())
        } else {
            None
        },
{
}

/// Contact with the opponent is judged by the top piece of each neighbouring
/// stack: a cell all of whose occupied neighbours are topped by the player's
/// own pieces is never refused for contact, and one next to a stack topped by
/// the opponent always is.
pub proof fn lemma_contact_by_top_piece(m: Map<Position, Seq<Piece>>, p: Position, player: Player)
    ensures
        (forall|n: Position| spec_neighbors(p).contains(n) && m.dom().contains(n)
            ==> #[trigger] m[n].last().owner == player) ==> !spec_adjacent_to_opponent(m, p, player),
        (exists|n: Position| spec_neighbors(p).contains(n) && m.dom().contains(n)
            && #[trigger] m[n].last().owner != player) ==> spec_adjacent_to_opponent(m, p, player),
        m.dom().len() > 0 ==> (spec_can_place(m, p, player) <==> (!m.dom().contains(p)
            && (exists|n: Position| #[trigger] spec_neighbors(p).contains(n) && m.dom().contains(n))
            && (forall|n: Position| spec_neighbors(p).contains(n) && m.dom().contains(n)
                ==> #[trigger] m[n].last().owner == player))),
{
    if exists|n: Position| spec_neighbors(p).contains(n) && m.dom().contains(n) && #[trigger] m[n].last().owner != player {
        let n = choose|n: Position| spec_neighbors(p).contains(n) && m.dom().contains(n) && #[trigger] m[n].last().owner != player;
        assert(spec_neighbors(p).contains(n) && occupied(m, n) && m[n].last().owner != player);
    }
    if spec_adjacent_to_opponent(m, p, player) {
        let n = choose|n: Position| #[trigger] spec_neighbors(p).contains(n) && occupied(m, n) && m[n].last().owner != player;
        assert(m[n].last().owner != player);
    }
}

/// A bee at any level of a surrounded stack on the landing cell or next to it
/// is trapped: a trapped White bee gives Black the win or a draw, a trapped
/// Black bee gives White the win or a draw, and a game ends only through such
/// a trapped bee.
pub proof fn lemma_trapped_bee_anywhere_in_stack(m: Map<Position, Seq<Piece>>, pos: Position, c: Position, i: int, player: Player)
    requires
        c == pos || spec_neighbors(pos).contains(c),
        m.dom().contains(c),
        forall|n: Position| #[trigger] spec_neighbors(c).contains(n) ==> m.dom().contains(n),
        0 <= i < m[c].len(),
        m[c][i] == (Piece { kind: PieceKind::Bee, owner: player }),
    ensures
        spec_game_over(m, pos) == Some(GameResult::Draw)
            || spec_game_over(m, pos) == Some(GameResult::Win(crate::types::spec_other(player))),
{
    assert(candidate_cells(pos).contains(c)) by {
        if c == pos {
            assert(candidate_cells(pos)[6] == pos);
        } else {
            let k = choose|k: int| 0 <= k < spec_neighbors(pos).len() && spec_neighbors(pos)[k] == c;
            assert(candidate_cells(pos)[k] == c);
        }
    }
    assert(m[c].contains(bee_of(player)));
    assert(trapped_at(m, c, player));
    assert(bee_trapped_near(m, pos, player));
}

/// The game ends only when some bee, at any level of a surrounded stack on the
/// landing cell or next to it, is trapped: the winner is the other player of
/// every such bee found.
pub proof fn lemma_game_ends_only_by_trapped_bee(m: Map<Position, Seq<Piece>>, pos: Position, winner: Player)
    requires
        spec_game_over(m, pos) == Some(GameResult::Win(winner)),
    ensures
        exists|c: Position, i: int| #![trigger m[c][i]]
            (c == pos || spec_neighbors(pos).contains(c)) && m.dom().contains(c)
            && (forall|n: Position| #[trigger] spec_neighbors(c).contains(n) ==> m.dom().contains(n))
            && 0 <= i < m[c].len() && m[c][i] == (Piece { kind: PieceKind::Bee, owner: crate::types::spec_other(winner) }),
{
    let loser = crate::types::spec_other(winner);
    assert(bee_trapped_near(m, pos, loser));
    let c = choose|c: Position| #[trigger] candidate_cells(pos).contains(c) && trapped_at(m, c, loser);
    let k = choose|k: int| 0 <= k < candidate_cells(pos).len() && candidate_cells(pos)[k] == c;
    if k < 6 {
        assert(spec_neighbors(pos)[k] == c);
    }
    let i = choose|i: int| 0 <= i < m[c].len() && m[c][i] == bee_of(loser);
    assert(m[c][i] == (Piece { kind: PieceKind::Bee, owner: loser }));
}

/// A crawl is one step of the freedom-to-move rule: onto an empty neighbour,
/// through a gap with one flanking cell occupied (keeping contact with the
/// hive) and one flanking cell empty (leaving room to pass).
pub proof fn lemma_crawl_is_freedom_to_move(m: Map<Position, Seq<Piece>>, a: Position, c: Position)
    requires
        valid_board(m),
    ensures
        crawl(m)(a, c) <==> (spec_neighbors(a).contains(c) && !m.dom().contains(c)
            && (exists|n: Position| #[trigger] flanks(a, c, n) && m.dom().contains(n))
            && (exists|n: Position| #[trigger] flanks(a, c, n) && !m.dom().contains(n))),
{
    if exists|n: Position| #[trigger] flanks(a, c, n) && !m.dom().contains(n) {
        let n = choose|n: Position| #[trigger] flanks(a, c, n) && !m.dom().contains(n);
        assert(height(m, n) < 1);
    }
    if spec_can_slide(m, a, c, 1) {
        let n = choose|n: Position| #[trigger] flanks(a, c, n) && height(m, n) < 1;
        if m.dom().contains(n) {
            assert(m[n].len() > 0);
        }
    }
}

} // verus!
