//! Placement and movement rules.

use vstd::prelude::*;
use crate::types::{Piece, Player, Position};
use crate::hex::{within, spec_neighbors, flanks, adjacent, neighbors, flanking_positions,
    contains_position, lemma_neighbors_are_adjacent, lemma_neighbor_within, lemma_push_contains, lemma_push_no_duplicates};
use crate::board::{Board, stack_of};
use crate::reach::{reachable, conn_step, hive_connected, connected_positions, lemma_conn_stays_inside,
    lemma_conn_symmetric, lemma_reach_trans};

verus! {

/// A stack stands at `p`.
pub open spec fn occupied(m: Map<Position, Seq<Piece>>, p: Position) -> bool {
    m.dom().contains(p)
}

/// The number of pieces stacked at `p`.
pub open spec fn height(m: Map<Position, Seq<Piece>>, p: Position) -> nat {
    stack_of(m, p).len()
}

/// Every occupied cell lies at least `margin` cells inside the `i32` grid.
pub open spec fn board_within(m: Map<Position, Seq<Piece>>, margin: int) -> bool {
    forall|p: Position| #[trigger] m.dom().contains(p) ==> within(p, margin)
}

/// Some neighbour of `p` holds a stack whose top piece belongs to the other player.
pub open spec fn spec_adjacent_to_opponent(m: Map<Position, Seq<Piece>>, p: Position, player: Player) -> bool {
    exists|n: Position| #[trigger] spec_neighbors(p).contains(n) && occupied(m, n) && m[n].last().owner != player
}

/// `to` touches the hive: without `from`, some neighbour of `to` is occupied;
/// with `from`, `to` neighbours `from` and a cell flanking both is occupied.
pub open spec fn spec_on_hive(m: Map<Position, Seq<Piece>>, to: Position, from: Option<Position>) -> bool {
    match from {
        None => exists|n: Position| #[trigger] spec_neighbors(to).contains(n) && occupied(m, n),
        Some(f) => spec_neighbors(f).contains(to)
            && exists|n: Position| #[trigger] flanks(f, to, n) && occupied(m, n),
    }
}

/// The gap between `from` and `to` is passable for a piece at height
/// `piece_height`: some cell flanking both is lower than that.
pub open spec fn spec_can_slide(m: Map<Position, Seq<Piece>>, from: Position, to: Position, piece_height: int) -> bool {
    exists|n: Position| #[trigger] flanks(from, to, n) && height(m, n) < piece_height
}

/// `player` may put a new piece at `p`: the board is empty, or `p` is empty,
/// touches the hive and touches no piece of the opponent.
pub open spec fn spec_can_place(m: Map<Position, Seq<Piece>>, p: Position, player: Player) -> bool {
    m.dom().len() == 0 || (!occupied(m, p) && spec_on_hive(m, p, None) && !spec_adjacent_to_opponent(m, p, player))
}

/// `p` neighbours some occupied cell.
pub open spec fn next_to_hive(m: Map<Position, Seq<Piece>>, p: Position) -> bool {
    exists|k: Position| #[trigger] m.dom().contains(k) && spec_neighbors(k).contains(p)
}

/// The cells where `player` may put a new piece: the origin on an empty board,
/// every neighbour of the only stack on a board of one stack, and otherwise every
/// neighbour of the hive where a piece may be placed.
pub open spec fn is_legal_placement(m: Map<Position, Seq<Piece>>, player: Player, p: Position) -> bool {
    if m.dom().len() == 0 {
        p == Position { q: 0, r: 0 }
    } else if m.dom().len() == 1 {
        next_to_hive(m, p)
    } else {
        next_to_hive(m, p) && spec_can_place(m, p, player)
    }
}

/// Whether a stack stands at `pos`.
pub fn is_occupied(pos: Position, board: &Board) -> (res: bool)
    ensures
        res == occupied(board@, pos),
{
    match board.stack_at(pos) {
        Some(_) => true,
        None => false,
    }
}

/// The number of pieces stacked at `pos`.
pub fn stack_height(board: &Board, pos: &Position) -> (res: usize)
    ensures
        res == height(board@, *pos),
{
    match board.stack_at(*pos) {
        Some(s) => s.len(),
        None => 0,
    }
}

/// Whether some neighbour of `position` holds a stack topped by a piece of the
/// other player.
pub fn adjacent_to_opponent(board: &Board, position: Position, player: Player) -> (res: bool)
    requires
        within(position, 1),
    ensures
        res == spec_adjacent_to_opponent(board@, position, player),
{
    let ns = neighbors(position);
    let mut i: usize = 0;
    while i < ns.len()
        invariant
            ns@ == spec_neighbors(position),
            i <= ns@.len(),
            forall|j: int| 0 <= j < i ==> !(occupied(board@, #[trigger] ns@[j])
                && board@[ns@[j]].last().owner != player),
        decreases ns@.len() - i,
    {
        match board.stack_at(ns[i]) {
            Some(stack) => {
                if stack[stack.len() - 1].owner != player {
                    assert(spec_neighbors(position).contains(ns@[i as int]));
                    return true;
                }
            },
            None => {},
        }
        i = i + 1;
    }
    proof {
        assert forall|n: Position| #[trigger] spec_neighbors(position).contains(n) implies
            !(occupied(board@, n) && board@[n].last().owner != player) by {
            let j = choose|j: int| 0 <= j < ns@.len() && ns@[j] == n;
        }
    }
    false
}

/// Whether `to` touches the hive: without `from`, whether a neighbour of `to`
/// is occupied; with `from`, whether `to` neighbours `from` and some cell
/// flanking both is occupied.
pub fn is_on_hive(board: &Board, to: Position, from: Option<Position>) -> (res: bool)
    requires
        within(to, 1),
        from matches Some(f) ==> within(f, 1),
    ensures
        res == spec_on_hive(board@, to, from),
{
    match from {
        None => {
            let ns = neighbors(to);
            let mut i: usize = 0;
            while i < ns.len()
                invariant
                    from == None::<Position>,
                    ns@ == spec_neighbors(to),
                    i <= ns@.len(),
                    forall|j: int| 0 <= j < i ==> !occupied(board@, #[trigger] ns@[j]),
                decreases ns@.len() - i,
            {
                if is_occupied(ns[i], board) {
                    assert(spec_neighbors(to).contains(ns@[i as int]) && occupied(board@, ns@[i as int]));
                    return true;
                }
                i = i + 1;
            }
            proof {
                assert forall|n: Position| #[trigger] spec_neighbors(to).contains(n) implies
                    !occupied(board@, n) by {
                    let j = choose|j: int| 0 <= j < ns@.len() && ns@[j] == n;
                }
            }
            false
        },
        Some(f) => {
            let nf = neighbors(f);
            assert(nf@ == spec_neighbors(f));
            if !contains_position(&nf, to) {
                return false;
            }
            let fl = flanking_positions(f, to);
            let mut i: usize = 0;
            while i < fl.len()
                invariant
                    from == Some(f),
                    spec_neighbors(f).contains(to),
                    i <= fl@.len(),
                    forall|n: Position| #[trigger] fl@.contains(n) <==> flanks(f, to, n),
                    forall|j: int| 0 <= j < i ==> !occupied(board@, #[trigger] fl@[j]),
                decreases fl@.len() - i,
            {
                if is_occupied(fl[i], board) {
                    assert(fl@.contains(fl@[i as int]));
                    assert(flanks(f, to, fl@[i as int]) && occupied(board@, fl@[i as int]));
                    return true;
                }
                i = i + 1;
            }
            proof {
                assert forall|n: Position| #[trigger] flanks(f, to, n) implies !occupied(board@, n) by {
                    assert(fl@.contains(n));
                    let j = choose|j: int| 0 <= j < fl@.len() && fl@[j] == n;
                }
            }
            false
        },
    }
}

/// Whether a piece at height `piece_height` can slide from `from` to `to`:
/// some cell flanking the gap is lower than the piece.
pub fn can_slide(board: &Board, from: Position, to: Position, piece_height: usize) -> (res: bool)
    requires
        within(from, 1),
        within(to, 1),
    ensures
        res == spec_can_slide(board@, from, to, piece_height as int),
{
    let fl = flanking_positions(from, to);
    let mut i: usize = 0;
    while i < fl.len()
        invariant
            i <= fl@.len(),
            forall|n: Position| #[trigger] fl@.contains(n) <==> flanks(from, to, n),
            forall|j: int| 0 <= j < i ==> height(board@, #[trigger] fl@[j]) >= piece_height,
        decreases fl@.len() - i,
    {
        let p = fl[i];
        if stack_height(board, &p) < piece_height {
            assert(fl@.contains(fl@[i as int]));
            return true;
        }
        i = i + 1;
    }
    proof {
        assert forall|n: Position| #[trigger] flanks(from, to, n) implies height(board@, n) >= piece_height by {
            assert(fl@.contains(n));
            let j = choose|j: int| 0 <= j < fl@.len() && fl@[j] == n;
        }
    }
    false
}

/// Whether `player` may put a new piece at `position`.
pub fn can_place(board: &Board, position: Position, player: Player) -> (res: bool)
    requires
        within(position, 1),
    ensures
        res == spec_can_place(board@, position, player),
{
    if board.num_stacks() == 0 {
        return true;
    }
    !is_occupied(position, board)
        && is_on_hive(board, position, None)
        && !adjacent_to_opponent(board, position, player)
}

/// Whether the hive stays in one piece when the stack at `from` is lifted:
/// every two other occupied cells are joined by a chain of adjacent occupied cells.
pub fn preserves_hive(board: &Board, from: Position) -> (res: bool)
    requires
        board_within(board@, 1),
    ensures
        res == hive_connected(board@.dom().remove(from)),
{
    let keys = board.positions();
    let ghost s = board@.dom().remove(from);
    let mut remaining: Vec<Position> = Vec::new();
    let mut i: usize = 0;
    while i < keys.len()
        invariant
            forall|p: Position| #[trigger] keys@.contains(p) <==> board@.dom().contains(p),
            keys@.no_duplicates(),
            i <= keys@.len(),
            remaining@.no_duplicates(),
            forall|p: Position| #[trigger] remaining@.contains(p) <==>
                (exists|a: int| 0 <= a < i && keys@[a] == p) && p != from,
        decreases keys@.len() - i,
    {
        let k = keys[i];
        let ghost old_rem = remaining@;
        if k != from {
            assert(!old_rem.contains(k)) by {
                if old_rem.contains(k) {
                    let a = choose|a: int| 0 <= a < i && keys@[a] == k;
                    assert(keys@[a] == keys@[i as int]);
                }
            }
            remaining.push(k);
            proof { lemma_push_no_duplicates(old_rem, k); }
        }
        proof {
            assert forall|p: Position| #[trigger] remaining@.contains(p) <==>
                (exists|a: int| 0 <= a < i + 1 && keys@[a] == p) && p != from by {
                lemma_push_contains(old_rem, k, p);
                if (exists|a: int| 0 <= a < i + 1 && keys@[a] == p) && p != from {
                    let a = choose|a: int| 0 <= a < i + 1 && keys@[a] == p;
                    if a < i {
                        assert(old_rem.contains(p));
                    }
                }
            }
        }
        i = i + 1;
    }
    proof {
        assert forall|p: Position| #[trigger] remaining@.contains(p) <==> s.contains(p) by {
            if remaining@.contains(p) {
                let a = choose|a: int| 0 <= a < keys@.len() && keys@[a] == p;
                assert(keys@.contains(keys@[a]));
            }
            if s.contains(p) {
                assert(keys@.contains(p));
                let a = choose|a: int| 0 <= a < keys@.len() && keys@[a] == p;
            }
        }
        assert(remaining@.to_set() =~= s);
        remaining@.unique_seq_to_set();
    }
    if remaining.len() == 0 {
        proof {
            assert forall|a: Position, b: Position| s.contains(a) && s.contains(b)
                implies #[trigger] reachable(conn_step(s), a, b) by {
                assert(remaining@.contains(a));
            }
        }
        return true;
    }
    let start = remaining[0];
    proof {
        assert(remaining@.contains(start));
        assert forall|p: Position| #[trigger] remaining@.contains(p) implies within(p, 1) by {
            assert(board@.dom().contains(p));
        }
    }
    let comp = connected_positions(&remaining, start);
    proof {
        let st = conn_step(s);
        assert(remaining@.to_set() == s);
        assert forall|p: Position| #[trigger] comp@.contains(p) implies s.contains(p) by {
            lemma_conn_stays_inside(s, start, p);
        }
        comp@.unique_seq_to_set();
        assert(comp@.to_set().subset_of(s));
        if comp@.len() == remaining@.len() {
            vstd::set_lib::lemma_subset_equality(comp@.to_set(), s);
            assert forall|a: Position, b: Position| s.contains(a) && s.contains(b)
                implies #[trigger] reachable(st, a, b) by {
                assert(comp@.to_set().contains(a));
                assert(comp@.to_set().contains(b));
                lemma_conn_symmetric(s, start, a);
                lemma_reach_trans(st, a, start, b);
            }
        } else {
            if hive_connected(s) {
                assert forall|p: Position| s.contains(p) implies #[trigger] comp@.to_set().contains(p) by {
                    assert(reachable(st, start, p));
                }
                assert(comp@.to_set() =~= s);
            }
        }
    }
    comp.len() == remaining.len()
}

/// The cells where `player` may put a new piece, each once.
pub fn legal_placements(board: &Board, player: Player) -> (res: Vec<Position>)
    requires
        board_within(board@, 2),
    ensures
        res@.no_duplicates(),
        forall|p: Position| #[trigger] res@.contains(p) <==> is_legal_placement(board@, player, p),
{
    let n = board.num_stacks();
    if n == 0 {
        let mut res: Vec<Position> = Vec::new();
        res.push(Position { q: 0, r: 0 });
        proof {
            assert forall|p: Position| #[trigger] res@.contains(p) <==> is_legal_placement(board@, player, p) by {
                lemma_push_contains(Seq::<Position>::empty(), Position { q: 0, r: 0 }, p);
            }
        }
        return res;
    }
    let keys = board.positions();
    if n == 1 {
        let k = keys[0];
        assert(board@.dom().contains(k)) by {
            assert(keys@.contains(keys@[0]));
        }
        proof {
            lemma_neighbors_are_adjacent(k);
            assert forall|p: Position| #[trigger] spec_neighbors(k).contains(p) <==> is_legal_placement(board@, player, p) by {
                if next_to_hive(board@, p) {
                    let k2 = choose|k2: Position| #[trigger] board@.dom().contains(k2) && spec_neighbors(k2).contains(p);
                    if k2 != k {
                        assert(keys@.contains(k2));
                        let a = choose|a: int| 0 <= a < keys@.len() && keys@[a] == k2;
                        assert(a != 0);
                    }
                }
            }
        }
        return neighbors(k);
    }
    let mut res: Vec<Position> = Vec::new();
    let mut i: usize = 0;
    while i < keys.len()
        invariant
            board_within(board@, 2),
            forall|p: Position| #[trigger] keys@.contains(p) <==> board@.dom().contains(p),
            i <= keys@.len(),
            res@.no_duplicates(),
            forall|p: Position| #[trigger] res@.contains(p) <==>
                ((exists|a: int| 0 <= a < i && #[trigger] spec_neighbors(keys@[a]).contains(p))
                    && spec_can_place(board@, p, player)),
        decreases keys@.len() - i,
    {
        let k = keys[i];
        assert(keys@.contains(k));
        let ns = neighbors(k);
        let mut j: usize = 0;
        while j < ns.len()
            invariant
                board_within(board@, 2),
                board@.dom().contains(k),
                k == keys@[i as int],
                i < keys@.len(),
                ns@ == spec_neighbors(k),
                j <= ns@.len(),
                res@.no_duplicates(),
                forall|p: Position| #[trigger] res@.contains(p) <==>
                    ((exists|a: int| 0 <= a < i && #[trigger] spec_neighbors(keys@[a]).contains(p))
                        || (exists|b: int| 0 <= b < j && ns@[b] == p))
                    && spec_can_place(board@, p, player),
            decreases ns@.len() - j,
        {
            let c = ns[j];
            proof {
                assert(spec_neighbors(k).contains(c));
                lemma_neighbor_within(k, c, 1);
            }
            let ghost old_res = res@;
            if can_place(board, c, player) && !contains_position(&res, c) {
                res.push(c);
                proof {
                    lemma_push_no_duplicates(old_res, c);
                }
            }
            proof {
                assert forall|p: Position| #[trigger] res@.contains(p) <==>
                    ((exists|a: int| 0 <= a < i && #[trigger] spec_neighbors(keys@[a]).contains(p))
                        || (exists|b: int| 0 <= b < j + 1 && ns@[b] == p))
                    && spec_can_place(board@, p, player) by {
                    lemma_push_contains(old_res, c, p);
                    if exists|b: int| 0 <= b < j + 1 && ns@[b] == p {
                        let b = choose|b: int| 0 <= b < j + 1 && ns@[b] == p;
                        if b < j {
                            assert(exists|b2: int| 0 <= b2 < j && ns@[b2] == p);
                        }
                    }
                }
            }
            j = j + 1;
        }
        proof {
            assert forall|p: Position| #[trigger] res@.contains(p) <==>
                ((exists|a: int| 0 <= a < i + 1 && #[trigger] spec_neighbors(keys@[a]).contains(p))
                    && spec_can_place(board@, p, player)) by {
                if exists|b: int| 0 <= b < j && ns@[b] == p {
                    let b = choose|b: int| 0 <= b < j && ns@[b] == p;
                    assert(spec_neighbors(keys@[i as int]).contains(p));
                }
                if exists|a: int| 0 <= a < i + 1 && #[trigger] spec_neighbors(keys@[a]).contains(p) {
                    let a = choose|a: int| 0 <= a < i + 1 && #[trigger] spec_neighbors(keys@[a]).contains(p);
                    if a == i {
                        let b = choose|b: int| 0 <= b < ns@.len() && ns@[b] == p;
                        assert(exists|b2: int| 0 <= b2 < j && ns@[b2] == p);
                    }
                }
            }
        }
        i = i + 1;
    }
    proof {
        assert forall|p: Position| #[trigger] res@.contains(p) <==> is_legal_placement(board@, player, p) by {
            if exists|a: int| 0 <= a < keys@.len() && #[trigger] spec_neighbors(keys@[a]).contains(p) {
                let a = choose|a: int| 0 <= a < keys@.len() && #[trigger] spec_neighbors(keys@[a]).contains(p);
                assert(keys@.contains(keys@[a]));
                assert(board@.dom().contains(keys@[a]));
            }
            if next_to_hive(board@, p) {
                let k2 = choose|k2: Position| #[trigger] board@.dom().contains(k2) && spec_neighbors(k2).contains(p);
                assert(keys@.contains(k2));
                let a = choose|a: int| 0 <= a < keys@.len() && keys@[a] == k2;
                assert(spec_neighbors(keys@[a]).contains(p));
            }
        }
    }
    res
}

} // verus!
