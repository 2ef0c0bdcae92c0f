//! Counting pieces: on the board, and in the players' hands.

use vstd::prelude::*;
use vstd::multiset::Multiset;
use vstd::set::fold::is_fun_commutative;
use crate::types::{Piece, PieceKind, Player, Position, Move};
use crate::board::{valid_board, stack_of, spec_place, spec_move};
use crate::rules::occupied;
use crate::game::{board_after, hands_after};
use crate::game::{kinds_distinct, hands_wf, take_from_hand, take_from_hands, decrement, keeps, can_take};

verus! {

/// How many pieces of `kind` a hand holds, over all its entries for that kind.
pub open spec fn kind_total(h: Seq<(PieceKind, u8)>, kind: PieceKind) -> nat
    decreases h.len(),
{
    if h.len() == 0 {
        0
    } else {
        kind_total(h.drop_last(), kind) + if h.last().0 == kind { h.last().1 as nat } else { 0 }
    }
}

/// How many entries of a hand are for `kind`.
pub open spec fn kind_entries(h: Seq<(PieceKind, u8)>, kind: PieceKind) -> nat
    decreases h.len(),
{
    if h.len() == 0 {
        0
    } else {
        kind_entries(h.drop_last(), kind) + if h.last().0 == kind { 1nat } else { 0 }
    }
}

/// How many pieces of `kind` the hands hold for `player`.
pub open spec fn hand_count(hands: Seq<(Player, Seq<(PieceKind, u8)>)>, player: Player, kind: PieceKind) -> nat
    decreases hands.len(),
{
    if hands.len() == 0 {
        0
    } else {
        hand_count(hands.drop_last(), player, kind)
            + if hands.last().0 == player { kind_total(hands.last().1, kind) } else { 0 }
    }
}

/// How many entries for `kind` the hands of `player` hold.
pub open spec fn entries_for(hands: Seq<(Player, Seq<(PieceKind, u8)>)>, player: Player, kind: PieceKind) -> nat
    decreases hands.len(),
{
    if hands.len() == 0 {
        0
    } else {
        entries_for(hands.drop_last(), player, kind)
            + if hands.last().0 == player { kind_entries(hands.last().1, kind) } else { 0 }
    }
}

/// Taking a piece of `kind` from a hand keeps its kinds apart, lists only
/// kinds the hand listed, and lowers the count of `kind` by one per entry for it.
pub proof fn lemma_take_from_hand(h: Seq<(PieceKind, u8)>, kind: PieceKind)
    requires
        forall|i: int| 0 <= i < h.len() && #[trigger] h[i].0 == kind ==> h[i].1 > 0,
    ensures
        forall|a: int| 0 <= a < take_from_hand(h, kind).len() ==>
            exists|i: int| 0 <= i < h.len() && h[i].0 == (#[trigger] take_from_hand(h, kind)[a]).0,
        kinds_distinct(h) ==> kinds_distinct(take_from_hand(h, kind)),
        forall|k2: PieceKind| #[trigger] kind_total(take_from_hand(h, kind), k2)
            + (if k2 == kind { kind_entries(h, kind) } else { 0 }) == kind_total(h, k2),
    decreases h.len(),
{
    let t = take_from_hand(h, kind);
    if h.len() == 0 {
        reveal(Seq::filter);
        assert(t =~= Seq::<(PieceKind, u8)>::empty());
    } else {
        let h0 = h.drop_last();
        assert forall|i: int| 0 <= i < h0.len() && #[trigger] h0[i].0 == kind implies h0[i].1 > 0 by {
            assert(h0[i] == h[i]);
        }
        lemma_take_from_hand(h0, kind);
        let t0 = take_from_hand(h0, kind);
        let e = decrement(kind)(h.last());
        let mapped0 = h0.map_values(decrement(kind));
        assert(h.map_values(decrement(kind)) =~= mapped0.push(e));
        mapped0.lemma_filter_push(e, keeps(kind));
        assert(t == if keeps(kind)(e) { t0.push(e) } else { t0 });
        assert(h.last().0 == kind ==> h.last().1 > 0) by {
            assert(h[h.len() - 1] == h.last());
        }
        assert forall|a: int| 0 <= a < t.len() implies
            exists|i: int| 0 <= i < h.len() && h[i].0 == (#[trigger] t[a]).0 by {
            if a < t0.len() {
                assert(t[a] == t0[a]);
                let i = choose|i: int| 0 <= i < h0.len() && h0[i].0 == (#[trigger] t0[a]).0;
                assert(h[i] == h0[i]);
            } else {
                assert(t[a] == e);
                assert(h[h.len() - 1].0 == e.0);
            }
        }
        if kinds_distinct(h) {
            assert(kinds_distinct(h0)) by {
                assert forall|a: int, b: int| 0 <= a < h0.len() && 0 <= b < h0.len() && a != b
                    implies h0[a].0 != h0[b].0 by {
                    assert(h0[a] == h[a] && h0[b] == h[b]);
                }
            }
            assert forall|a: int, b: int| 0 <= a < t.len() && 0 <= b < t.len() && a != b
                implies t[a].0 != t[b].0 by {
                if a < t0.len() && b < t0.len() {
                    assert(t[a] == t0[a] && t[b] == t0[b]);
                } else if a < t0.len() {
                    assert(t[a] == t0[a] && t[b] == e);
                    let i = choose|i: int| 0 <= i < h0.len() && h0[i].0 == (#[trigger] t0[a]).0;
                    assert(h[i] == h0[i]);
                    assert(h[i].0 != h[h.len() - 1].0);
                } else {
                    assert(t[b] == t0[b] && t[a] == e);
                    let i = choose|i: int| 0 <= i < h0.len() && h0[i].0 == (#[trigger] t0[b]).0;
                    assert(h[i] == h0[i]);
                    assert(h[i].0 != h[h.len() - 1].0);
                }
            }
        }
        assert forall|k2: PieceKind| #[trigger] kind_total(t, k2)
            + (if k2 == kind { kind_entries(h, kind) } else { 0 }) == kind_total(h, k2) by {
            assert(kind_total(t0, k2) + (if k2 == kind { kind_entries(h0, kind) } else { 0 }) == kind_total(h0, k2));
            if keeps(kind)(e) {
                assert(t.drop_last() =~= t0);
                assert(t.last() == e);
            } else {
                assert(t == t0);
            }
        }
    }
}

/// Taking a piece of `kind` from `player` lowers that player's count of
/// `kind` by one per entry for it and leaves every other count alone.
pub proof fn lemma_take_from_hands(
    hands: Seq<(Player, Seq<(PieceKind, u8)>)>,
    player: Player,
    kind: PieceKind,
    p2: Player,
    k2: PieceKind,
)
    requires
        can_take(hands, player, kind),
    ensures
        hand_count(take_from_hands(hands, player, kind), p2, k2)
            + (if p2 == player && k2 == kind { entries_for(hands, player, kind) } else { 0 })
            == hand_count(hands, p2, k2),
    decreases hands.len(),
{
    if hands.len() > 0 {
        let h0 = hands.drop_last();
        let e = hands.last();
        assert(can_take(h0, player, kind)) by {
            assert forall|i: int, j: int| 0 <= i < h0.len() && h0[i].0 == player && 0 <= j < h0[i].1.len()
                && #[trigger] h0[i].1[j].0 == kind implies h0[i].1[j].1 > 0 by {
                assert(h0[i] == hands[i]);
            }
        }
        lemma_take_from_hands(h0, player, kind, p2, k2);
        let t = take_from_hands(hands, player, kind);
        assert(t.drop_last() =~= take_from_hands(h0, player, kind));
        assert(t.last() == t[hands.len() - 1]);
        if e.0 == player {
            assert forall|i: int| 0 <= i < e.1.len() && #[trigger] e.1[i].0 == kind implies e.1[i].1 > 0 by {
                assert(hands[hands.len() - 1] == e);
                assert(hands[hands.len() - 1].1[i].0 == kind);
            }
            lemma_take_from_hand(e.1, kind);
            assert(kind_total(take_from_hand(e.1, kind), k2)
                + (if k2 == kind { kind_entries(e.1, kind) } else { 0 }) == kind_total(e.1, k2));
        }
    }
}

/// A hand with no entry for `kind` holds no piece of it.
proof fn lemma_no_entries(h: Seq<(PieceKind, u8)>, kind: PieceKind)
    requires
        forall|i: int| 0 <= i < h.len() ==> (#[trigger] h[i]).0 != kind,
    ensures
        kind_entries(h, kind) == 0,
        kind_total(h, kind) == 0,
    decreases h.len(),
{
    if h.len() > 0 {
        let h0 = h.drop_last();
        assert forall|i: int| 0 <= i < h0.len() implies (#[trigger] h0[i]).0 != kind by {
            assert(h0[i] == h[i]);
        }
        lemma_no_entries(h0, kind);
        assert(h[h.len() - 1] == h.last());
    }
}

/// A hand that lists each kind once has at most one entry for `kind`, and one
/// as soon as it holds a piece of `kind`.
proof fn lemma_one_entry(h: Seq<(PieceKind, u8)>, kind: PieceKind)
    requires
        kinds_distinct(h),
    ensures
        kind_entries(h, kind) <= 1,
        kind_total(h, kind) > 0 ==> kind_entries(h, kind) >= 1,
    decreases h.len(),
{
    if h.len() > 0 {
        let h0 = h.drop_last();
        assert(kinds_distinct(h0)) by {
            assert forall|a: int, b: int| 0 <= a < h0.len() && 0 <= b < h0.len() && a != b
                implies h0[a].0 != h0[b].0 by {
                assert(h0[a] == h[a] && h0[b] == h[b]);
            }
        }
        lemma_one_entry(h0, kind);
        if h.last().0 == kind {
            assert forall|i: int| 0 <= i < h0.len() implies (#[trigger] h0[i]).0 != kind by {
                assert(h0[i] == h[i]);
                assert(h[i].0 != h[h.len() - 1].0);
            }
            lemma_no_entries(h0, kind);
        }
    }
}

/// Hands with no entry for `player` hold nothing for that player.
proof fn lemma_no_hand(hands: Seq<(Player, Seq<(PieceKind, u8)>)>, player: Player, kind: PieceKind)
    requires
        forall|i: int| 0 <= i < hands.len() ==> (#[trigger] hands[i]).0 != player,
    ensures
        entries_for(hands, player, kind) == 0,
        hand_count(hands, player, kind) == 0,
    decreases hands.len(),
{
    if hands.len() > 0 {
        let h0 = hands.drop_last();
        assert forall|i: int| 0 <= i < h0.len() implies (#[trigger] h0[i]).0 != player by {
            assert(h0[i] == hands[i]);
        }
        lemma_no_hand(h0, player, kind);
        assert(hands[hands.len() - 1] == hands.last());
    }
}

/// In well-formed hands a player holding a piece of `kind` has exactly one
/// entry for it.
pub proof fn lemma_single_entry(hands: Seq<(Player, Seq<(PieceKind, u8)>)>, player: Player, kind: PieceKind)
    requires
        hands_wf(hands),
    ensures
        entries_for(hands, player, kind) <= 1,
        hand_count(hands, player, kind) > 0 ==> entries_for(hands, player, kind) == 1,
    decreases hands.len(),
{
    if hands.len() > 0 {
        let h0 = hands.drop_last();
        let e = hands.last();
        assert(hands_wf(h0)) by {
            assert forall|i: int, j: int| 0 <= i < h0.len() && 0 <= j < h0.len() && i != j
                implies h0[i].0 != h0[j].0 by {
                assert(h0[i] == hands[i] && h0[j] == hands[j]);
            }
            assert forall|i: int| 0 <= i < h0.len() implies kinds_distinct(#[trigger] h0[i].1) by {
                assert(h0[i] == hands[i]);
            }
        }
        lemma_single_entry(h0, player, kind);
        assert(hands[hands.len() - 1] == e);
        assert(kinds_distinct(hands[hands.len() - 1].1));
        lemma_one_entry(e.1, kind);
        if e.0 == player {
            assert forall|i: int| 0 <= i < h0.len() implies (#[trigger] h0[i]).0 != player by {
                assert(h0[i] == hands[i]);
                assert(hands[i].0 != hands[hands.len() - 1].0);
            }
            lemma_no_hand(h0, player, kind);
        }
    }
}

/// Taking a piece from a hand keeps the hands well formed.
pub proof fn lemma_take_keeps_hands_wf(hands: Seq<(Player, Seq<(PieceKind, u8)>)>, player: Player, kind: PieceKind)
    requires
        hands_wf(hands),
        can_take(hands, player, kind),
    ensures
        hands_wf(take_from_hands(hands, player, kind)),
{
    let t = take_from_hands(hands, player, kind);
    assert forall|i: int, j: int| 0 <= i < t.len() && 0 <= j < t.len() && i != j implies t[i].0 != t[j].0 by {
        assert(hands[i].0 != hands[j].0);
    }
    assert forall|i: int| 0 <= i < t.len() implies kinds_distinct(#[trigger] t[i].1) by {
        assert(kinds_distinct(hands[i].1));
        if hands[i].0 == player {
            assert forall|a: int| 0 <= a < hands[i].1.len() && #[trigger] hands[i].1[a].0 == kind
                implies hands[i].1[a].1 > 0 by {}
            lemma_take_from_hand(hands[i].1, kind);
        }
    }
}

/// Adds the pieces stacked at a cell of `m` to a collection of pieces.
pub open spec fn add_stack(m: Map<Position, Seq<Piece>>) -> spec_fn(Multiset<Piece>, Position) -> Multiset<Piece> {
    |acc: Multiset<Piece>, p: Position| acc.add(stack_of(m, p).to_multiset())
}

/// All pieces stacked on the cells of `s`.
pub open spec fn pieces_over(m: Map<Position, Seq<Piece>>, s: Set<Position>) -> Multiset<Piece> {
    s.fold(Multiset::empty(), add_stack(m))
}

/// All pieces on the board, at every level of every stack.
pub open spec fn board_pieces(m: Map<Position, Seq<Piece>>) -> Multiset<Piece> {
    pieces_over(m, m.dom())
}

proof fn lemma_add_stack_commutative(m: Map<Position, Seq<Piece>>)
    ensures
        is_fun_commutative(add_stack(m)),
{
    broadcast use vstd::multiset::group_multiset_axioms;
    let f = add_stack(m);
    assert forall|a1: Position, a2: Position, b: Multiset<Piece>| #[trigger] f(f(b, a2), a1) == f(f(b, a1), a2) by {
        assert(f(f(b, a2), a1) =~= f(f(b, a1), a2));
    }
}

/// The pieces on a finite set of cells are those on all but `c`, plus those at `c`.
proof fn lemma_pieces_split(m: Map<Position, Seq<Piece>>, s: Set<Position>, c: Position)
    requires
        s.finite(),
        s.contains(c),
    ensures
        pieces_over(m, s) == pieces_over(m, s.remove(c)).add(stack_of(m, c).to_multiset()),
{
    lemma_add_stack_commutative(m);
    vstd::set::fold::lemma_fold_insert(s.remove(c), Multiset::empty(), add_stack(m), c);
    assert(s.remove(c).insert(c) =~= s);
}

/// Two boards with the same stacks on the cells of `s` hold the same pieces there.
proof fn lemma_pieces_agree(m1: Map<Position, Seq<Piece>>, m2: Map<Position, Seq<Piece>>, s: Set<Position>)
    requires
        s.finite(),
        forall|p: Position| #[trigger] s.contains(p) ==> stack_of(m1, p) == stack_of(m2, p),
    ensures
        pieces_over(m1, s) == pieces_over(m2, s),
    decreases s.len(),
{
    if s.len() == 0 {
        assert(s =~= Set::<Position>::empty());
        vstd::set::fold::lemma_fold_empty(Multiset::<Piece>::empty(), add_stack(m1));
        vstd::set::fold::lemma_fold_empty(Multiset::<Piece>::empty(), add_stack(m2));
    } else {
        let c = s.choose();
        assert(s.contains(c));
        lemma_pieces_split(m1, s, c);
        lemma_pieces_split(m2, s, c);
        lemma_pieces_agree(m1, m2, s.remove(c));
    }
}

/// A cell without pieces adds nothing.
proof fn lemma_pieces_empty_cell(m: Map<Position, Seq<Piece>>, s: Set<Position>, c: Position)
    requires
        s.finite(),
        !s.contains(c),
        stack_of(m, c).len() == 0,
    ensures
        pieces_over(m, s.insert(c)) == pieces_over(m, s),
{
    broadcast use vstd::multiset::group_multiset_axioms;
    broadcast use vstd::seq_lib::to_multiset_len;
    lemma_pieces_split(m, s.insert(c), c);
    assert(s.insert(c).remove(c) =~= s);
    assert(stack_of(m, c).to_multiset().len() == 0);
    assert(stack_of(m, c).to_multiset() =~= Multiset::<Piece>::empty());
    assert(pieces_over(m, s).add(Multiset::<Piece>::empty()) =~= pieces_over(m, s));
}

/// Placing a piece adds exactly that piece to the board.
pub proof fn lemma_place_adds_piece(m: Map<Position, Seq<Piece>>, p: Position, x: Piece)
    requires
        valid_board(m),
    ensures
        board_pieces(spec_place(m, p, x)) == board_pieces(m).insert(x),
{
    broadcast use vstd::multiset::group_multiset_axioms;
    broadcast use vstd::seq_lib::to_multiset_build;
    let m2 = spec_place(m, p, x);
    let u = m.dom().insert(p);
    assert(m2.dom() =~= u);
    if !m.dom().contains(p) {
        lemma_pieces_empty_cell(m, m.dom(), p);
    } else {
        assert(u =~= m.dom());
    }
    lemma_pieces_split(m, u, p);
    lemma_pieces_split(m2, u, p);
    lemma_pieces_agree(m, m2, u.remove(p));
    assert(stack_of(m2, p) == stack_of(m, p).push(x));
    assert(board_pieces(m2) =~= board_pieces(m).insert(x));
}

/// Moving a piece keeps every piece on the board: the collection of pieces,
/// counted at every level of every stack, stays the same.
pub proof fn lemma_move_keeps_pieces(m: Map<Position, Seq<Piece>>, from: Position, to: Position)
    requires
        valid_board(m),
        occupied(m, from),
    ensures
        board_pieces(spec_move(m, from, to)) == board_pieces(m),
{
    broadcast use vstd::multiset::group_multiset_axioms;
    broadcast use vstd::seq_lib::to_multiset_build;
    let st = m[from];
    let top = st.last();
    let m2 = spec_move(m, from, to);
    if from == to {
        if st.len() == 1 {
            assert(st =~= Seq::<Piece>::empty().push(top));
        } else {
            assert(st.drop_last().push(top) =~= st);
        }
        assert(m2 =~= m);
    } else {
        let u = m.dom().insert(to);
        if !m.dom().contains(to) {
            lemma_pieces_empty_cell(m, m.dom(), to);
        } else {
            assert(u =~= m.dom());
        }
        if st.len() <= 1 {
            assert(m2.dom().insert(from) =~= u);
            assert(!m2.dom().contains(from));
            lemma_pieces_empty_cell(m2, m2.dom(), from);
        } else {
            assert(m2.dom() =~= u);
        }
        assert(u.remove(from).contains(to));
        lemma_pieces_split(m, u, from);
        lemma_pieces_split(m, u.remove(from), to);
        lemma_pieces_split(m2, u, from);
        lemma_pieces_split(m2, u.remove(from), to);
        assert forall|p: Position| #[trigger] u.remove(from).remove(to).contains(p)
            implies stack_of(m, p) == stack_of(m2, p) by {}
        lemma_pieces_agree(m, m2, u.remove(from).remove(to));
        assert(stack_of(m2, from) == st.drop_last());
        assert(stack_of(m2, to) == stack_of(m, to).push(top));
        assert(st.drop_last().push(top) =~= st);
        assert(st.to_multiset() =~= st.drop_last().to_multiset().insert(top));
        assert(board_pieces(m2) =~= board_pieces(m));
    }
}

/// A move neither creates nor loses pieces: for every piece, the copies on the
/// board plus those still in its owner's hand stay the same. A placement takes
/// a piece of a kind the mover holds; the hands are well formed.
pub proof fn lemma_apply_move_conserves_pieces(
    m: Map<Position, Seq<Piece>>,
    hands: Seq<(Player, Seq<(PieceKind, u8)>)>,
    turn: Player,
    mv: Move,
    x: Piece,
)
    requires
        valid_board(m),
        hands_wf(hands),
        mv matches Move::Move { from, .. } ==> occupied(m, from),
        mv matches Move::Place { kind, .. } ==> (hand_count(hands, turn, kind) >= 1 && can_take(hands, turn, kind)),
    ensures
        board_pieces(board_after(m, turn, mv)).count(x) + hand_count(hands_after(hands, turn, mv), x.owner, x.kind)
            == board_pieces(m).count(x) + hand_count(hands, x.owner, x.kind),
{
    broadcast use vstd::multiset::group_multiset_axioms;
    match mv {
        Move::Place { kind, at } => {
            let placed = Piece { kind, owner: turn };
            lemma_place_adds_piece(m, at, placed);
            lemma_take_from_hands(hands, turn, kind, x.owner, x.kind);
            lemma_single_entry(hands, turn, kind);
        },
        Move::Move { from, to } => {
            lemma_move_keeps_pieces(m, from, to);
        },
    }
}

} // verus!
