//! Geometry of the hexagonal grid in axial coordinates.

use vstd::prelude::*;
use crate::types::Position;

verus! {

/// `p` lies at least `margin` cells away from the edges of the `i32` grid, so
/// that coordinates up to `margin` steps away can be computed without overflow.
pub open spec fn within(p: Position, margin: int) -> bool {
    &&& i32::MIN + margin <= p.q <= i32::MAX - margin
    &&& i32::MIN + margin <= p.r <= i32::MAX - margin
}

/// The cell at offset (`dq`, `dr`) from `p`.
pub open spec fn offset(p: Position, dq: int, dr: int) -> Position {
    Position { q: (p.q + dq) as i32, r: (p.r + dr) as i32 }
}

/// The six neighbours of `p`, in the order in which the rules visit them.
pub open spec fn spec_neighbors(p: Position) -> Seq<Position> {
    seq![
        offset(p, 0, 1),
        offset(p, 1, -1),
        offset(p, 1, 0),
        offset(p, 0, -1),
        offset(p, -1, 1),
        offset(p, -1, 0),
    ]
}

/// `b` is one of the six cells that share an edge with `a`.
pub open spec fn adjacent(a: Position, b: Position) -> bool {
    let dq = b.q - a.q;
    let dr = b.r - a.r;
    ||| dq == 0 && dr == 1
    ||| dq == 1 && dr == -1
    ||| dq == 1 && dr == 0
    ||| dq == 0 && dr == -1
    ||| dq == -1 && dr == 1
    ||| dq == -1 && dr == 0
}

/// The cells that are neighbours of both `a` and `b`.
pub open spec fn flanks(a: Position, b: Position, n: Position) -> bool {
    spec_neighbors(a).contains(n) && spec_neighbors(b).contains(n)
}

/// The listed neighbours of `p` are exactly the cells adjacent to `p`, each once.
pub proof fn lemma_neighbors_are_adjacent(p: Position)
    requires
        within(p, 1),
    ensures
        spec_neighbors(p).len() == 6,
        spec_neighbors(p).no_duplicates(),
        forall|x: Position| #[trigger] spec_neighbors(p).contains(x) <==> adjacent(p, x),
        !spec_neighbors(p).contains(p),
{
    let s = spec_neighbors(p);
    assert(s[0] == Position { q: p.q, r: (p.r + 1) as i32 });
    assert(s[1] == Position { q: (p.q + 1) as i32, r: (p.r - 1) as i32 });
    assert(s[2] == Position { q: (p.q + 1) as i32, r: p.r });
    assert(s[3] == Position { q: p.q, r: (p.r - 1) as i32 });
    assert(s[4] == Position { q: (p.q - 1) as i32, r: (p.r + 1) as i32 });
    assert(s[5] == Position { q: (p.q - 1) as i32, r: p.r });
    assert forall|x: Position| #[trigger] s.contains(x) <==> adjacent(p, x) by {
        if adjacent(p, x) {
            let dq = x.q - p.q;
            let dr = x.r - p.r;
            if dq == 0 && dr == 1 {
                assert(s[0] == x);
            } else if dq == 1 && dr == -1 {
                assert(s[1] == x);
            } else if dq == 1 && dr == 0 {
                assert(s[2] == x);
            } else if dq == 0 && dr == -1 {
                assert(s[3] == x);
            } else if dq == -1 && dr == 1 {
                assert(s[4] == x);
            } else {
                assert(s[5] == x);
            }
        }
    }
    assert(s.no_duplicates()) by {
        assert forall|i: int, j: int| 0 <= i < 6 && 0 <= j < 6 && i != j implies s[i] != s[j] by {}
    }
}

/// A neighbour of a cell that lies `margin + 1` cells inside the grid lies
/// `margin` cells inside it.
pub proof fn lemma_neighbor_within(p: Position, n: Position, margin: int)
    requires
        within(p, margin + 1),
        margin >= 0,
        spec_neighbors(p).contains(n),
    ensures
        within(n, margin),
        adjacent(p, n),
        adjacent(n, p),
{
    lemma_neighbors_are_adjacent(p);
}

/// Adjacency is symmetric: `b` neighbours `a` exactly when `a` neighbours `b`.
pub proof fn lemma_adjacent_symmetric(a: Position, b: Position)
    ensures
        adjacent(a, b) <==> adjacent(b, a),
{
}

/// Two cells flank the gap between `a` and `b` exactly when they flank the gap
/// between `b` and `a`.
pub proof fn lemma_flanks_symmetric(a: Position, b: Position, n: Position)
    ensures
        flanks(a, b, n) <==> flanks(b, a, n),
{
}

/// The six neighbours of `pos`, in the fixed order
/// (0, 1), (1, -1), (1, 0), (0, -1), (-1, 1), (-1, 0).
pub fn neighbors(pos: Position) -> (res: Vec<Position>)
    requires
        within(pos, 1),
    ensures
        res@ == spec_neighbors(pos),
{
    let mut res: Vec<Position> = Vec::new();
    res.push(Position { q: pos.q, r: pos.r + 1 });
    res.push(Position { q: pos.q + 1, r: pos.r - 1 });
    res.push(Position { q: pos.q + 1, r: pos.r });
    res.push(Position { q: pos.q, r: pos.r - 1 });
    res.push(Position { q: pos.q - 1, r: pos.r + 1 });
    res.push(Position { q: pos.q - 1, r: pos.r });
    assert(res@ =~= spec_neighbors(pos));
    res
}

/// Pushing `x` onto `s` adds `x` and keeps every element of `s`.
pub proof fn lemma_push_contains<A>(s: Seq<A>, x: A, m: A)
    ensures
        s.push(x).contains(m) <==> (s.contains(m) || m == x),
{
    if s.push(x).contains(m) {
        let k = choose|k: int| 0 <= k < s.push(x).len() && s.push(x)[k] == m;
        if k < s.len() {
            assert(s[k] == m);
        }
    }
    if s.contains(m) {
        let k = choose|k: int| 0 <= k < s.len() && s[k] == m;
        assert(s.push(x)[k] == m);
    }
    assert(s.push(x)[s.len() as int] == x);
}

/// Pushing an element that is not yet in a duplicate-free sequence keeps it
/// duplicate-free.
pub proof fn lemma_push_no_duplicates<A>(s: Seq<A>, x: A)
    requires
        s.no_duplicates(),
        !s.contains(x),
    ensures
        s.push(x).no_duplicates(),
{
    assert forall|i: int, j: int| 0 <= i < s.len() + 1 && 0 <= j < s.len() + 1 && i != j
        implies s.push(x)[i] != s.push(x)[j] by {
        if i < s.len() && j < s.len() {
        } else if i < s.len() {
            assert(s.contains(s[i]));
        } else {
            assert(s.contains(s[j]));
        }
    }
}

/// Whether `p` occurs in `v`.
pub fn contains_position(v: &Vec<Position>, p: Position) -> (res: bool)
    ensures
        res == v@.contains(p),
{
    let mut i: usize = 0;
    while i < v.len()
        invariant
            i <= v.len(),
            forall|j: int| 0 <= j < i ==> v@[j] != p,
        decreases v.len() - i,
    {
        if v[i] == p {
            assert(v@[i as int] == p);
            return true;
        }
        i = i + 1;
    }
    false
}

/// The cells that neighbour both `a` and `b`, each once.
pub fn flanking_positions(a: Position, b: Position) -> (res: Vec<Position>)
    requires
        within(a, 1),
        within(b, 1),
    ensures
        res@.no_duplicates(),
        forall|n: Position| #[trigger] res@.contains(n) <==> flanks(a, b, n),
{
    proof {
        lemma_neighbors_are_adjacent(a);
    }
    let na = neighbors(a);
    let nb = neighbors(b);
    let mut res: Vec<Position> = Vec::new();
    let mut i: usize = 0;
    while i < na.len()
        invariant
            na@ == spec_neighbors(a),
            nb@ == spec_neighbors(b),
            na@.no_duplicates(),
            i <= na.len(),
            res@.no_duplicates(),
            forall|n: Position| #[trigger] res@.contains(n) <==>
                (exists|j: int| 0 <= j < i && na@[j] == n) && nb@.contains(n),
        decreases na.len() - i,
    {
        let n = na[i];
        let ghost old_res = res@;
        if contains_position(&nb, n) {
            assert(!old_res.contains(n)) by {
                if old_res.contains(n) {
                    let j = choose|j: int| 0 <= j < i && na@[j] == n;
                    assert(na@[j] == na@[i as int]);
                }
            }
            res.push(n);
            proof {
                lemma_push_no_duplicates(old_res, n);
            }
        }
        assert forall|m: Position| #[trigger] res@.contains(m) <==>
            (exists|j: int| 0 <= j < i + 1 && na@[j] == m) && nb@.contains(m) by {
            lemma_push_contains(old_res, n, m);
            if (exists|j: int| 0 <= j < i + 1 && na@[j] == m) && nb@.contains(m) {
                let j = choose|j: int| 0 <= j < i + 1 && na@[j] == m;
                if j < i {
                    assert(old_res.contains(m));
                }
            }
        }
        i = i + 1;
    }
    res
}

} // verus!
