//! Walks over cells, reachability along a step relation, and the search that
//! computes a reachable set.

use vstd::prelude::*;
use crate::types::Position;
use crate::hex::{adjacent, within, spec_neighbors, neighbors, contains_position,
    lemma_neighbors_are_adjacent, lemma_push_contains, lemma_push_no_duplicates};

verus! {

/// `w` is a non-empty sequence of cells in which each cell steps to the next.
pub open spec fn is_walk(step: spec_fn(Position, Position) -> bool, w: Seq<Position>) -> bool {
    &&& w.len() > 0
    &&& forall|i: int, j: int| #![trigger w[i], w[j]] 0 <= i && j == i + 1 && j < w.len() ==> step(w[i], w[j])
}

/// Some walk leads from `a` to `b`.
pub open spec fn reachable(step: spec_fn(Position, Position) -> bool, a: Position, b: Position) -> bool {
    exists|w: Seq<Position>| #[trigger] is_walk(step, w) && w[0] == a && w.last() == b
}

/// One step inside the set `s`: to an adjacent cell of `s`.
pub open spec fn conn_step(s: Set<Position>) -> spec_fn(Position, Position) -> bool {
    |a: Position, b: Position| adjacent(a, b) && s.contains(b)
}

/// Every two cells of `s` are joined by a chain of adjacent cells of `s`.
pub open spec fn hive_connected(s: Set<Position>) -> bool {
    forall|a: Position, b: Position| s.contains(a) && s.contains(b) ==> #[trigger] reachable(conn_step(s), a, b)
}

/// Every cell reaches itself.
pub proof fn lemma_reach_refl(step: spec_fn(Position, Position) -> bool, a: Position)
    ensures
        reachable(step, a, a),
{
    let w = seq![a];
    assert(is_walk(step, w));
}

/// A walk to `b` followed by a step from `b` to `c` is a walk to `c`.
pub proof fn lemma_reach_extend(step: spec_fn(Position, Position) -> bool, a: Position, b: Position, c: Position)
    requires
        reachable(step, a, b),
        step(b, c),
    ensures
        reachable(step, a, c),
{
    let w = choose|w: Seq<Position>| #[trigger] is_walk(step, w) && w[0] == a && w.last() == b;
    let w2 = w.push(c);
    assert forall|i: int, j: int| #![trigger w2[i], w2[j]] 0 <= i && j == i + 1 && j < w2.len()
        implies step(w2[i], w2[j]) by {
        if j < w.len() {
            assert(w2[i] == w[i] && w2[j] == w[j]);
        } else {
            assert(w2[i] == b);
        }
    }
    assert(is_walk(step, w2));
    assert(w2[0] == a);
}

/// Reachability is transitive.
pub proof fn lemma_reach_trans(step: spec_fn(Position, Position) -> bool, a: Position, b: Position, c: Position)
    requires
        reachable(step, a, b),
        reachable(step, b, c),
    ensures
        reachable(step, a, c),
{
    let w = choose|w: Seq<Position>| #[trigger] is_walk(step, w) && w[0] == b && w.last() == c;
    lemma_reach_trans_walk(step, a, w, w.len() - 1);
}

proof fn lemma_reach_trans_walk(step: spec_fn(Position, Position) -> bool, a: Position, w: Seq<Position>, k: int)
    requires
        is_walk(step, w),
        reachable(step, a, w[0]),
        0 <= k < w.len(),
    ensures
        reachable(step, a, w[k]),
    decreases k,
{
    if k > 0 {
        lemma_reach_trans_walk(step, a, w, k - 1);
        assert(step(w[k - 1], w[k]));
        lemma_reach_extend(step, a, w[k - 1], w[k]);
    }
}

/// Every cell on a walk that starts in a set closed under `step` lies in the set.
pub proof fn lemma_closed_contains_reachable(
    step: spec_fn(Position, Position) -> bool,
    s: Seq<Position>,
    a: Position,
    b: Position,
)
    requires
        s.contains(a),
        forall|x: Position, y: Position| #[trigger] s.contains(x) && #[trigger] step(x, y) ==> s.contains(y),
        reachable(step, a, b),
    ensures
        s.contains(b),
{
    let w = choose|w: Seq<Position>| #[trigger] is_walk(step, w) && w[0] == a && w.last() == b;
    lemma_closed_walk(step, s, w, w.len() - 1);
}

proof fn lemma_closed_walk(step: spec_fn(Position, Position) -> bool, s: Seq<Position>, w: Seq<Position>, k: int)
    requires
        is_walk(step, w),
        s.contains(w[0]),
        forall|x: Position, y: Position| #[trigger] s.contains(x) && #[trigger] step(x, y) ==> s.contains(y),
        0 <= k < w.len(),
    ensures
        s.contains(w[k]),
    decreases k,
{
    if k > 0 {
        lemma_closed_walk(step, s, w, k - 1);
        assert(step(w[k - 1], w[k]));
    }
}

/// Every cell reached inside `s` from a cell of `s` lies in `s`.
pub proof fn lemma_conn_stays_inside(s: Set<Position>, a: Position, b: Position)
    requires
        s.contains(a),
        reachable(conn_step(s), a, b),
    ensures
        s.contains(b),
{
    let w = choose|w: Seq<Position>| #[trigger] is_walk(conn_step(s), w) && w[0] == a && w.last() == b;
    if w.len() > 1 {
        assert(conn_step(s)(w[w.len() - 2], w[w.len() - 1]));
    }
}

/// Inside a set, reachability is symmetric.
pub proof fn lemma_conn_symmetric(s: Set<Position>, a: Position, b: Position)
    requires
        s.contains(a),
        reachable(conn_step(s), a, b),
    ensures
        reachable(conn_step(s), b, a),
{
    let w = choose|w: Seq<Position>| #[trigger] is_walk(conn_step(s), w) && w[0] == a && w.last() == b;
    lemma_conn_symmetric_walk(s, w, w.len() - 1);
}

proof fn lemma_conn_symmetric_walk(s: Set<Position>, w: Seq<Position>, k: int)
    requires
        is_walk(conn_step(s), w),
        s.contains(w[0]),
        0 <= k < w.len(),
    ensures
        reachable(conn_step(s), w[k], w[0]),
        s.contains(w[k]),
    decreases k,
{
    let st = conn_step(s);
    if k == 0 {
        lemma_reach_refl(st, w[0]);
    } else {
        lemma_conn_symmetric_walk(s, w, k - 1);
        assert(st(w[k - 1], w[k]));
        let back = seq![w[k], w[k - 1]];
        assert(is_walk(st, back)) by {
            assert forall|i: int, j: int| #![trigger back[i], back[j]] 0 <= i && j == i + 1 && j < back.len()
                implies st(back[i], back[j]) by {
                assert(i == 0 && j == 1);
            }
        }
        assert(back[0] == w[k] && back.last() == w[k - 1]);
        lemma_reach_trans(st, w[k], w[k - 1], w[0]);
    }
}

/// A duplicate-free sequence whose elements all occur in `u` is no longer than `u`.
pub proof fn lemma_distinct_bound(a: Seq<Position>, u: Seq<Position>)
    requires
        a.no_duplicates(),
        forall|x: Position| #[trigger] a.contains(x) ==> u.contains(x),
    ensures
        a.len() <= u.len(),
{
    a.unique_seq_to_set();
    u.lemma_cardinality_of_set();
    vstd::seq_lib::seq_to_set_is_finite(u);
    assert(a.to_set().subset_of(u.to_set()));
    vstd::set_lib::lemma_len_subset(a.to_set(), u.to_set());
}

/// The cells reached from `start` by steps onto adjacent cells of `occupied`,
/// `start` included, each once.
pub fn connected_positions(occupied: &Vec<Position>, start: Position) -> (res: Vec<Position>)
    requires
        within(start, 1),
        forall|p: Position| #[trigger] occupied@.contains(p) ==> within(p, 1),
    ensures
        res@.no_duplicates(),
        forall|p: Position| #[trigger] res@.contains(p) <==> reachable(conn_step(occupied@.to_set()), start, p),
{
    let ghost st = conn_step(occupied@.to_set());
    let ghost u = occupied@.push(start);
    let mut visited: Vec<Position> = Vec::new();
    let mut stack: Vec<Position> = Vec::new();
    stack.push(start);
    proof {
        lemma_reach_refl(st, start);
        assert(u.contains(start)) by { assert(u[u.len() - 1] == start); }
        assert forall|x: Position| #[trigger] stack@.contains(x) implies u.contains(x)
            && reachable(st, start, x) by {
            lemma_push_contains(Seq::<Position>::empty(), start, x);
        }
        assert(stack@.contains(start)) by { assert(stack@[0] == start); }
        assert forall|x: Position| #[trigger] u.contains(x) implies within(x, 1) by {
            lemma_push_contains(occupied@, start, x);
        }
        assert forall|x: Position| #[trigger] occupied@.contains(x) implies u.contains(x) by {
            lemma_push_contains(occupied@, start, x);
        }
    }
    while stack.len() > 0
        invariant
            st == conn_step(occupied@.to_set()),
            u == occupied@.push(start),
            forall|x: Position| #[trigger] u.contains(x) ==> within(x, 1),
            forall|x: Position| #[trigger] occupied@.contains(x) ==> u.contains(x),
            visited@.no_duplicates(),
            forall|x: Position| #[trigger] visited@.contains(x) ==> u.contains(x) && reachable(st, start, x),
            forall|x: Position| #[trigger] stack@.contains(x) ==> u.contains(x) && reachable(st, start, x),
            visited@.contains(start) || stack@.contains(start),
            forall|x: Position, y: Position| #[trigger] visited@.contains(x) && #[trigger] st(x, y)
                ==> visited@.contains(y) || stack@.contains(y),
        decreases u.len() - visited@.len(), stack@.len(),
    {
        let ghost old_stack = stack@;
        let ghost old_visited = visited@;
        let c = stack.pop().unwrap();
        proof {
            assert(old_stack == stack@.push(c));
            assert forall|x: Position| #[trigger] old_stack.contains(x) implies stack@.contains(x) || x == c by {
                lemma_push_contains(stack@, c, x);
            }
            assert forall|x: Position| #[trigger] stack@.contains(x) implies old_stack.contains(x) by {
                lemma_push_contains(stack@, c, x);
            }
            lemma_push_contains(stack@, c, c);
            lemma_distinct_bound(visited@, u);
        }
        if !contains_position(&visited, c) {
            visited.push(c);
            proof {
                lemma_push_no_duplicates(old_visited, c);
                assert forall|x: Position| #[trigger] visited@.contains(x) implies old_visited.contains(x) || x == c by {
                    lemma_push_contains(old_visited, c, x);
                }
                assert forall|x: Position| #[trigger] old_visited.contains(x) implies visited@.contains(x) by {
                    lemma_push_contains(old_visited, c, x);
                }
                lemma_push_contains(old_visited, c, c);
                lemma_distinct_bound(visited@, u);
                lemma_neighbors_are_adjacent(c);
            }
            let ns = neighbors(c);
            let mut j: usize = 0;
            while j < ns.len()
                invariant
                    st == conn_step(occupied@.to_set()),
                    u == occupied@.push(start),
                    forall|x: Position| #[trigger] u.contains(x) ==> within(x, 1),
                    forall|x: Position| #[trigger] occupied@.contains(x) ==> u.contains(x),
                    ns@ == spec_neighbors(c),
                    forall|x: Position| #[trigger] spec_neighbors(c).contains(x) <==> adjacent(c, x),
                    visited@.contains(c),
                    reachable(st, start, c),
                    visited@.no_duplicates(),
                    visited@.len() <= u.len(),
                    j <= ns@.len(),
                    forall|x: Position| #[trigger] visited@.contains(x) ==> u.contains(x) && reachable(st, start, x),
                    forall|x: Position| #[trigger] stack@.contains(x) ==> u.contains(x) && reachable(st, start, x),
                    visited@.contains(start) || stack@.contains(start),
                    forall|x: Position, y: Position| #[trigger] visited@.contains(x) && #[trigger] st(x, y) && x != c
                        ==> visited@.contains(y) || stack@.contains(y),
                    forall|b: int| 0 <= b < j && #[trigger] st(c, ns@[b]) ==> visited@.contains(ns@[b]) || stack@.contains(ns@[b]),
                decreases ns@.len() - j,
            {
                let n = ns[j];
                let ghost before = stack@;
                if contains_position(occupied, n) && !contains_position(&visited, n) {
                    stack.push(n);
                    proof {
                        assert(st(c, n));
                        lemma_reach_extend(st, start, c, n);
                        assert forall|x: Position| #[trigger] stack@.contains(x) <==> before.contains(x) || x == n by {
                            lemma_push_contains(before, n, x);
                        }
                    }
                }
                proof {
                    assert forall|b: int| 0 <= b < j + 1 && #[trigger] st(c, ns@[b]) implies
                        visited@.contains(ns@[b]) || stack@.contains(ns@[b]) by {
                        if b == j {
                            assert(occupied@.to_set().contains(n));
                            assert(occupied@.contains(n));
                        }
                    }
                }
                j = j + 1;
            }
            proof {
                assert forall|x: Position, y: Position| #[trigger] visited@.contains(x) && #[trigger] st(x, y)
                    implies visited@.contains(y) || stack@.contains(y) by {
                    if x == c {
                        assert(adjacent(c, y));
                        assert(spec_neighbors(c).contains(y));
                        let b = choose|b: int| 0 <= b < ns@.len() && ns@[b] == y;
                        assert(st(c, ns@[b]));
                    }
                }
            }
        } else {
            proof {
                assert forall|x: Position, y: Position| #[trigger] visited@.contains(x) && #[trigger] st(x, y)
                    implies visited@.contains(y) || stack@.contains(y) by {
                    assert(old_visited.contains(y) || old_stack.contains(y));
                }
            }
        }
    }
    proof {
        assert forall|p: Position| #[trigger] visited@.contains(p) <==> reachable(st, start, p) by {
            if reachable(st, start, p) {
                lemma_closed_contains_reachable(st, visited@, start, p);
            }
        }
    }
    visited
}

} // verus!
