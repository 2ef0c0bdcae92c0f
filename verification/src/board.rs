//! The board: a finite map from cells to stacks of pieces, bottom first.

use vstd::prelude::*;
use crate::types::{Piece, Position};

verus! {

/// A board as a map is valid when finitely many cells are occupied and no
/// occupied cell holds an empty stack.
pub open spec fn valid_board(m: Map<Position, Seq<Piece>>) -> bool {
    &&& m.dom().finite()
    &&& forall|p: Position| #[trigger] m.dom().contains(p) ==> m[p].len() > 0
}

/// The stack at `p`, empty where nothing stands.
pub open spec fn stack_of(m: Map<Position, Seq<Piece>>, p: Position) -> Seq<Piece> {
    if m.dom().contains(p) { m[p] } else { Seq::empty() }
}

/// The board after `piece` is put on top of the stack at `p`.
pub open spec fn spec_place(m: Map<Position, Seq<Piece>>, p: Position, piece: Piece) -> Map<Position, Seq<Piece>> {
    m.insert(p, stack_of(m, p).push(piece))
}

/// The board after the top piece at `p` is taken away; a stack that becomes
/// empty leaves the board, and nothing changes where nothing stands.
pub open spec fn spec_remove(m: Map<Position, Seq<Piece>>, p: Position) -> Map<Position, Seq<Piece>> {
    if !m.dom().contains(p) {
        m
    } else if m[p].len() <= 1 {
        m.remove(p)
    } else {
        m.insert(p, m[p].drop_last())
    }
}

/// The board after the top piece at `from` moves onto the stack at `to`.
pub open spec fn spec_move(m: Map<Position, Seq<Piece>>, from: Position, to: Position) -> Map<Position, Seq<Piece>> {
    spec_place(spec_remove(m, from), to, m[from].last())
}

/// The cells of a list of entries, in order.
pub closed spec fn keys_of(s: Seq<(Position, Vec<Piece>)>) -> Seq<Position> {
    s.map_values(|e: (Position, Vec<Piece>)| e.0)
}

/// No cell occurs twice among the entries.
pub closed spec fn distinct_keys(s: Seq<(Position, Vec<Piece>)>) -> bool {
    forall|i: int, j: int| 0 <= i < s.len() && 0 <= j < s.len() && i != j ==> s[i].0 != s[j].0
}

/// The map that a list of entries with distinct cells stands for.
pub closed spec fn map_of(s: Seq<(Position, Vec<Piece>)>) -> Map<Position, Seq<Piece>> {
    Map::new(
        |p: Position| keys_of(s).contains(p),
        |p: Position| s[keys_of(s).index_of(p)].1@,
    )
}

proof fn lemma_map_of(s: Seq<(Position, Vec<Piece>)>)
    requires
        distinct_keys(s),
    ensures
        forall|k: int| 0 <= k < s.len() ==> #[trigger] map_of(s).dom().contains(s[k].0)
            && map_of(s)[s[k].0] == s[k].1@,
        forall|p: Position| #[trigger] map_of(s).dom().contains(p) <==>
            exists|k: int| 0 <= k < s.len() && s[k].0 == p,
        map_of(s).dom() == keys_of(s).to_set(),
        map_of(s).dom().finite(),
        map_of(s).dom().len() == s.len(),
{
    let ks = keys_of(s);
    assert forall|k: int| 0 <= k < s.len() implies #[trigger] map_of(s).dom().contains(s[k].0)
        && map_of(s)[s[k].0] == s[k].1@ by {
        assert(ks[k] == s[k].0);
        assert(ks.contains(s[k].0));
        let i = ks.index_of(s[k].0);
        assert(0 <= i < ks.len() && ks[i] == s[k].0);
        assert(i == k);
    }
    assert forall|p: Position| #[trigger] map_of(s).dom().contains(p) <==>
        exists|k: int| 0 <= k < s.len() && s[k].0 == p by {
        if ks.contains(p) {
            let k = choose|k: int| 0 <= k < ks.len() && ks[k] == p;
            assert(s[k].0 == p);
        }
        if exists|k: int| 0 <= k < s.len() && s[k].0 == p {
            let k = choose|k: int| 0 <= k < s.len() && s[k].0 == p;
            assert(ks[k] == p);
        }
    }
    assert(map_of(s).dom() =~= ks.to_set());
    assert(ks.no_duplicates()) by {
        assert forall|i: int, j: int| 0 <= i < ks.len() && 0 <= j < ks.len() && i != j
            implies ks[i] != ks[j] by {
            assert(ks[i] == s[i].0 && ks[j] == s[j].0);
        }
    }
    ks.unique_seq_to_set();
    vstd::seq_lib::seq_to_set_is_finite(ks);
}

/// The entry at `k` is kept when the top piece of entry `tgt` is taken away.
spec fn survives(s: Seq<(Position, Vec<Piece>)>, tgt: int, k: int) -> bool {
    k != tgt || s[k].1@.len() > 1
}

/// The board: each occupied cell holds a non-empty stack of pieces, bottom first.
#[derive(Debug)]
pub struct Board {
    stacks: Vec<(Position, Vec<Piece>)>,
}

impl View for Board {
    type V = Map<Position, Seq<Piece>>;

    closed spec fn view(&self) -> Map<Position, Seq<Piece>> {
        map_of(self.stacks@)
    }
}

impl Board {
    #[verifier::type_invariant]
    closed spec fn well_formed(self) -> bool {
        &&& distinct_keys(self.stacks@)
        &&& forall|i: int| 0 <= i < self.stacks@.len() ==> #[trigger] self.stacks@[i].1@.len() > 0
    }

    proof fn lemma_valid(self)
        requires
            self.well_formed(),
        ensures
            valid_board(self@),
            self@.dom().len() == self.stacks@.len(),
    {
        lemma_map_of(self.stacks@);
        assert forall|p: Position| #[trigger] self@.dom().contains(p) implies self@[p].len() > 0 by {
            let k = choose|k: int| 0 <= k < self.stacks@.len() && self.stacks@[k].0 == p;
            assert(self.stacks@[k].1@.len() > 0);
        }
    }

    /// The empty board.
    pub fn new() -> (res: Board)
        ensures
            res@ == Map::<Position, Seq<Piece>>::empty(),
            valid_board(res@),
    {
        let res = Board { stacks: Vec::new() };
        proof {
            lemma_map_of(res.stacks@);
            assert(res@ =~= Map::<Position, Seq<Piece>>::empty());
        }
        res
    }

    /// The index of the entry for `pos`, if any.
    fn find(&self, pos: Position) -> (res: Option<usize>)
        ensures
            match res {
                Some(i) => i < self.stacks@.len() && self.stacks@[i as int].0 == pos,
                None => forall|k: int| 0 <= k < self.stacks@.len() ==> self.stacks@[k].0 != pos,
            },
    {
        let mut i: usize = 0;
        while i < self.stacks.len()
            invariant
                i <= self.stacks@.len(),
                forall|k: int| 0 <= k < i ==> self.stacks@[k].0 != pos,
            decreases self.stacks@.len() - i,
        {
            if self.stacks[i].0 == pos {
                return Some(i);
            }
            i = i + 1;
        }
        None
    }

    /// Whether some stack stands at `pos`, and the stack standing there.
    pub fn stack_at(&self, pos: Position) -> (res: Option<&Vec<Piece>>)
        ensures
            valid_board(self@),
            match res {
                Some(s) => self@.dom().contains(pos) && s@ == self@[pos],
                None => !self@.dom().contains(pos),
            },
    {
        proof {
            use_type_invariant(self);
            self.lemma_valid();
            lemma_map_of(self.stacks@);
        }
        match self.find(pos) {
            Some(i) => Some(&self.stacks[i].1),
            None => None,
        }
    }

    /// The number of occupied cells.
    pub fn num_stacks(&self) -> (res: usize)
        ensures
            valid_board(self@),
            res == self@.dom().len(),
    {
        proof {
            use_type_invariant(self);
            self.lemma_valid();
        }
        self.stacks.len()
    }

    /// The occupied cells, each once.
    pub fn positions(&self) -> (res: Vec<Position>)
        ensures
            valid_board(self@),
            res@.no_duplicates(),
            res@.len() == self@.dom().len(),
            forall|p: Position| #[trigger] res@.contains(p) <==> self@.dom().contains(p),
    {
        proof {
            use_type_invariant(self);
            self.lemma_valid();
            lemma_map_of(self.stacks@);
        }
        let mut res: Vec<Position> = Vec::new();
        let mut i: usize = 0;
        while i < self.stacks.len()
            invariant
                i <= self.stacks@.len(),
                distinct_keys(self.stacks@),
                res@.len() == i,
                forall|k: int| 0 <= k < i ==> #[trigger] res@[k] == self.stacks@[k].0,
            decreases self.stacks@.len() - i,
        {
            res.push(self.stacks[i].0);
            i = i + 1;
        }
        proof {
            assert forall|p: Position| #[trigger] res@.contains(p) <==> self@.dom().contains(p) by {
                if res@.contains(p) {
                    let k = choose|k: int| 0 <= k < res@.len() && res@[k] == p;
                    assert(self.stacks@[k].0 == p);
                }
                if self@.dom().contains(p) {
                    let k = choose|k: int| 0 <= k < self.stacks@.len() && self.stacks@[k].0 == p;
                    assert(res@[k] == p);
                }
            }
            assert forall|i: int, j: int| 0 <= i < res@.len() && 0 <= j < res@.len() && i != j
                implies res@[i] != res@[j] by {}
        }
        res
    }
}

impl Board {
    /// The board with `piece` put on top of the stack at `position`
    /// (a new stack if the cell was empty).
    pub fn place_piece(&self, position: Position, piece: Piece) -> (res: Board)
        ensures
            res@ == spec_place(self@, position, piece),
            valid_board(res@),
    {
        proof {
            use_type_invariant(self);
            lemma_map_of(self.stacks@);
        }
        let idx = self.find(position);
        let ghost tgt: int = match idx {
            Some(i) => i as int,
            None => -1,
        };
        let mut out: Vec<(Position, Vec<Piece>)> = Vec::new();
        let mut j: usize = 0;
        while j < self.stacks.len()
            invariant
                j <= self.stacks@.len(),
                out@.len() == j,
                match idx {
                    Some(i) => i < self.stacks@.len() && self.stacks@[i as int].0 == position,
                    None => true,
                },
                forall|k: int| 0 <= k < self.stacks@.len() ==> #[trigger] self.stacks@[k].1@.len() > 0,
                tgt == match idx {
                    Some(i) => i as int,
                    None => -1,
                },
                forall|k: int| 0 <= k < j ==> #[trigger] out@[k].0 == self.stacks@[k].0,
                forall|k: int| 0 <= k < j ==> #[trigger] out@[k].1@ == if k == tgt {
                    self.stacks@[k].1@.push(piece)
                } else {
                    self.stacks@[k].1@
                },
            decreases self.stacks@.len() - j,
        {
            let mut st = copy_stack(&self.stacks[j].1);
            match idx {
                Some(i) => {
                    if i == j {
                        st.push(piece);
                    }
                },
                None => {},
            }
            let ghost prev = out@;
            out.push((self.stacks[j].0, st));
            assert(out@[j as int].1@ == if j == tgt {
                self.stacks@[j as int].1@.push(piece)
            } else {
                self.stacks@[j as int].1@
            });
            assert forall|k: int| 0 <= k < j + 1 implies #[trigger] out@[k].1@ == if k == tgt {
                self.stacks@[k].1@.push(piece)
            } else {
                self.stacks@[k].1@
            } by {
                if k < j {
                    assert(out@[k] == prev[k]);
                    assert(out@[k].1@ == prev[k].1@);
                }
            }
            j = j + 1;
        }
        let ghost looped = out@;
        match idx {
            Some(_) => {},
            None => {
                let mut st: Vec<Piece> = Vec::new();
                st.push(piece);
                out.push((position, st));
            },
        }
        proof {
            let n = self.stacks@.len();
            assert(distinct_keys(out@)) by {
                assert forall|a: int, b: int| 0 <= a < out@.len() && 0 <= b < out@.len() && a != b
                    implies out@[a].0 != out@[b].0 by {
                    if a < n && b < n {
                        assert(self.stacks@[a].0 != self.stacks@[b].0);
                    }
                }
            }
            assert forall|k: int| 0 <= k < out@.len() implies #[trigger] out@[k].1@.len() > 0 by {
                if k < n {
                    assert(self.stacks@[k].1@.len() > 0);
                    assert(out@[k] == looped[k]);
                    assert(looped[k].1@ == if k == tgt {
                        self.stacks@[k].1@.push(piece)
                    } else {
                        self.stacks@[k].1@
                    });
                }
            }
            lemma_map_of(out@);
            let m = self@;
            let r = spec_place(m, position, piece);
            assert forall|p: Position| #[trigger] map_of(out@).dom().contains(p) <==> r.dom().contains(p) by {
                if map_of(out@).dom().contains(p) {
                    let k = choose|k: int| 0 <= k < out@.len() && out@[k].0 == p;
                    if k < n {
                        assert(m.dom().contains(self.stacks@[k].0));
                    }
                }
                if r.dom().contains(p) && p != position {
                    let k = choose|k: int| 0 <= k < n && self.stacks@[k].0 == p;
                    assert(out@[k].0 == p);
                }
                if p == position {
                    match idx {
                        Some(i) => { assert(out@[i as int].0 == p); },
                        None => { assert(out@[n as int].0 == p); },
                    }
                }
            }
            assert forall|p: Position| #[trigger] map_of(out@).dom().contains(p) implies
                map_of(out@)[p] == r[p] by {
                let k = choose|k: int| 0 <= k < out@.len() && out@[k].0 == p;
                if k < n {
                    assert(m.dom().contains(self.stacks@[k].0));
                    assert(m[self.stacks@[k].0] == self.stacks@[k].1@);
                    if k == tgt {
                        assert(p == position);
                    } else {
                        match idx {
                            Some(i) => { assert(self.stacks@[i as int].0 != self.stacks@[k].0); },
                            None => {},
                        }
                    }
                } else {
                    assert(!m.dom().contains(position));
                }
            }
            assert(map_of(out@) =~= r);
        }
        let res = Board { stacks: out };
        proof {
            res.lemma_valid();
        }
        res
    }

    /// The board with the top piece at `position` taken away; a stack that
    /// becomes empty leaves the board, and an empty cell changes nothing.
    pub fn remove_piece(&self, position: Position) -> (res: Board)
        ensures
            res@ == spec_remove(self@, position),
            valid_board(res@),
    {
        proof {
            use_type_invariant(self);
            lemma_map_of(self.stacks@);
        }
        let idx = self.find(position);
        let ghost tgt: int = match idx {
            Some(i) => i as int,
            None => -1,
        };
        let mut out: Vec<(Position, Vec<Piece>)> = Vec::new();
        let ghost mut src: Seq<int> = Seq::empty();
        let mut j: usize = 0;
        while j < self.stacks.len()
            invariant
                j <= self.stacks@.len(),
                match idx {
                    Some(i) => i < self.stacks@.len() && self.stacks@[i as int].0 == position,
                    None => true,
                },
                forall|k: int| 0 <= k < self.stacks@.len() ==> #[trigger] self.stacks@[k].1@.len() > 0,
                tgt == match idx {
                    Some(i) => i as int,
                    None => -1,
                },
                out@.len() == src.len(),
                forall|t: int| 0 <= t < src.len() ==> 0 <= #[trigger] src[t] < j,
                forall|t: int, u: int| 0 <= t < u < src.len() ==> src[t] < src[u],
                forall|t: int| 0 <= t < src.len() ==> #[trigger] out@[t].0 == self.stacks@[src[t]].0,
                forall|t: int| 0 <= t < src.len() ==> #[trigger] out@[t].1@ == if src[t] == tgt {
                    self.stacks@[src[t]].1@.drop_last()
                } else {
                    self.stacks@[src[t]].1@
                },
                forall|t: int| 0 <= t < src.len() ==> #[trigger] out@[t].1@.len() > 0,
                forall|k: int| 0 <= k < j && #[trigger] survives(self.stacks@, tgt, k)
                    ==> exists|t: int| 0 <= t < src.len() && #[trigger] src[t] == k,
            decreases self.stacks@.len() - j,
        {
            let ghost before = src;
            let ghost prev = out@;
            let is_target = match idx {
                Some(i) => i == j,
                None => false,
            };
            assert(is_target <==> j == tgt);
            if is_target {
                if self.stacks[j].1.len() > 1 {
                    let mut st = copy_stack(&self.stacks[j].1);
                    st.pop();
                    out.push((self.stacks[j].0, st));
                    proof {
                        src = src.push(j as int);
                    }
                }
            } else {
                let st = copy_stack(&self.stacks[j].1);
                assert(self.stacks@[j as int].1@.len() > 0);
                out.push((self.stacks[j].0, st));
                proof {
                    src = src.push(j as int);
                }
            }
            proof {
                assert forall|t: int| 0 <= t < src.len() implies #[trigger] out@[t].1@.len() > 0
                    && out@[t].0 == self.stacks@[src[t]].0
                    && out@[t].1@ == (if src[t] == tgt {
                        self.stacks@[src[t]].1@.drop_last()
                    } else {
                        self.stacks@[src[t]].1@
                    }) by {
                    if t < before.len() {
                        assert(out@[t] == prev[t]);
                        assert(src[t] == before[t]);
                        assert(prev[t].1@.len() > 0);
                    }
                }
                assert forall|k: int| 0 <= k < j + 1 && #[trigger] survives(self.stacks@, tgt, k)
                    implies exists|t: int| 0 <= t < src.len() && #[trigger] src[t] == k by {
                    assert(self.stacks@[k].1@.len() > 0);
                    if k < j {
                        let t = choose|t: int| 0 <= t < before.len() && before[t] == k;
                        assert(src[t] == k);
                    } else {
                        assert(src[src.len() - 1] == k);
                    }
                }
            }
            j = j + 1;
        }
        proof {
            let n = self.stacks@.len();
            assert(distinct_keys(out@)) by {
                assert forall|a: int, b: int| 0 <= a < out@.len() && 0 <= b < out@.len() && a != b
                    implies out@[a].0 != out@[b].0 by {
                    if a < b {
                        assert(src[a] < src[b]);
                    } else {
                        assert(src[b] < src[a]);
                    }
                    assert(self.stacks@[src[a]].0 != self.stacks@[src[b]].0);
                }
            }
            lemma_map_of(out@);
            let m = self@;
            let r = spec_remove(m, position);
            assert forall|p: Position| #[trigger] map_of(out@).dom().contains(p) <==> r.dom().contains(p) by {
                if map_of(out@).dom().contains(p) {
                    let t = choose|t: int| 0 <= t < out@.len() && out@[t].0 == p;
                    let k = src[t];
                    assert(m.dom().contains(self.stacks@[k].0));
                    if p == position {
                        match idx {
                            Some(i) => {
                                if i as int != k {
                                    assert(self.stacks@[i as int].0 != self.stacks@[k].0);
                                }
                            },
                            None => {},
                        }
                    }
                }
                if r.dom().contains(p) {
                    let k = choose|k: int| 0 <= k < n && self.stacks@[k].0 == p;
                    match idx {
                        Some(i) => {
                            if i as int == k {
                                assert(m[p] == self.stacks@[k].1@);
                            }
                        },
                        None => {},
                    }
                    assert(survives(self.stacks@, tgt, k));
                    let t = choose|t: int| 0 <= t < src.len() && src[t] == k;
                    assert(out@[t].0 == p);
                }
            }
            assert forall|p: Position| #[trigger] map_of(out@).dom().contains(p) implies
                map_of(out@)[p] == r[p] by {
                let t = choose|t: int| 0 <= t < out@.len() && out@[t].0 == p;
                let k = src[t];
                assert(m.dom().contains(self.stacks@[k].0));
                assert(m[self.stacks@[k].0] == self.stacks@[k].1@);
                match idx {
                    Some(i) => {
                        if i as int != k {
                            assert(self.stacks@[i as int].0 != self.stacks@[k].0);
                        }
                    },
                    None => {},
                }
            }
            assert(map_of(out@) =~= r);
        }
        let res = Board { stacks: out };
        proof {
            res.lemma_valid();
        }
        res
    }

    /// The board with the top piece at `from` moved onto the stack at `to`.
    /// A stack must stand at `from`.
    pub fn move_piece(&self, from: Position, to: Position) -> (res: Board)
        requires
            self@.dom().contains(from),
        ensures
            res@ == spec_move(self@, from, to),
            valid_board(res@),
    {
        let stack = self.stack_at(from).unwrap();
        let piece = stack[stack.len() - 1];
        self.remove_piece(from).place_piece(to, piece)
    }
}

impl Clone for Board {
    /// A copy of the board with the same stacks.
    fn clone(&self) -> (res: Self)
        ensures
            res@ == self@,
    {
        proof {
            use_type_invariant(self);
            lemma_map_of(self.stacks@);
        }
        let mut out: Vec<(Position, Vec<Piece>)> = Vec::new();
        let mut j: usize = 0;
        while j < self.stacks.len()
            invariant
                j <= self.stacks@.len(),
                out@.len() == j,
                distinct_keys(self.stacks@),
                forall|k: int| 0 <= k < self.stacks@.len() ==> #[trigger] self.stacks@[k].1@.len() > 0,
                forall|k: int| 0 <= k < j ==> #[trigger] out@[k].0 == self.stacks@[k].0
                    && out@[k].1@ == self.stacks@[k].1@,
            decreases self.stacks@.len() - j,
        {
            let st = copy_stack(&self.stacks[j].1);
            out.push((self.stacks[j].0, st));
            j = j + 1;
        }
        proof {
            assert(distinct_keys(out@)) by {
                assert forall|a: int, b: int| 0 <= a < out@.len() && 0 <= b < out@.len() && a != b
                    implies out@[a].0 != out@[b].0 by {
                    assert(self.stacks@[a].0 != self.stacks@[b].0);
                }
            }
            assert forall|k: int| 0 <= k < out@.len() implies #[trigger] out@[k].1@.len() > 0 by {
                assert(out@[k].0 == self.stacks@[k].0);
                assert(self.stacks@[k].1@.len() > 0);
            }
            lemma_map_of(out@);
            assert forall|p: Position| #[trigger] map_of(out@).dom().contains(p) <==> self@.dom().contains(p) by {
                if map_of(out@).dom().contains(p) {
                    let k = choose|k: int| 0 <= k < out@.len() && out@[k].0 == p;
                    assert(self@.dom().contains(self.stacks@[k].0));
                }
                if self@.dom().contains(p) {
                    let k = choose|k: int| 0 <= k < self.stacks@.len() && self.stacks@[k].0 == p;
                    assert(map_of(out@).dom().contains(out@[k].0));
                }
            }
            assert forall|p: Position| #[trigger] map_of(out@).dom().contains(p) implies map_of(out@)[p] == self@[p] by {
                let k = choose|k: int| 0 <= k < out@.len() && out@[k].0 == p;
                assert(out@[k].0 == self.stacks@[k].0);
                assert(self@[self.stacks@[k].0] == self.stacks@[k].1@);
            }
            assert(map_of(out@) =~= self@);
        }
        Board { stacks: out }
    }
}

/// A fresh copy of a stack.
fn copy_stack(s: &Vec<Piece>) -> (res: Vec<Piece>)
    ensures
        res@ == s@,
{
    let mut res: Vec<Piece> = Vec::new();
    let mut i: usize = 0;
    while i < s.len()
        invariant
            i <= s@.len(),
            res@ == s@.take(i as int),
        decreases s@.len() - i,
    {
        res.push(s[i]);
        assert(s@.take(i + 1) =~= s@.take(i as int).push(s@[i as int]));
        i = i + 1;
    }
    assert(s@.take(s@.len() as int) =~= s@);
    res
}

} // verus!
