//! A text picture of the board, one line per row of the grid.

use vstd::prelude::*;
use crate::types::{Piece, PieceKind, Player, Position};
use crate::board::Board;
use crate::rules::occupied;

verus! {

/// The letter of a piece: its kind's initial (q for the bee), upper case for
/// White and lower case for Black.
pub open spec fn symbol(p: Piece) -> char {
    match (p.kind, p.owner) {
        (PieceKind::Bee, Player::White) => 'Q',
        (PieceKind::Bee, Player::Black) => 'q',
        (PieceKind::Ant, Player::White) => 'A',
        (PieceKind::Ant, Player::Black) => 'a',
        (PieceKind::Grasshopper, Player::White) => 'G',
        (PieceKind::Grasshopper, Player::Black) => 'g',
        (PieceKind::Beetle, Player::White) => 'B',
        (PieceKind::Beetle, Player::Black) => 'b',
        (PieceKind::Spider, Player::White) => 'S',
        (PieceKind::Spider, Player::Black) => 's',
    }
}

/// The letter of a piece.
pub fn piece_symbol(piece: &Piece) -> (res: char)
    ensures
        res == symbol(*piece),
{
    match (piece.kind, piece.owner) {
        (PieceKind::Bee, Player::White) => 'Q',
        (PieceKind::Bee, Player::Black) => 'q',
        (PieceKind::Ant, Player::White) => 'A',
        (PieceKind::Ant, Player::Black) => 'a',
        (PieceKind::Grasshopper, Player::White) => 'G',
        (PieceKind::Grasshopper, Player::Black) => 'g',
        (PieceKind::Beetle, Player::White) => 'B',
        (PieceKind::Beetle, Player::Black) => 'b',
        (PieceKind::Spider, Player::White) => 'S',
        (PieceKind::Spider, Player::Black) => 's',
    }
}

/// Appends `c` to the end of `s`, through `String::push`.
/// Trusted: the standard library documents `push` as appending the given
/// character to the end of the string; nothing here proves it.
#[verifier::external_body]
fn push_char(s: &mut String, c: char)
    ensures
        final(s)@ == old(s)@.push(c),
{
    s.push(c);
}

/// `(lo_q, hi_q, lo_r, hi_r)` are the least and greatest coordinates of the
/// occupied cells.
pub open spec fn is_frame(m: Map<Position, Seq<Piece>>, f: (i32, i32, i32, i32)) -> bool {
    &&& forall|p: Position| #[trigger] m.dom().contains(p) ==> f.0 <= p.q <= f.1 && f.2 <= p.r <= f.3
    &&& exists|p: Position| #[trigger] m.dom().contains(p) && p.q == f.0
    &&& exists|p: Position| #[trigger] m.dom().contains(p) && p.q == f.1
    &&& exists|p: Position| #[trigger] m.dom().contains(p) && p.r == f.2
    &&& exists|p: Position| #[trigger] m.dom().contains(p) && p.r == f.3
}

/// The smallest rectangle of rows and columns that holds every occupied cell.
pub open spec fn frame(m: Map<Position, Seq<Piece>>) -> (i32, i32, i32, i32) {
    choose|f: (i32, i32, i32, i32)| is_frame(m, f)
}

/// The character drawn for cell (`q`, `r`): the top piece's letter, or `.`.
pub open spec fn cell_char(m: Map<Position, Seq<Piece>>, q: int, r: int) -> char {
    let p = Position { q: q as i32, r: r as i32 };
    if occupied(m, p) { symbol(m[p].last()) } else { '.' }
}

/// The first `n` cells of row `r`, from column `lo_q` on, separated by spaces.
pub open spec fn row_cells(m: Map<Position, Seq<Piece>>, lo_q: int, r: int, n: nat) -> Seq<char>
    decreases n,
{
    if n == 0 {
        Seq::empty()
    } else if n == 1 {
        seq![cell_char(m, lo_q, r)]
    } else {
        row_cells(m, lo_q, r, (n - 1) as nat) + seq![' ', cell_char(m, lo_q + n - 1, r)]
    }
}

/// `n` spaces.
pub open spec fn spaces(n: nat) -> Seq<char> {
    Seq::new(n, |i: int| ' ')
}

/// Row `r` of the picture: indented by one space per row below the top row,
/// then the cells of every column in the frame.
pub open spec fn picture_row(m: Map<Position, Seq<Piece>>, f: (i32, i32, i32, i32), r: int) -> Seq<char> {
    spaces((r - f.2) as nat) + row_cells(m, f.0 as int, r, (f.1 - f.0 + 1) as nat)
}

/// The first `n` rows of the picture, separated by line breaks.
pub open spec fn picture_rows(m: Map<Position, Seq<Piece>>, f: (i32, i32, i32, i32), n: nat) -> Seq<char>
    decreases n,
{
    if n == 0 {
        Seq::empty()
    } else if n == 1 {
        picture_row(m, f, f.2 as int)
    } else {
        picture_rows(m, f, (n - 1) as nat) + seq!['\n'] + picture_row(m, f, f.2 + n - 1)
    }
}

/// The picture of a board: empty for an empty board, otherwise every row of
/// its frame, top row first.
pub open spec fn picture(m: Map<Position, Seq<Piece>>) -> Seq<char> {
    if m.dom().len() == 0 {
        Seq::empty()
    } else {
        let f = frame(m);
        picture_rows(m, f, (f.3 - f.2 + 1) as nat)
    }
}

proof fn lemma_frame_unique(m: Map<Position, Seq<Piece>>, f: (i32, i32, i32, i32))
    requires
        is_frame(m, f),
    ensures
        frame(m) == f,
{
    let g = frame(m);
    assert(is_frame(m, g));
    let a = choose|p: Position| #[trigger] m.dom().contains(p) && p.q == g.0;
    let b = choose|p: Position| #[trigger] m.dom().contains(p) && p.q == f.0;
    let c = choose|p: Position| #[trigger] m.dom().contains(p) && p.q == g.1;
    let d = choose|p: Position| #[trigger] m.dom().contains(p) && p.q == f.1;
    let e = choose|p: Position| #[trigger] m.dom().contains(p) && p.r == g.2;
    let h = choose|p: Position| #[trigger] m.dom().contains(p) && p.r == f.2;
    let i = choose|p: Position| #[trigger] m.dom().contains(p) && p.r == g.3;
    let j = choose|p: Position| #[trigger] m.dom().contains(p) && p.r == f.3;
    assert(g.0 == f.0 && g.1 == f.1 && g.2 == f.2 && g.3 == f.3);
}

impl Board {
    /// A picture of the board: one line per row of the smallest frame that
    /// holds every stack, each line indented by one more space than the one
    /// above, holding per column the top piece's letter or `.`, separated by
    /// spaces. An empty board gives an empty picture.
    pub fn snapshot(&self) -> (res: String)
        ensures
            res@ == picture(self@),
    {
        let keys = self.positions();
        if keys.len() == 0 {
            return String::new();
        }
        let mut lo_q = keys[0].q;
        let mut hi_q = keys[0].q;
        let mut lo_r = keys[0].r;
        let mut hi_r = keys[0].r;
        let mut i: usize = 1;
        proof {
            assert(keys@.contains(keys@[0]));
        }
        while i < keys.len()
            invariant
                1 <= i <= keys@.len(),
                forall|p: Position| #[trigger] keys@.contains(p) <==> self@.dom().contains(p),
                forall|k: int| 0 <= k < i ==> lo_q <= #[trigger] keys@[k].q <= hi_q && lo_r <= keys@[k].r <= hi_r,
                exists|k: int| 0 <= k < i && #[trigger] keys@[k].q == lo_q,
                exists|k: int| 0 <= k < i && #[trigger] keys@[k].q == hi_q,
                exists|k: int| 0 <= k < i && #[trigger] keys@[k].r == lo_r,
                exists|k: int| 0 <= k < i && #[trigger] keys@[k].r == hi_r,
            decreases keys@.len() - i,
        {
            let p = keys[i];
            if p.q < lo_q { lo_q = p.q; }
            if p.q > hi_q { hi_q = p.q; }
            if p.r < lo_r { lo_r = p.r; }
            if p.r > hi_r { hi_r = p.r; }
            proof {
                assert(keys@[i as int] == p);
            }
            i = i + 1;
        }
        let ghost f = (lo_q, hi_q, lo_r, hi_r);
        let ghost m = self@;
        proof {
            assert forall|p: Position| #[trigger] m.dom().contains(p) implies f.0 <= p.q <= f.1 && f.2 <= p.r <= f.3 by {
                assert(keys@.contains(p));
                let k = choose|k: int| 0 <= k < keys@.len() && keys@[k] == p;
            }
            let k0 = choose|k: int| 0 <= k < keys@.len() && #[trigger] keys@[k].q == lo_q;
            assert(keys@.contains(keys@[k0]));
            assert(m.dom().contains(keys@[k0]) && keys@[k0].q == f.0);
            let k1 = choose|k: int| 0 <= k < keys@.len() && #[trigger] keys@[k].q == hi_q;
            assert(keys@.contains(keys@[k1]));
            assert(m.dom().contains(keys@[k1]) && keys@[k1].q == f.1);
            let k2 = choose|k: int| 0 <= k < keys@.len() && #[trigger] keys@[k].r == lo_r;
            assert(keys@.contains(keys@[k2]));
            assert(m.dom().contains(keys@[k2]) && keys@[k2].r == f.2);
            let k3 = choose|k: int| 0 <= k < keys@.len() && #[trigger] keys@[k].r == hi_r;
            assert(keys@.contains(keys@[k3]));
            assert(m.dom().contains(keys@[k3]) && keys@[k3].r == f.3);
            assert(is_frame(m, f));
            lemma_frame_unique(m, f);
        }
        let mut out = String::new();
        let mut r: i64 = lo_r as i64;
        while r <= hi_r as i64
            invariant
                m == self@,
                f == (lo_q, hi_q, lo_r, hi_r),
                lo_q <= hi_q,
                lo_r <= r <= hi_r + 1,
                out@ == picture_rows(m, f, (r - lo_r) as nat),
            decreases hi_r + 1 - r,
        {
            let ghost n = (r - lo_r) as nat;
            if r > lo_r as i64 {
                push_char(&mut out, '\n');
            }
            let ghost base = out@;
            let mut k: i64 = 0;
            while k < r - lo_r as i64
                invariant
                    lo_r <= r <= hi_r,
                    0 <= k <= r - lo_r,
                    out@ == base + spaces(k as nat),
                decreases r - lo_r - k,
            {
                push_char(&mut out, ' ');
                assert(spaces(k as nat).push(' ') =~= spaces((k + 1) as nat));
                k = k + 1;
            }
            let ghost indented = out@;
            let mut q: i64 = lo_q as i64;
            while q <= hi_q as i64
                invariant
                    m == self@,
                    lo_r <= r <= hi_r,
                    lo_q <= q <= hi_q + 1,
                    out@ == indented + row_cells(m, lo_q as int, r as int, (q - lo_q) as nat),
                decreases hi_q + 1 - q,
            {
                if q > lo_q as i64 {
                    push_char(&mut out, ' ');
                }
                let cell = Position { q: q as i32, r: r as i32 };
                match self.stack_at(cell) {
                    Some(stack) => {
                        push_char(&mut out, piece_symbol(&stack[stack.len() - 1]));
                    },
                    None => {
                        push_char(&mut out, '.');
                    },
                }
                proof {
                    let c = (q - lo_q) as nat;
                    assert(cell_char(m, lo_q + c, r as int) == if occupied(m, cell) { symbol(m[cell].last()) } else { '.' });
                    if c > 0 {
                        assert(row_cells(m, lo_q as int, r as int, c + 1) == row_cells(m, lo_q as int, r as int, c)
                            + seq![' ', cell_char(m, lo_q + c, r as int)]);
                    } else {
                        assert(row_cells(m, lo_q as int, r as int, 0) =~= Seq::<char>::empty());
                    }
                    assert(out@ =~= indented + row_cells(m, lo_q as int, r as int, c + 1));
                }
                q = q + 1;
            }
            proof {
                assert(out@ =~= base + picture_row(m, f, r as int));
                if n > 0 {
                    assert(picture_rows(m, f, n + 1) == picture_rows(m, f, n) + seq!['\n'] + picture_row(m, f, f.2 + n));
                    assert(out@ =~= picture_rows(m, f, n + 1));
                } else {
                    assert(base =~= Seq::<char>::empty());
                    assert(out@ =~= picture_rows(m, f, n + 1));
                }
            }
            r = r + 1;
        }
        out
    }
}

} // verus!
