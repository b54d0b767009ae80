//! Grid coordinates and orthogonal neighbor enumeration.

use vstd::prelude::*;

verus! {

/// A coordinate pair on the grid; `x` counts columns, `y` counts rows.
#[derive(Clone, Copy, Debug, PartialEq, Eq, Structural)]
pub struct Point {
    pub x: usize,
    pub y: usize,
}

/// Orthogonal neighborhood: the Manhattan distance of `a` and `b` is
/// exactly 1 (no diagonals).
pub open spec fn is_adjacent(a: Point, b: Point) -> bool {
    ||| (a.x == b.x && (a.y + 1 == b.y || b.y + 1 == a.y))
    ||| (a.y == b.y && (a.x + 1 == b.x || b.x + 1 == a.x))
}

/// The neighbor candidates of `p` in the fixed enumeration order right,
/// left, down, up — offsets (+1,0), (-1,0), (0,+1), (0,-1). A candidate
/// whose coordinate would fall below zero is left out; candidates at or
/// beyond the upper grid bound are not filtered here and must be rejected
/// downstream.
pub open spec fn nbr_seq(p: Point) -> Seq<Point> {
    seq![Point { x: (p.x + 1) as usize, y: p.y }] + (if p.x >= 1 {
        seq![Point { x: (p.x - 1) as usize, y: p.y }]
    } else {
        Seq::empty()
    }) + seq![Point { x: p.x, y: (p.y + 1) as usize }] + (if p.y >= 1 {
        seq![Point { x: p.x, y: (p.y - 1) as usize }]
    } else {
        Seq::empty()
    })
}

/// The neighbor enumeration holds exactly the points adjacent to `p`.
pub proof fn lemma_nbr_seq_adjacent(p: Point, q: Point)
    requires
        p.x + 1 <= usize::MAX,
        p.y + 1 <= usize::MAX,
    ensures
        nbr_seq(p).contains(q) <==> is_adjacent(p, q),
{
    let s = nbr_seq(p);
    if is_adjacent(p, q) {
        if q.x == p.x + 1 {
            assert(s[0] == q);
        } else if q.x + 1 == p.x {
            assert(s[1] == q);
        } else if q.y == p.y + 1 {
            assert(s[if p.x >= 1 { 2int } else { 1int }] == q);
        } else {
            assert(s[if p.x >= 1 { 3int } else { 2int }] == q);
        }
    }
    if s.contains(q) {
        let i = choose|i: int| 0 <= i < s.len() && s[i] == q;
        assert(is_adjacent(p, s[i]));
    }
}

/// Enumerates the neighbor candidates of `pos` in the fixed order right,
/// left, down, up. With `check_negative` set, candidates whose coordinate
/// would fall below zero are skipped; without it, the caller must guarantee
/// that both coordinates of `pos` are at least 1, so that no candidate can
/// underflow.
pub fn neighbors(pos: Point, check_negative: bool) -> (r: Vec<Point>)
    requires
        pos.x + 1 <= usize::MAX,
        pos.y + 1 <= usize::MAX,
        !check_negative ==> 1 <= pos.x && 1 <= pos.y,
    ensures
        r@ == nbr_seq(pos),
{
    let mut r: Vec<Point> = Vec::new();
    if check_negative {
        r.push(Point { x: pos.x + 1, y: pos.y });
        if pos.x >= 1 {
            r.push(Point { x: pos.x - 1, y: pos.y });
        }
        r.push(Point { x: pos.x, y: pos.y + 1 });
        if pos.y >= 1 {
            r.push(Point { x: pos.x, y: pos.y - 1 });
        }
    } else {
        r.push(Point { x: pos.x + 1, y: pos.y });
        r.push(Point { x: pos.x - 1, y: pos.y });
        r.push(Point { x: pos.x, y: pos.y + 1 });
        r.push(Point { x: pos.x, y: pos.y - 1 });
    }
    proof {
        assert(r@ =~= nbr_seq(pos));
    }
    r
}

} // verus!
