//! The pathfinder: wall generation, breadth-first traversal, and path
//! reconstruction.

use vstd::prelude::*;

use crate::grid::Grid;
use crate::grid::lemma_grid_pointwise_eq;
use crate::point::Point;
use crate::point::is_adjacent;
use crate::point::nbr_seq;
use crate::point::neighbors;
use crate::point::lemma_nbr_seq_adjacent;

verus! {

/// The fixed wall layout for a `width x height` grid: the whole border,
/// plus a column at `x = 2 * (width / 10)` that stops `height / 10` cells
/// short of the bottom, and a column at `x = 8 * (width / 10)` that starts
/// `height / 10` cells below the top. The two gaps force a detour.
pub open spec fn wall_spec(width: int, height: int, x: int, y: int) -> bool {
    ||| x == 0
    ||| x == width - 1
    ||| y == 0
    ||| y == height - 1
    ||| (x == 2 * (width / 10) && y < height - height / 10)
    ||| (x == 8 * (width / 10) && height / 10 <= y)
}

/// Both interior wall columns lie inside the grid.
proof fn lemma_wall_cols_in_range(w: int)
    requires
        1 <= w,
    ensures
        0 <= 2 * (w / 10) < w,
        0 <= 8 * (w / 10) < w,
{
    assert(0 <= 2 * (w / 10) < w && 0 <= 8 * (w / 10) < w) by (nonlinear_arith)
        requires
            1 <= w,
    ;
}

/// Decides `wall_spec` for one cell.
fn is_wall_cell(width: usize, height: usize, x: usize, y: usize) -> (b: bool)
    requires
        1 <= width,
        1 <= height,
        x < width,
        y < height,
    ensures
        b == wall_spec(width as int, height as int, x as int, y as int),
{
    proof {
        lemma_wall_cols_in_range(width as int);
        lemma_wall_cols_in_range(height as int);
    }
    let w: usize = width / 10;
    let h: usize = height / 10;
    x == 0 || x == width - 1 || y == 0 || y == height - 1 || (x == 2 * w && y < height - h) || (x
        == 8 * w && h <= y)
}

/// What wall generation produces for `width x height`: exactly the cells of
/// [`wall_spec`].
pub open spec fn is_wall_grid(g: Grid<bool>, width: usize, height: usize) -> bool {
    &&& g.wf()
    &&& g.spec_width() == width
    &&& g.spec_height() == height
    &&& forall|x: int, y: int|
        0 <= x < width && 0 <= y < height ==> g.at(x, y) == wall_spec(
            width as int,
            height as int,
            x,
            y,
        )
}

/// Wall generation is deterministic: any two grids built for the same
/// `width` and `height` are identical, down to their backing storage.
pub proof fn lemma_generate_walls_deterministic(
    a: Grid<bool>,
    b: Grid<bool>,
    width: usize,
    height: usize,
)
    requires
        is_wall_grid(a, width, height),
        is_wall_grid(b, width, height),
    ensures
        a.spec_width() == b.spec_width(),
        a.spec_height() == b.spec_height(),
        a.cell_seq() == b.cell_seq(),
{
    lemma_grid_pointwise_eq(a, b);
}

/// The length of a successful answer to a query is unique: any two
/// minimum-length routes between the same cells — such as the answers of
/// two calls of `path` on the same pathfinder and inputs — have the same
/// number of hops, even where several shortest routes exist.
pub proof fn lemma_query_length_deterministic(
    bfs: BFS,
    u: Seq<Point>,
    v: Seq<Point>,
    from: Point,
    to: Point,
)
    requires
        bfs.is_path(u, from, to),
        bfs.is_path(v, from, to),
        forall|t: Seq<Point>| bfs.is_path(t, from, to) ==> u.len() <= t.len(),
        forall|t: Seq<Point>| bfs.is_path(t, from, to) ==> v.len() <= t.len(),
    ensures
        u.len() == v.len(),
{
}

/// Number of `true` entries in a sequence of flags.
pub closed spec fn count_true(s: Seq<bool>) -> int
    decreases s.len(),
{
    if s.len() == 0 {
        0
    } else {
        count_true(s.drop_last()) + if s.last() {
            1int
        } else {
            0int
        }
    }
}

proof fn lemma_count_true_bound(s: Seq<bool>)
    ensures
        0 <= count_true(s) <= s.len(),
    decreases s.len(),
{
    if s.len() > 0 {
        lemma_count_true_bound(s.drop_last());
    }
}

proof fn lemma_count_true_all_false(s: Seq<bool>)
    requires
        forall|i: int| 0 <= i < s.len() ==> !s[i],
    ensures
        count_true(s) == 0,
    decreases s.len(),
{
    if s.len() > 0 {
        assert(!s[s.len() - 1]);
        lemma_count_true_all_false(s.drop_last());
    }
}

proof fn lemma_count_true_update_true(s: Seq<bool>, i: int)
    requires
        0 <= i < s.len(),
        !s[i],
    ensures
        count_true(s.update(i, true)) == count_true(s) + 1,
    decreases s.len(),
{
    let t = s.update(i, true);
    if i == s.len() - 1 {
        assert(t.drop_last() =~= s.drop_last());
        assert(t.last());
        assert(!s.last());
    } else {
        assert(t.drop_last() =~= s.drop_last().update(i, true));
        assert(!s.drop_last()[i]);
        lemma_count_true_update_true(s.drop_last(), i);
        assert(t.last() == s.last());
    }
}

/// The visited flag of `p` in a visited grid.
pub open spec fn seen(vis: Grid<bool>, p: Point) -> bool {
    vis.at(p.x as int, p.y as int)
}

/// The recorded BFS depth of `p` in a depth grid, as a mathematical integer.
pub open spec fn dep_of(dep: Grid<usize>, p: Point) -> int {
    dep.at(p.x as int, p.y as int) as int
}

/// A grid pathfinder: a fixed wall layout generated once at construction,
/// answering shortest-path queries between open cells.
pub struct BFS {
    width: usize,
    height: usize,
    walls: Grid<bool>,
}

impl BFS {
    pub closed spec fn spec_width(&self) -> usize {
        self.width
    }

    pub closed spec fn spec_height(&self) -> usize {
        self.height
    }

    pub closed spec fn spec_walls(&self) -> Grid<bool> {
        self.walls
    }

    pub open spec fn wf(&self) -> bool {
        &&& 1 <= self.spec_width()
        &&& 1 <= self.spec_height()
        &&& self.spec_width() * self.spec_height() <= usize::MAX
        &&& is_wall_grid(self.spec_walls(), self.spec_width(), self.spec_height())
    }

    pub open spec fn in_bounds(&self, p: Point) -> bool {
        p.x < self.spec_width() && p.y < self.spec_height()
    }

    /// An open cell: in bounds and not a wall.
    pub open spec fn open_at(&self, p: Point) -> bool {
        self.in_bounds(p) && !wall_spec(
            self.spec_width() as int,
            self.spec_height() as int,
            p.x as int,
            p.y as int,
        )
    }

    /// A route on this pathfinder's grid: a nonempty sequence of open
    /// cells that starts at `from`, ends at `to`, and moves between
    /// orthogonal neighbors at every step.
    pub open spec fn is_path(&self, t: Seq<Point>, from: Point, to: Point) -> bool {
        &&& t.len() >= 1
        &&& t[0] == from
        &&& t[t.len() - 1] == to
        &&& forall|i: int| 0 <= i < t.len() ==> self.open_at(#[trigger] t[i])
        &&& forall|i: int| 0 <= i < t.len() - 1 ==> is_adjacent(#[trigger] t[i], t[i + 1])
    }

    /// Builds the wall layout for a `width x height` grid; see
    /// [`wall_spec`] for the layout.
    pub fn generate_walls(width: usize, height: usize) -> (g: Grid<bool>)
        requires
            1 <= width,
            1 <= height,
            width * height <= usize::MAX,
        ensures
            is_wall_grid(g, width, height),
    {
        let mut g: Grid<bool> = Grid::new(width, height, false);
        let mut y: usize = 0;
        while y < height
            invariant
                y <= height,
                g.wf(),
                g.spec_width() == width,
                g.spec_height() == height,
                forall|a: int, b: int|
                    0 <= a < width && 0 <= b < y ==> g.at(a, b) == wall_spec(
                        width as int,
                        height as int,
                        a,
                        b,
                    ),
                forall|a: int, b: int|
                    0 <= a < width && y <= b < height ==> g.at(a, b) == false,
            decreases height - y,
        {
            let mut x: usize = 0;
            while x < width
                invariant
                    x <= width,
                    y < height,
                    g.wf(),
                    g.spec_width() == width,
                    g.spec_height() == height,
                    forall|a: int, b: int|
                        0 <= a < width && 0 <= b < y ==> g.at(a, b) == wall_spec(
                            width as int,
                            height as int,
                            a,
                            b,
                        ),
                    forall|a: int|
                        0 <= a < x ==> g.at(a, y as int) == wall_spec(
                            width as int,
                            height as int,
                            a,
                            y as int,
                        ),
                    forall|a: int| x <= a < width ==> g.at(a, y as int) == false,
                    forall|a: int, b: int|
                        0 <= a < width && y < b < height ==> g.at(a, b) == false,
                decreases width - x,
            {
                if is_wall_cell(width, height, x, y) {
                    g.set(Point { x, y }, true);
                }
                x += 1;
            }
            y += 1;
        }
        g
    }

    /// A pathfinder over a `width x height` grid with the fixed wall layout
    /// of [`wall_spec`], generated once here and never mutated afterward.
    pub fn new(width: usize, height: usize) -> (r: BFS)
        requires
            1 <= width,
            1 <= height,
            width * height <= usize::MAX,
        ensures
            r.wf(),
            r.spec_width() == width,
            r.spec_height() == height,
    {
        let walls = Self::generate_walls(width, height);
        BFS { width, height, walls }
    }

    /// Handles one neighbor candidate `n` of the dequeued cell `pos`: a
    /// cell that is neither visited nor a wall is marked visited one level
    /// deeper than `pos` and enqueued; anything else is left alone.
    #[verifier::rlimit(100)]
    fn visit_neighbor(
        &self,
        st: &mut State,
        queue: &mut Vec<Point>,
        head: usize,
        from: Point,
        pos: Point,
        n: Point,
        length: usize,
    )
        requires
            self.wf(),
            bfs_inv(*self, old(st).visited, old(st).depth, old(queue)@, head as int, from),
            1 <= head <= old(queue)@.len(),
            pos == old(queue)@[head - 1],
            self.open_at(pos),
            length == dep_of(old(st).depth, pos),
            is_adjacent(pos, n),
            self.in_bounds(n),
            forall|i: int|
                head <= i < old(queue)@.len() ==> length <= dep_of(
                    old(st).depth,
                    #[trigger] old(queue)@[i],
                ) <= length + 1,
        ensures
            bfs_inv(*self, final(st).visited, final(st).depth, final(queue)@, head as int, from),
            old(queue)@.len() <= final(queue)@.len(),
            forall|k: int| 0 <= k < old(queue)@.len() ==> final(queue)@[k] == old(queue)@[k],
            self.open_at(n) ==> seen(final(st).visited, n) && dep_of(final(st).depth, n)
                <= length + 1,
            forall|p: Point|
                self.in_bounds(p) && #[trigger] seen(old(st).visited, p) ==> seen(
                    final(st).visited,
                    p,
                ) && dep_of(final(st).depth, p) == dep_of(old(st).depth, p),
            forall|c: Point|
                self.in_bounds(c) && #[trigger] seen(old(st).visited, c) && expanded(
                    *self,
                    old(st).visited,
                    old(st).depth,
                    c,
                ) ==> expanded(*self, final(st).visited, final(st).depth, c),
            forall|i: int|
                head <= i < final(queue)@.len() ==> length <= dep_of(
                    final(st).depth,
                    #[trigger] final(queue)@[i],
                ) <= length + 1,
            count_true(final(st).visited.cell_seq()) - final(queue)@.len() == count_true(
                old(st).visited.cell_seq(),
            ) - old(queue)@.len(),
    {
        proof {
            lemma_inv_frame(*self, st.visited, st.depth, queue@, head as int, from);
            lemma_queue_cell(
                *self,
                st.visited,
                st.depth,
                queue@,
                head as int,
                from,
                head as int - 1,
            );
            lemma_count_true_bound(st.visited.cell_seq());
        }
        let n_seen: bool = st.visited.get(n);
        let n_wall: bool = self.walls.get(n);
        if !n_seen && !n_wall {
            proof {
                assert(self.open_at(n));
            }
            let ghost vis0 = st.visited;
            let ghost dep0 = st.depth;
            let ghost q0 = queue@;
            st.visited.set(n, true);
            st.depth.set(n, length + 1);
            queue.push(n);
            proof {
                lemma_push_step(
                    *self,
                    vis0,
                    dep0,
                    q0,
                    st.visited,
                    st.depth,
                    queue@,
                    head as int,
                    from,
                    pos,
                    n,
                    length as int,
                );
                assert forall|c: Point|
                    self.in_bounds(c) && #[trigger] seen(vis0, c) && expanded(
                        *self,
                        vis0,
                        dep0,
                        c,
                    ) implies expanded(*self, st.visited, st.depth, c) by {
                    assert(c != n);
                    assert forall|m: Point|
                        #[trigger] is_adjacent(c, m) && self.open_at(m) implies seen(
                        st.visited,
                        m,
                    ) && dep_of(st.depth, m) <= dep_of(st.depth, c) + 1 by {
                        assert(seen(vis0, m));
                        assert(m != n);
                    }
                }
            }
        } else {
            proof {
                if !n_wall {
                    assert(self.open_at(n));
                    assert(seen(st.visited, n));
                    lemma_seen_nbr_depth(
                        *self,
                        st.visited,
                        st.depth,
                        queue@,
                        head as int,
                        from,
                        n,
                        length as int,
                    );
                } else {
                    assert(self.spec_walls().at(n.x as int, n.y as int));
                    assert(!self.open_at(n));
                }
            }
        }
    }

    /// Handles two neighbor candidates of `pos` in order, composing the
    /// effects of [`Self::visit_neighbor`].
    #[verifier::rlimit(100)]
    fn visit_pair(
        &self,
        st: &mut State,
        queue: &mut Vec<Point>,
        head: usize,
        from: Point,
        pos: Point,
        a: Point,
        b: Point,
        length: usize,
    )
        requires
            self.wf(),
            bfs_inv(*self, old(st).visited, old(st).depth, old(queue)@, head as int, from),
            1 <= head <= old(queue)@.len(),
            pos == old(queue)@[head - 1],
            self.open_at(pos),
            length == dep_of(old(st).depth, pos),
            is_adjacent(pos, a),
            self.in_bounds(a),
            is_adjacent(pos, b),
            self.in_bounds(b),
            forall|i: int|
                head <= i < old(queue)@.len() ==> length <= dep_of(
                    old(st).depth,
                    #[trigger] old(queue)@[i],
                ) <= length + 1,
        ensures
            bfs_inv(*self, final(st).visited, final(st).depth, final(queue)@, head as int, from),
            old(queue)@.len() <= final(queue)@.len(),
            forall|k: int| 0 <= k < old(queue)@.len() ==> final(queue)@[k] == old(queue)@[k],
            self.open_at(a) ==> seen(final(st).visited, a) && dep_of(final(st).depth, a)
                <= length + 1,
            self.open_at(b) ==> seen(final(st).visited, b) && dep_of(final(st).depth, b)
                <= length + 1,
            forall|p: Point|
                self.in_bounds(p) && #[trigger] seen(old(st).visited, p) ==> seen(
                    final(st).visited,
                    p,
                ) && dep_of(final(st).depth, p) == dep_of(old(st).depth, p),
            forall|c: Point|
                self.in_bounds(c) && #[trigger] seen(old(st).visited, c) && expanded(
                    *self,
                    old(st).visited,
                    old(st).depth,
                    c,
                ) ==> expanded(*self, final(st).visited, final(st).depth, c),
            forall|i: int|
                head <= i < final(queue)@.len() ==> length <= dep_of(
                    final(st).depth,
                    #[trigger] final(queue)@[i],
                ) <= length + 1,
            count_true(final(st).visited.cell_seq()) - final(queue)@.len() == count_true(
                old(st).visited.cell_seq(),
            ) - old(queue)@.len(),
    {
        proof {
            lemma_queue_cell(
                *self,
                st.visited,
                st.depth,
                queue@,
                head as int,
                from,
                head as int - 1,
            );
        }
        self.visit_neighbor(st, queue, head, from, pos, a, length);
        self.visit_neighbor(st, queue, head, from, pos, b, length);
    }

    /// Dequeue step for one cell `pos` that is not the goal: every
    /// enumerated neighbor that is neither visited nor a wall is marked
    /// visited one level deeper than `pos` and enqueued.
    #[verifier::rlimit(100)]
    fn expand_cell(
        &self,
        st: &mut State,
        queue: &mut Vec<Point>,
        head: usize,
        from: Point,
        to: Point,
        pos: Point,
    )
        requires
            self.wf(),
            self.open_at(from),
            bfs_inv(*self, old(st).visited, old(st).depth, old(queue)@, head - 1, from),
            1 <= head <= old(queue)@.len(),
            pos == old(queue)@[head - 1],
            pos != to,
            forall|k: int| 0 <= k < head ==> (#[trigger] old(queue)@[k]) != to,
            forall|k2: int|
                0 <= k2 < head - 1 ==> expanded(
                    *self,
                    old(st).visited,
                    old(st).depth,
                    #[trigger] old(queue)@[k2],
                ),
        ensures
            bfs_inv(*self, final(st).visited, final(st).depth, final(queue)@, head as int, from),
            old(queue)@.len() <= final(queue)@.len(),
            forall|k: int| 0 <= k < old(queue)@.len() ==> final(queue)@[k] == old(queue)@[k],
            forall|k: int| 0 <= k < head ==> (#[trigger] final(queue)@[k]) != to,
            forall|k2: int|
                0 <= k2 < head && (#[trigger] final(queue)@[k2]) != to ==> expanded(
                    *self,
                    final(st).visited,
                    final(st).depth,
                    final(queue)@[k2],
                ),
            count_true(final(st).visited.cell_seq()) - final(queue)@.len() == count_true(
                old(st).visited.cell_seq(),
            ) - old(queue)@.len(),
            count_true(final(st).visited.cell_seq()) <= self.spec_width() * self.spec_height(),
    {
        proof {
            lemma_inv_frame(*self, st.visited, st.depth, queue@, head as int - 1, from);
            lemma_queue_cell(
                *self,
                st.visited,
                st.depth,
                queue@,
                head as int - 1,
                from,
                head as int - 1,
            );
            lemma_open_interior(*self, pos);
            lemma_window(*self, st.visited, st.depth, queue@, head as int - 1, from);
            lemma_advance_head(*self, st.visited, st.depth, queue@, head as int - 1, from);
        }
        let length: usize = st.depth.get(pos);
        let right: Point = Point { x: pos.x + 1, y: pos.y };
        let left: Point = Point { x: pos.x - 1, y: pos.y };
        let down: Point = Point { x: pos.x, y: pos.y + 1 };
        let up: Point = Point { x: pos.x, y: pos.y - 1 };
        self.visit_pair(st, queue, head, from, pos, right, left, length);
        self.visit_pair(st, queue, head, from, pos, down, up, length);
        proof {
            assert(nbr_seq(pos) =~= seq![right, left, down, up]);
            assert forall|j: int|
                0 <= j < nbr_seq(pos).len() && self.open_at(#[trigger] nbr_seq(pos)[j])
                implies seen(st.visited, nbr_seq(pos)[j]) && dep_of(st.depth, nbr_seq(pos)[j])
                <= length + 1 by {
                if j == 0 {
                    assert(nbr_seq(pos)[j] == right);
                } else if j == 1 {
                    assert(nbr_seq(pos)[j] == left);
                } else if j == 2 {
                    assert(nbr_seq(pos)[j] == down);
                } else {
                    assert(nbr_seq(pos)[j] == up);
                }
            }
            lemma_pos_expanded(*self, st.visited, st.depth, pos, length as int);
            lemma_inv_frame(*self, st.visited, st.depth, queue@, head as int, from);
            lemma_count_true_bound(st.visited.cell_seq());
            assert forall|k2: int|
                0 <= k2 < head && (#[trigger] queue@[k2]) != to implies expanded(
                *self,
                st.visited,
                st.depth,
                queue@[k2],
            ) by {
                if k2 < head - 1 {
                    lemma_queue_cell(
                        *self,
                        old(st).visited,
                        old(st).depth,
                        old(queue)@,
                        head as int - 1,
                        from,
                        k2,
                    );
                }
            }
        }
    }

    /// Rebuilds the route backward from `to`: at each cell, step to the
    /// first visited neighbor in enumeration order whose recorded depth is
    /// one less, until `from` — the only visited cell at depth zero — is
    /// reached. The result runs from `to` back to `from`.
    #[verifier::rlimit(100)]
    fn rebuild(
        &self,
        st: &State,
        Ghost(q): Ghost<Seq<Point>>,
        Ghost(head): Ghost<int>,
        from: Point,
        to: Point,
    ) -> (rev: Vec<Point>)
        requires
            self.wf(),
            self.open_at(from),
            self.open_at(to),
            bfs_inv(*self, st.visited, st.depth, q, head, from),
            seen(st.visited, to),
        ensures
            rev@.len() == dep_of(st.depth, to) + 1,
            rev@[0] == to,
            rev@[rev@.len() - 1] == from,
            forall|i: int| 0 <= i < rev@.len() ==> self.open_at(#[trigger] rev@[i]),
            forall|i: int|
                0 <= i < rev@.len() - 1 ==> is_adjacent(#[trigger] rev@[i], rev@[i + 1]),
    {
        let mut pos: Point = to;
        let mut rev: Vec<Point> = Vec::new();
        rev.push(pos);
        while pos != from
            invariant
                self.wf(),
                self.open_at(from),
                self.open_at(to),
                bfs_inv(*self, st.visited, st.depth, q, head, from),
                seen(st.visited, pos),
                self.open_at(pos),
                1 <= rev@.len(),
                rev@[0] == to,
                rev@[rev@.len() - 1] == pos,
                rev@.len() == dep_of(st.depth, to) - dep_of(st.depth, pos) + 1,
                forall|i: int| 0 <= i < rev@.len() ==> self.open_at(#[trigger] rev@[i]),
                forall|i: int|
                    0 <= i < rev@.len() - 1 ==> is_adjacent(#[trigger] rev@[i], rev@[i + 1]),
            decreases dep_of(st.depth, pos),
        {
            proof {
                lemma_open_interior(*self, pos);
                lemma_inv_frame(*self, st.visited, st.depth, q, head, from);
                lemma_count_true_bound(st.visited.cell_seq());
                lemma_parent(*self, st.visited, st.depth, q, head, from, pos);
            }
            let length: usize = st.depth.get(pos);
            let nbrs: Vec<Point> = neighbors(pos, true);
            let mut k: usize = 0;
            let mut found: bool = false;
            let mut next: Point = pos;
            while k < nbrs.len()
                invariant
                    self.wf(),
                    bfs_inv(*self, st.visited, st.depth, q, head, from),
                    seen(st.visited, pos),
                    self.open_at(pos),
                    1 <= pos.x && pos.x + 1 < self.spec_width(),
                    1 <= pos.y && pos.y + 1 < self.spec_height(),
                    length == dep_of(st.depth, pos),
                    1 <= length,
                    nbrs@ == nbr_seq(pos),
                    k <= nbrs@.len(),
                    !found ==> forall|j: int|
                        0 <= j < k ==> !(seen(st.visited, #[trigger] nbrs@[j]) && dep_of(
                            st.depth,
                            nbrs@[j],
                        ) + 1 == length),
                    found ==> is_adjacent(pos, next) && self.open_at(next) && seen(
                        st.visited,
                        next,
                    ) && dep_of(st.depth, next) + 1 == length,
                decreases nbrs@.len() - k,
            {
                let n: Point = nbrs[k];
                proof {
                    assert(nbrs@[k as int] == n);
                    assert(nbr_seq(pos).contains(n));
                    lemma_nbr_seq_adjacent(pos, n);
                    assert(self.in_bounds(n));
                    lemma_inv_frame(*self, st.visited, st.depth, q, head, from);
                    lemma_count_true_bound(st.visited.cell_seq());
                }
                if !found {
                    if st.visited.get(n) {
                        proof {
                            assert(seen(st.visited, n));
                            lemma_seen_cell(*self, st.visited, st.depth, q, head, from, n);
                        }
                        let dn: usize = st.depth.get(n);
                        if dn + 1 == length {
                            found = true;
                            next = n;
                        }
                    }
                }
                k += 1;
            }
            proof {
                if !found {
                    assert(pos != from);
                    lemma_parent(*self, st.visited, st.depth, q, head, from, pos);
                    let par = choose|par: Point|
                        #[trigger] is_adjacent(pos, par) && self.open_at(par) && seen(
                            st.visited,
                            par,
                        ) && dep_of(st.depth, par) + 1 == dep_of(st.depth, pos);
                    lemma_nbr_seq_adjacent(pos, par);
                    assert(nbr_seq(pos).contains(par));
                    let j = choose|j: int| 0 <= j < nbr_seq(pos).len() && nbr_seq(pos)[j] == par;
                    assert(nbrs@[j] == par);
                    assert(seen(st.visited, nbrs@[j]) && dep_of(st.depth, nbrs@[j]) + 1
                        == length);
                    assert(false);
                }
            }
            pos = next;
            rev.push(next);
        }
        proof {
            lemma_inv_frame(*self, st.visited, st.depth, q, head, from);
        }
        rev
    }

    /// The shortest route from `from` to `to` over the open cells, both
    /// endpoints included, or `None` when the two cells are not connected.
    ///
    /// Breadth-first search from `from`: each cell's depth is recorded
    /// when it is discovered, and dequeuing `to` ends the expansion. The
    /// route is then rebuilt backward from `to`, stepping at each cell to
    /// the first discovered neighbor one level shallower in the fixed
    /// enumeration order right, left, down, up — the documented tie-break
    /// among equally short routes — and reversed before it is returned.
    #[verifier::rlimit(100)]
    pub fn path(&self, from: Point, to: Point) -> (r: Option<Vec<Point>>)
        requires
            self.wf(),
            self.open_at(from),
            self.open_at(to),
        ensures
            r matches Some(v) ==> self.is_path(v@, from, to),
            r matches Some(v) ==> forall|t: Seq<Point>|
                self.is_path(t, from, to) ==> v@.len() <= t.len(),
            (r is Some) <==> exists|t: Seq<Point>| self.is_path(t, from, to),
            from == to ==> (r matches Some(v) && v@ == seq![from]),
    {
        let width: usize = self.width;
        let height: usize = self.height;
        let mut st: State = State::new(width, height);
        let ghost vis_init = st.visited;
        st.visited.set(from, true);
        st.depth.set(from, 0);
        let mut queue: Vec<Point> = Vec::new();
        queue.push(from);
        let mut head: usize = 0;
        let mut reached: bool = false;
        proof {
            reveal(bfs_inv);
            assert forall|i: int|
                0 <= i < vis_init.cell_seq().len() implies !vis_init.cell_seq()[i] by {
                crate::grid::lemma_row_major_decompose(i, width as int, height as int);
                assert(!vis_init.at(i % (width as int), i / (width as int)));
            }
            lemma_count_true_all_false(vis_init.cell_seq());
            crate::grid::lemma_row_major_index(
                from.x as int,
                from.y as int,
                width as int,
                height as int,
            );
            lemma_count_true_update_true(
                vis_init.cell_seq(),
                from.y * vis_init.spec_width() + from.x,
            );
            assert(count_true(st.visited.cell_seq()) == 1);
            assert forall|p: Point|
                self.in_bounds(p) && #[trigger] seen(st.visited, p) implies p == from by {
                if p != from {
                    assert(st.visited.at(p.x as int, p.y as int) == vis_init.at(
                        p.x as int,
                        p.y as int,
                    ));
                }
            }
            assert(queue@[0] == from);
            assert(bfs_inv(*self, st.visited, st.depth, queue@, head as int, from));
        }
        while head < queue.len() && !reached
            invariant
                self.wf(),
                self.open_at(from),
                self.open_at(to),
                bfs_inv(*self, st.visited, st.depth, queue@, head as int, from),
                head <= queue@.len(),
                !reached ==> forall|k: int| 0 <= k < head ==> (#[trigger] queue@[k]) != to,
                reached ==> 1 <= head && queue@[head - 1] == to,
                forall|k: int|
                    0 <= k < head && (#[trigger] queue@[k]) != to ==> expanded(
                        *self,
                        st.visited,
                        st.depth,
                        queue@[k],
                    ),
            decreases self.spec_width() * self.spec_height() - count_true(st.visited.cell_seq())
                + queue@.len() - head,
        {
            let pos: Point = queue[head];
            head += 1;
            if pos == to {
                reached = true;
                proof {
                    lemma_advance_head(*self, st.visited, st.depth, queue@, head as int - 1, from);
                    lemma_inv_frame(*self, st.visited, st.depth, queue@, head as int, from);
                    lemma_count_true_bound(st.visited.cell_seq());
                }
            } else {
                self.expand_cell(&mut st, &mut queue, head, from, to, pos);
            }
        }
        if !reached {
            proof {
                assert(head == queue@.len());
                lemma_unreachable(*self, st.visited, st.depth, queue@, from, to);
            }
            return None;
        }
        proof {
            lemma_queue_cell(
                *self,
                st.visited,
                st.depth,
                queue@,
                head as int,
                from,
                head as int - 1,
            );
        }
        let rev: Vec<Point> = self.rebuild(&st, Ghost(queue@), Ghost(head as int), from, to);
        let mut out: Vec<Point> = Vec::new();
        let mut i: usize = rev.len();
        while i > 0
            invariant
                i <= rev@.len(),
                out@.len() == rev@.len() - i,
                forall|j: int| 0 <= j < out@.len() ==> out@[j] == rev@[rev@.len() - 1 - j],
            decreases i,
        {
            i -= 1;
            let p: Point = rev[i];
            out.push(p);
        }
        proof {
            lemma_inv_frame(*self, st.visited, st.depth, queue@, head as int, from);
            assert(out@.len() == rev@.len());
            assert(out@[0] == rev@[rev@.len() - 1]);
            assert(out@[out@.len() - 1] == rev@[0]);
            assert forall|j: int| 0 <= j < out@.len() implies self.open_at(#[trigger] out@[j]) by {
                assert(out@[j] == rev@[rev@.len() - 1 - j]);
            }
            assert forall|j: int|
                0 <= j < out@.len() - 1 implies is_adjacent(#[trigger] out@[j], out@[j + 1]) by {
                let a = rev@.len() - 1 - j;
                assert(out@[j] == rev@[a]);
                assert(out@[j + 1] == rev@[a - 1]);
                assert(is_adjacent(rev@[a - 1], rev@[a]));
            }
            assert(self.is_path(out@, from, to));
            assert forall|t: Seq<Point>|
                self.is_path(t, from, to) implies out@.len() <= t.len() by {
                assert(t[0] == from);
                assert(seen(st.visited, t[0]));
                lemma_min_walk(*self, st.visited, st.depth, queue@, head as int, from, to, t, 0);
            }
            if from == to {
                assert(out@.len() == 1);
                assert(out@[0] == from);
                assert(out@ =~= seq![from]);
            }
        }
        Some(out)
    }
}

/// Why a query was rejected before any traversal ran.
#[derive(Clone, Copy, Debug, PartialEq, Eq, Structural)]
pub enum PathError {
    /// An endpoint lies outside the grid.
    OutOfBounds,
    /// An endpoint sits on a wall cell.
    Wall,
}

impl BFS {
    pub fn width(&self) -> (w: usize)
        ensures
            w == self.spec_width(),
    {
        self.width
    }

    pub fn height(&self) -> (h: usize)
        ensures
            h == self.spec_height(),
    {
        self.height
    }

    /// Validated variant of [`Self::path`]: instead of leaving bad
    /// endpoints to the caller's discipline, it rejects a query whose
    /// start or goal is outside the grid or on a wall, and otherwise
    /// answers exactly as `path` does.
    pub fn checked_path(&self, from: Point, to: Point) -> (r: Result<
        Option<Vec<Point>>,
        PathError,
    >)
        requires
            self.wf(),
        ensures
            r == Result::<Option<Vec<Point>>, PathError>::Err(PathError::OutOfBounds) <==> (
            !self.in_bounds(from) || !self.in_bounds(to)),
            r == Result::<Option<Vec<Point>>, PathError>::Err(PathError::Wall) <==> (
            self.in_bounds(from) && self.in_bounds(to) && !(self.open_at(from) && self.open_at(
                to,
            ))),
            r is Ok <==> self.open_at(from) && self.open_at(to),
            r matches Ok(o) ==> {
                &&& (o matches Some(v) ==> self.is_path(v@, from, to))
                &&& (o matches Some(v) ==> forall|t: Seq<Point>|
                    self.is_path(t, from, to) ==> v@.len() <= t.len())
                &&& ((o is Some) <==> exists|t: Seq<Point>| self.is_path(t, from, to))
                &&& (from == to ==> (o matches Some(v) && v@ == seq![from]))
            },
    {
        if from.x >= self.width || from.y >= self.height || to.x >= self.width || to.y
            >= self.height {
            return Err(PathError::OutOfBounds);
        }
        if self.walls.get(from) || self.walls.get(to) {
            return Err(PathError::Wall);
        }
        Ok(self.path(from, to))
    }
}

/// Per-query traversal state: a visited flag and a recorded BFS depth for
/// every cell. A cell's depth is meaningful only while its visited flag is
/// set; the flag plays the role of an unvisited sentinel.
pub struct State {
    visited: Grid<bool>,
    depth: Grid<usize>,
}

impl State {
    pub closed spec fn visited_grid(&self) -> Grid<bool> {
        self.visited
    }

    pub closed spec fn depth_grid(&self) -> Grid<usize> {
        self.depth
    }

    pub open spec fn wf(&self, width: usize, height: usize) -> bool {
        &&& self.visited_grid().wf()
        &&& self.visited_grid().spec_width() == width
        &&& self.visited_grid().spec_height() == height
        &&& self.depth_grid().wf()
        &&& self.depth_grid().spec_width() == width
        &&& self.depth_grid().spec_height() == height
    }

    /// Fresh traversal state: every cell unvisited, every depth zero.
    pub fn new(width: usize, height: usize) -> (st: State)
        requires
            1 <= width,
            1 <= height,
            width * height <= usize::MAX,
        ensures
            st.wf(width, height),
            forall|x: int, y: int|
                0 <= x < width && 0 <= y < height ==> !st.visited_grid().at(x, y),
            forall|x: int, y: int|
                0 <= x < width && 0 <= y < height ==> st.depth_grid().at(x, y) == 0,
    {
        State {
            visited: Grid::new(width, height, false),
            depth: Grid::new(width, height, 0),
        }
    }

    /// Resets the state in place, so that a later query can reuse the
    /// buffers without reallocating them.
    pub fn clear(&mut self)
        requires
            old(self).wf(
                old(self).visited_grid().spec_width(),
                old(self).visited_grid().spec_height(),
            ),
        ensures
            final(self).wf(
                old(self).visited_grid().spec_width(),
                old(self).visited_grid().spec_height(),
            ),
            forall|x: int, y: int|
                0 <= x < old(self).visited_grid().spec_width() && 0 <= y < old(
                    self,
                ).visited_grid().spec_height() ==> !final(self).visited_grid().at(x, y),
            forall|x: int, y: int|
                0 <= x < old(self).visited_grid().spec_width() && 0 <= y < old(
                    self,
                ).visited_grid().spec_height() ==> final(self).depth_grid().at(x, y) == 0,
    {
        self.visited.fill(false);
        self.depth.fill(0);
    }

    /// Whether the traversal has visited `p`.
    pub fn get_visited(&self, p: Point) -> (b: bool)
        requires
            self.visited_grid().wf(),
            p.x < self.visited_grid().spec_width(),
            p.y < self.visited_grid().spec_height(),
        ensures
            b == seen(self.visited_grid(), p),
    {
        self.visited.get(p)
    }

    /// The recorded BFS depth of `p`; meaningful only while `p` is visited.
    pub fn get_depth(&self, p: Point) -> (d: usize)
        requires
            self.depth_grid().wf(),
            p.x < self.depth_grid().spec_width(),
            p.y < self.depth_grid().spec_height(),
        ensures
            d == dep_of(self.depth_grid(), p),
    {
        self.depth.get(p)
    }
}

/// An open cell of a well-formed pathfinder never touches the border, so
/// all four of its neighbor candidates are in bounds.
proof fn lemma_open_interior(bfs: BFS, p: Point)
    requires
        bfs.wf(),
        bfs.open_at(p),
    ensures
        1 <= p.x,
        p.x + 1 < bfs.spec_width(),
        1 <= p.y,
        p.y + 1 < bfs.spec_height(),
{
}

/// A visited cell whose open neighbors have all been discovered, each at
/// most one level deeper.
spec fn expanded(bfs: BFS, vis: Grid<bool>, dep: Grid<usize>, c: Point) -> bool {
    forall|n: Point|
        #[trigger] is_adjacent(c, n) && bfs.open_at(n) ==> seen(vis, n) && dep_of(dep, n)
            <= dep_of(dep, c) + 1
}

/// The breadth-first traversal invariant, tying the visited and depth
/// grids to the queue `q` of every cell ever discovered, of which the
/// first `head` have been dequeued. Kept opaque so that code handling the
/// traversal state can treat it as one fact; the accessor lemmas below
/// expose the pieces.
#[verifier::opaque]
spec fn bfs_inv(
    bfs: BFS,
    vis: Grid<bool>,
    dep: Grid<usize>,
    q: Seq<Point>,
    head: int,
    from: Point,
) -> bool {
    &&& bfs.wf()
    &&& vis.wf()
    &&& vis.spec_width() == bfs.spec_width()
    &&& vis.spec_height() == bfs.spec_height()
    &&& dep.wf()
    &&& dep.spec_width() == bfs.spec_width()
    &&& dep.spec_height() == bfs.spec_height()
    &&& 0 <= head <= q.len()
    &&& 1 <= q.len()
    &&& q[0] == from
    &&& bfs.open_at(from)
    &&& seen(vis, from)
    &&& dep_of(dep, from) == 0
    // every visited cell is open, was enqueued, and has a depth below the
    // queue length
    &&& forall|p: Point| bfs.in_bounds(p) && #[trigger] seen(vis, p) ==> bfs.open_at(p)
    &&& forall|p: Point| bfs.in_bounds(p) && #[trigger] seen(vis, p) ==> q.contains(p)
    &&& forall|p: Point| bfs.in_bounds(p) && #[trigger] seen(vis, p) ==> dep_of(dep, p) < q.len()
    // every enqueued cell is visited and in bounds
    &&& forall|i: int|
        0 <= i < q.len() ==> seen(vis, #[trigger] q[i]) && bfs.in_bounds(q[i])
    // recorded depths never decrease along the queue
    &&& forall|i: int, j: int|
        0 <= i <= j < q.len() ==> dep_of(dep, #[trigger] q[i]) <= dep_of(dep, #[trigger] q[j])
    // the pending part of the queue spans at most two consecutive depths
    &&& forall|i: int, j: int|
        head <= i <= j < q.len() ==> dep_of(dep, #[trigger] q[j]) <= dep_of(
            dep,
            #[trigger] q[i],
        ) + 1
    // the i-th discovered cell lies at depth at most i
    &&& forall|i: int| 0 <= i < q.len() ==> dep_of(dep, #[trigger] q[i]) <= i
    // the queue never outgrows the number of visited cells
    &&& q.len() <= count_true(vis.cell_seq())
    // every visited cell but the start is one step deeper than some
    // visited neighbor, along which the path is reconstructed
    &&& forall|p: Point|
        bfs.in_bounds(p) && #[trigger] seen(vis, p) && p != from ==> 1 <= dep_of(dep, p) && (
        exists|par: Point|
            #[trigger] is_adjacent(p, par) && bfs.open_at(par) && seen(vis, par) && dep_of(
                dep,
                par,
            ) + 1 == dep_of(dep, p))
}

/// What the traversal invariant pins directly about the overall state.
proof fn lemma_inv_frame(
    bfs: BFS,
    vis: Grid<bool>,
    dep: Grid<usize>,
    q: Seq<Point>,
    head: int,
    from: Point,
)
    requires
        bfs_inv(bfs, vis, dep, q, head, from),
    ensures
        vis.wf(),
        vis.spec_width() == bfs.spec_width(),
        vis.spec_height() == bfs.spec_height(),
        dep.wf(),
        dep.spec_width() == bfs.spec_width(),
        dep.spec_height() == bfs.spec_height(),
        0 <= head <= q.len(),
        1 <= q.len(),
        q[0] == from,
        bfs.open_at(from),
        seen(vis, from),
        dep_of(dep, from) == 0,
        q.len() <= count_true(vis.cell_seq()),
{
    reveal(bfs_inv);
}

/// Every enqueued cell is a visited open cell whose recorded depth stays
/// below both its queue position plus one and the queue length.
proof fn lemma_queue_cell(
    bfs: BFS,
    vis: Grid<bool>,
    dep: Grid<usize>,
    q: Seq<Point>,
    head: int,
    from: Point,
    i: int,
)
    requires
        bfs_inv(bfs, vis, dep, q, head, from),
        0 <= i < q.len(),
    ensures
        seen(vis, q[i]),
        bfs.in_bounds(q[i]),
        bfs.open_at(q[i]),
        dep_of(dep, q[i]) <= i,
        dep_of(dep, q[i]) < q.len(),
{
    reveal(bfs_inv);
}

/// Every visited cell is open, with a recorded depth below the queue
/// length.
proof fn lemma_seen_cell(
    bfs: BFS,
    vis: Grid<bool>,
    dep: Grid<usize>,
    q: Seq<Point>,
    head: int,
    from: Point,
    p: Point,
)
    requires
        bfs_inv(bfs, vis, dep, q, head, from),
        bfs.in_bounds(p),
        seen(vis, p),
    ensures
        bfs.open_at(p),
        dep_of(dep, p) < q.len(),
{
    reveal(bfs_inv);
}

/// Every visited cell but the start has a visited open neighbor exactly
/// one level shallower.
proof fn lemma_parent(
    bfs: BFS,
    vis: Grid<bool>,
    dep: Grid<usize>,
    q: Seq<Point>,
    head: int,
    from: Point,
    p: Point,
)
    requires
        bfs_inv(bfs, vis, dep, q, head, from),
        bfs.in_bounds(p),
        seen(vis, p),
        p != from,
    ensures
        1 <= dep_of(dep, p),
        exists|par: Point|
            #[trigger] is_adjacent(p, par) && bfs.open_at(par) && seen(vis, par) && dep_of(
                dep,
                par,
            ) + 1 == dep_of(dep, p),
{
    reveal(bfs_inv);
}

/// Dequeuing one cell — moving the head of the queue forward by one —
/// keeps the traversal invariant.
proof fn lemma_advance_head(
    bfs: BFS,
    vis: Grid<bool>,
    dep: Grid<usize>,
    q: Seq<Point>,
    head: int,
    from: Point,
)
    requires
        bfs_inv(bfs, vis, dep, q, head, from),
        head < q.len(),
    ensures
        bfs_inv(bfs, vis, dep, q, head + 1, from),
{
    reveal(bfs_inv);
}

/// The pending part of the queue sits within one level of the cell at the
/// dequeue position.
proof fn lemma_window(
    bfs: BFS,
    vis: Grid<bool>,
    dep: Grid<usize>,
    q: Seq<Point>,
    head: int,
    from: Point,
)
    requires
        bfs_inv(bfs, vis, dep, q, head, from),
        0 <= head < q.len(),
    ensures
        forall|i: int|
            head <= i < q.len() ==> dep_of(dep, q[head]) <= dep_of(dep, #[trigger] q[i])
                <= dep_of(dep, q[head]) + 1,
{
    reveal(bfs_inv);
}

/// A cell that is already visited when it turns up as a neighbor of the
/// dequeued cell lies at most one level deeper than it.
proof fn lemma_seen_nbr_depth(
    bfs: BFS,
    vis: Grid<bool>,
    dep: Grid<usize>,
    q: Seq<Point>,
    head: int,
    from: Point,
    n: Point,
    length: int,
)
    requires
        bfs_inv(bfs, vis, dep, q, head, from),
        1 <= head <= q.len(),
        length == dep_of(dep, q[head - 1]),
        forall|i: int|
            head <= i < q.len() ==> length <= dep_of(dep, #[trigger] q[i]) <= length + 1,
        bfs.in_bounds(n),
        seen(vis, n),
    ensures
        dep_of(dep, n) <= length + 1,
{
    reveal(bfs_inv);
    assert(q.contains(n));
    let i = choose|i: int| 0 <= i < q.len() && q[i] == n;
    if i <= head - 1 {
        assert(dep_of(dep, q[i]) <= dep_of(dep, q[head - 1]));
    }
}

/// Discovering the fresh open neighbor `n` of the dequeued cell `pos` —
/// marking it visited at one level deeper and enqueuing it — preserves the
/// traversal invariant and everything the expansion loop tracks.
#[verifier::rlimit(100)]
proof fn lemma_push_step(
    bfs: BFS,
    vis0: Grid<bool>,
    dep0: Grid<usize>,
    q0: Seq<Point>,
    vis1: Grid<bool>,
    dep1: Grid<usize>,
    q1: Seq<Point>,
    head: int,
    from: Point,
    pos: Point,
    n: Point,
    length: int,
)
    requires
        bfs_inv(bfs, vis0, dep0, q0, head, from),
        1 <= head <= q0.len(),
        pos == q0[head - 1],
        length == dep_of(dep0, pos),
        forall|i: int|
            head <= i < q0.len() ==> length <= dep_of(dep0, #[trigger] q0[i]) <= length + 1,
        is_adjacent(pos, n),
        bfs.open_at(n),
        !seen(vis0, n),
        vis1.wf(),
        vis1.spec_width() == bfs.spec_width(),
        vis1.spec_height() == bfs.spec_height(),
        dep1.wf(),
        dep1.spec_width() == bfs.spec_width(),
        dep1.spec_height() == bfs.spec_height(),
        seen(vis1, n),
        dep_of(dep1, n) == length + 1,
        forall|x: int, y: int|
            0 <= x < bfs.spec_width() && 0 <= y < bfs.spec_height() && (x != n.x || y != n.y)
                ==> vis1.at(x, y) == vis0.at(x, y),
        forall|x: int, y: int|
            0 <= x < bfs.spec_width() && 0 <= y < bfs.spec_height() && (x != n.x || y != n.y)
                ==> dep1.at(x, y) == dep0.at(x, y),
        vis1.cell_seq() == vis0.cell_seq().update(n.y * vis0.spec_width() + n.x, true),
        q1 == q0.push(n),
    ensures
        bfs_inv(bfs, vis1, dep1, q1, head, from),
        count_true(vis1.cell_seq()) == count_true(vis0.cell_seq()) + 1,
        forall|p: Point|
            bfs.in_bounds(p) && p != n ==> seen(vis1, p) == seen(vis0, p) && dep_of(dep1, p)
                == dep_of(dep0, p),
        forall|i: int|
            head <= i < q1.len() ==> length <= dep_of(dep1, #[trigger] q1[i]) <= length + 1,
{
    reveal(bfs_inv);
    crate::grid::lemma_row_major_index(
        n.x as int,
        n.y as int,
        vis0.spec_width() as int,
        vis0.spec_height() as int,
    );
    assert(!vis0.cell_seq()[n.y * vis0.spec_width() + n.x]);
    lemma_count_true_update_true(vis0.cell_seq(), n.y * vis0.spec_width() + n.x);
    assert forall|p: Point|
        bfs.in_bounds(p) && p != n implies seen(vis1, p) == seen(vis0, p) && dep_of(dep1, p)
        == dep_of(dep0, p) by {
        assert(p.x != n.x || p.y != n.y);
    }
    assert forall|i: int| 0 <= i < q0.len() implies q0[i] != n by {
        assert(seen(vis0, q0[i]));
    }
    assert(length <= head - 1);
    assert forall|p: Point|
        bfs.in_bounds(p) && #[trigger] seen(vis1, p) implies bfs.open_at(p) && q1.contains(p)
        && dep_of(dep1, p) < q1.len() by {
        if p == n {
            assert(q1[q0.len() as int] == n);
        } else {
            assert(seen(vis0, p));
            let i = choose|i: int| 0 <= i < q0.len() && q0[i] == p;
            assert(q1[i] == p);
        }
    }
    assert forall|i: int, j: int|
        0 <= i <= j < q1.len() implies dep_of(dep1, #[trigger] q1[i]) <= dep_of(
        dep1,
        #[trigger] q1[j],
    ) by {
        if j == q0.len() && i < q0.len() {
            if i <= head - 1 {
                assert(dep_of(dep0, q0[i]) <= dep_of(dep0, q0[head - 1]));
            }
        }
    }
    assert forall|p: Point|
        bfs.in_bounds(p) && #[trigger] seen(vis1, p) && p != from implies 1 <= dep_of(dep1, p)
        && (exists|par: Point|
        #[trigger] is_adjacent(p, par) && bfs.open_at(par) && seen(vis1, par) && dep_of(
            dep1,
            par,
        ) + 1 == dep_of(dep1, p)) by {
        if p == n {
            assert(is_adjacent(n, pos));
            assert(bfs.open_at(pos));
            assert(seen(vis1, pos));
            assert(dep_of(dep1, pos) + 1 == dep_of(dep1, n));
        } else {
            assert(seen(vis0, p));
            let par = choose|par: Point|
                #[trigger] is_adjacent(p, par) && bfs.open_at(par) && seen(vis0, par) && dep_of(
                    dep0,
                    par,
                ) + 1 == dep_of(dep0, p);
            assert(seen(vis0, par));
            assert(par != n);
            assert(is_adjacent(p, par) && bfs.open_at(par) && seen(vis1, par) && dep_of(
                dep1,
                par,
            ) + 1 == dep_of(dep1, p));
        }
    }
    assert(bfs_inv(bfs, vis1, dep1, q1, head, from));
}

/// Expanding every enumerated neighbor of `pos` makes `pos` an expanded
/// cell: each of its adjacent open cells stands in the enumeration.
proof fn lemma_pos_expanded(
    bfs: BFS,
    vis: Grid<bool>,
    dep: Grid<usize>,
    pos: Point,
    length: int,
)
    requires
        bfs.wf(),
        bfs.open_at(pos),
        pos.x + 1 <= usize::MAX,
        pos.y + 1 <= usize::MAX,
        length == dep_of(dep, pos),
        forall|j: int|
            0 <= j < nbr_seq(pos).len() && bfs.open_at(#[trigger] nbr_seq(pos)[j]) ==> seen(
                vis,
                nbr_seq(pos)[j],
            ) && dep_of(dep, nbr_seq(pos)[j]) <= length + 1,
    ensures
        expanded(bfs, vis, dep, pos),
{
    assert forall|m: Point|
        #[trigger] is_adjacent(pos, m) && bfs.open_at(m) implies seen(vis, m) && dep_of(dep, m)
        <= dep_of(dep, pos) + 1 by {
        lemma_nbr_seq_adjacent(pos, m);
        assert(nbr_seq(pos).contains(m));
        let j = choose|j: int| 0 <= j < nbr_seq(pos).len() && nbr_seq(pos)[j] == m;
        assert(bfs.open_at(nbr_seq(pos)[j]));
    }
}

/// When the queue runs dry without ever dequeuing `to`, no path from
/// `from` to `to` exists at all — in particular `from` and `to` differ.
proof fn lemma_unreachable(
    bfs: BFS,
    vis: Grid<bool>,
    dep: Grid<usize>,
    q: Seq<Point>,
    from: Point,
    to: Point,
)
    requires
        bfs_inv(bfs, vis, dep, q, q.len() as int, from),
        bfs.open_at(to),
        forall|k: int| 0 <= k < q.len() ==> (#[trigger] q[k]) != to,
        forall|k: int|
            0 <= k < q.len() && (#[trigger] q[k]) != to ==> expanded(bfs, vis, dep, q[k]),
    ensures
        forall|t: Seq<Point>| !bfs.is_path(t, from, to),
        from != to,
{
    reveal(bfs_inv);
    assert(!seen(vis, to)) by {
        if seen(vis, to) {
            assert(q.contains(to));
            let i = choose|i: int| 0 <= i < q.len() && q[i] == to;
            assert(q[i] != to);
        }
    }
    assert forall|p: Point|
        bfs.in_bounds(p) && #[trigger] seen(vis, p) implies expanded(bfs, vis, dep, p) by {
        assert(q.contains(p));
        let i = choose|i: int| 0 <= i < q.len() && q[i] == p;
        assert(q[i] != to);
        assert(expanded(bfs, vis, dep, q[i]));
    }
    assert forall|t: Seq<Point>| !bfs.is_path(t, from, to) by {
        if bfs.is_path(t, from, to) {
            assert(t[0] == from);
            assert(seen(vis, t[0]));
            lemma_walk_seen(bfs, vis, dep, t, from, to, 0);
            assert(false);
        }
    }
    if from == to {
        assert(bfs.is_path(seq![from], from, to));
        assert(false);
    }
}

/// Walking a path whose every cell's discovery has been fully propagated
/// carries the visited flag from any cell of the path to its last cell.
proof fn lemma_walk_seen(
    bfs: BFS,
    vis: Grid<bool>,
    dep: Grid<usize>,
    t: Seq<Point>,
    from: Point,
    to: Point,
    j: int,
)
    requires
        bfs.wf(),
        bfs.is_path(t, from, to),
        forall|p: Point|
            bfs.in_bounds(p) && #[trigger] seen(vis, p) ==> expanded(bfs, vis, dep, p),
        0 <= j < t.len(),
        seen(vis, t[j]),
    ensures
        seen(vis, to),
    decreases t.len() - j,
{
    if j == t.len() - 1 {
        assert(t[j] == to);
    } else {
        assert(bfs.open_at(t[j]));
        assert(is_adjacent(t[j], t[j + 1]));
        assert(bfs.open_at(t[j + 1]));
        assert(expanded(bfs, vis, dep, t[j]));
        assert(seen(vis, t[j + 1]));
        lemma_walk_seen(bfs, vis, dep, t, from, to, j + 1);
    }
}

/// When the goal has just been dequeued, its recorded depth is a lower
/// bound for the hop count of every path from the start to the goal:
/// walking any such path either stays among dequeued (hence fully
/// expanded) cells, whose depths trail the walked distance, or meets the
/// pending part of the queue, which is at least as deep as the goal.
proof fn lemma_min_walk(
    bfs: BFS,
    vis: Grid<bool>,
    dep: Grid<usize>,
    q: Seq<Point>,
    head: int,
    from: Point,
    to: Point,
    t: Seq<Point>,
    j: int,
)
    requires
        bfs_inv(bfs, vis, dep, q, head, from),
        1 <= head <= q.len(),
        q[head - 1] == to,
        forall|k: int| 0 <= k < head && (#[trigger] q[k]) != to ==> expanded(bfs, vis, dep, q[k]),
        bfs.is_path(t, from, to),
        0 <= j < t.len(),
        seen(vis, t[j]),
        dep_of(dep, t[j]) <= j,
    ensures
        dep_of(dep, to) <= t.len() - 1,
    decreases t.len() - j,
{
    reveal(bfs_inv);
    if t[j] == to {
        assert(dep_of(dep, to) <= j <= t.len() - 1);
    } else {
        assert(j < t.len() - 1);
        assert(bfs.open_at(t[j]));
        assert(q.contains(t[j]));
        let i = choose|i: int| 0 <= i < q.len() && q[i] == t[j];
        if i >= head {
            assert(dep_of(dep, q[head - 1]) <= dep_of(dep, q[i]));
        } else {
            assert(expanded(bfs, vis, dep, q[i]));
            assert(is_adjacent(t[j], t[j + 1]));
            assert(bfs.open_at(t[j + 1]));
            assert(seen(vis, t[j + 1]));
            assert(dep_of(dep, t[j + 1]) <= j + 1);
            lemma_min_walk(bfs, vis, dep, q, head, from, to, t, j + 1);
        }
    }
}

} // verus!
