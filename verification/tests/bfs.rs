use std::collections::VecDeque;

use grid_bfs::bfs::{PathError, State, BFS};
use grid_bfs::grid::Grid;
use grid_bfs::point::{neighbors, Point};

fn p(x: usize, y: usize) -> Point {
    Point { x, y }
}

/// Independent reference: expected wall layout for a width x height grid.
fn expected_wall(width: usize, height: usize, x: usize, y: usize) -> bool {
    let w = width / 10;
    let h = height / 10;
    x == 0
        || x == width - 1
        || y == 0
        || y == height - 1
        || (x == 2 * w && y < height - h)
        || (x == 8 * w && h <= y)
}

/// Independent reference: BFS hop distance over the expected wall layout,
/// or None when unreachable.
fn reference_distance(width: usize, height: usize, from: Point, to: Point) -> Option<usize> {
    let mut dist = vec![usize::MAX; width * height];
    let mut queue = VecDeque::new();
    dist[from.y * width + from.x] = 0;
    queue.push_back(from);
    while let Some(c) = queue.pop_front() {
        let d = dist[c.y * width + c.x];
        if c == to {
            return Some(d);
        }
        let candidates = [
            (c.x as isize + 1, c.y as isize),
            (c.x as isize - 1, c.y as isize),
            (c.x as isize, c.y as isize + 1),
            (c.x as isize, c.y as isize - 1),
        ];
        for (nx, ny) in candidates {
            if nx < 0 || ny < 0 {
                continue;
            }
            let (nx, ny) = (nx as usize, ny as usize);
            if expected_wall(width, height, nx, ny) {
                continue;
            }
            if dist[ny * width + nx] == usize::MAX {
                dist[ny * width + nx] = d + 1;
                queue.push_back(Point { x: nx, y: ny });
            }
        }
    }
    None
}

fn manhattan(a: Point, b: Point) -> usize {
    a.x.abs_diff(b.x) + a.y.abs_diff(b.y)
}

#[test]
fn single_point_path() {
    let bfs = BFS::new(20, 20);
    assert_eq!(bfs.path(p(1, 1), p(1, 1)), Some(vec![p(1, 1)]));
    let small = BFS::new(10, 10);
    assert_eq!(small.path(p(1, 1), p(1, 1)), Some(vec![p(1, 1)]));
}

#[test]
fn lengths_match_reference_bfs() {
    for (w, h) in [(12usize, 12usize), (20, 17)] {
        let bfs = BFS::new(w, h);
        let from = p(1, 1);
        assert!(!expected_wall(w, h, 1, 1));
        for x in 0..w {
            for y in 0..h {
                if expected_wall(w, h, x, y) {
                    continue;
                }
                let to = p(x, y);
                let expected = reference_distance(w, h, from, to);
                let got = bfs.path(from, to);
                match (expected, got) {
                    (Some(d), Some(route)) => {
                        assert_eq!(route.len() - 1, d, "distance to ({x},{y}) on {w}x{h}")
                    }
                    (None, None) => {}
                    (e, g) => panic!("reachability mismatch at ({x},{y}): {e:?} vs {g:?}"),
                }
            }
        }
    }
}

#[test]
fn steps_are_orthogonal_and_off_walls() {
    let bfs = BFS::new(20, 20);
    let route = bfs.path(p(1, 1), p(18, 18)).expect("route must exist");
    assert_eq!(route[0], p(1, 1));
    assert_eq!(*route.last().unwrap(), p(18, 18));
    for pair in route.windows(2) {
        assert_eq!(manhattan(pair[0], pair[1]), 1);
    }
    for c in &route {
        assert!(!expected_wall(20, 20, c.x, c.y), "route crosses wall at {c:?}");
    }
}

#[test]
fn closed_partition_has_no_path() {
    // On a 10x10 grid the interior column at x = 2 spans y in [0, 9) and the
    // border supplies (2, 9), so column 2 is fully walled: the grid is
    // partitioned and the right side cannot be reached.
    let bfs = BFS::new(10, 10);
    assert!(expected_wall(10, 10, 2, 9));
    assert_eq!(bfs.path(p(1, 1), p(8, 1)), None);
}

#[test]
fn repeated_queries_are_identical() {
    let bfs = BFS::new(20, 20);
    let first = bfs.path(p(1, 1), p(18, 18));
    let second = bfs.path(p(1, 1), p(18, 18));
    assert!(first.is_some());
    assert_eq!(first, second);
}

#[test]
fn wall_generation_is_deterministic() {
    let a = BFS::generate_walls(20, 20);
    let b = BFS::generate_walls(20, 20);
    assert_eq!(a.width(), b.width());
    assert_eq!(a.height(), b.height());
    for x in 0..20 {
        for y in 0..20 {
            assert_eq!(a.get(p(x, y)), b.get(p(x, y)), "cell ({x},{y})");
        }
    }
}

#[test]
fn wall_layout_matches_description() {
    let walls = BFS::generate_walls(10, 10);
    for x in 0..10 {
        for y in 0..10 {
            let on_border = x == 0 || x == 9 || y == 0 || y == 9;
            let on_first_column = x == 2 && y < 9;
            let on_second_column = x == 8 && y >= 1;
            assert_eq!(
                walls.get(p(x, y)),
                on_border || on_first_column || on_second_column,
                "cell ({x},{y})"
            );
        }
    }
}

#[test]
fn detour_is_longer_than_manhattan_distance() {
    // On a 20x20 grid the column at x = 4 is open only at y = 18 and the
    // column at x = 16 only at y = 1, so the route from (1,1) to (18,1)
    // must dodge both segments and cannot take the straight line.
    let bfs = BFS::new(20, 20);
    let route = bfs.path(p(1, 1), p(18, 1)).expect("route must exist");
    assert!(route.contains(&p(4, 18)));
    assert!(route.contains(&p(16, 1)));
    assert!(route.len() - 1 > manhattan(p(1, 1), p(18, 1)));
}

#[test]
fn checked_path_accepts_cells_beside_the_border() {
    let bfs = BFS::new(20, 20);
    let r = bfs.checked_path(p(1, 1), p(1, 2));
    let route = r.expect("valid query").expect("reachable");
    assert_eq!(route, vec![p(1, 1), p(1, 2)]);
}

#[test]
fn checked_path_rejects_wall_cells() {
    let bfs = BFS::new(20, 20);
    assert_eq!(bfs.checked_path(p(0, 5), p(1, 1)), Err(PathError::Wall));
    assert_eq!(bfs.checked_path(p(1, 1), p(4, 2)), Err(PathError::Wall));
}

#[test]
fn checked_path_rejects_out_of_bounds_cells() {
    let bfs = BFS::new(20, 20);
    assert_eq!(
        bfs.checked_path(p(25, 5), p(1, 1)),
        Err(PathError::OutOfBounds)
    );
    assert_eq!(
        bfs.checked_path(p(1, 1), p(1, 20)),
        Err(PathError::OutOfBounds)
    );
}

#[test]
fn neighbor_order_is_right_left_down_up() {
    assert_eq!(
        neighbors(p(2, 3), true),
        vec![p(3, 3), p(1, 3), p(2, 4), p(2, 2)]
    );
}

#[test]
fn neighbors_skip_negative_coordinates() {
    assert_eq!(neighbors(p(0, 0), true), vec![p(1, 0), p(0, 1)]);
    assert_eq!(neighbors(p(0, 3), true), vec![p(1, 3), p(0, 4), p(0, 2)]);
}

#[test]
fn neighbors_trusting_caller_skips_no_candidate() {
    assert_eq!(
        neighbors(p(1, 1), false),
        vec![p(2, 1), p(0, 1), p(1, 2), p(1, 0)]
    );
}

#[test]
fn tiny_grid_has_one_open_cell() {
    // On 3x3 the border leaves only (1,1) open; the degenerate interior
    // columns coincide with the border at x = 0.
    let bfs = BFS::new(3, 3);
    let walls = BFS::generate_walls(3, 3);
    for x in 0..3 {
        for y in 0..3 {
            assert_eq!(walls.get(p(x, y)), !(x == 1 && y == 1));
        }
    }
    assert_eq!(bfs.path(p(1, 1), p(1, 1)), Some(vec![p(1, 1)]));
}

#[test]
fn one_by_one_grid_is_all_wall() {
    let bfs = BFS::new(1, 1);
    assert_eq!(bfs.checked_path(p(0, 0), p(0, 0)), Err(PathError::Wall));
}

#[test]
fn grid_get_set_fill() {
    let mut g: Grid<i32> = Grid::new(4, 3, 7);
    assert_eq!(g.width(), 4);
    assert_eq!(g.height(), 3);
    assert_eq!(g.get(p(3, 2)), 7);
    g.set(p(2, 1), -1);
    assert_eq!(g.get(p(2, 1)), -1);
    assert_eq!(g.get(p(1, 2)), 7);
    g.fill(9);
    for x in 0..4 {
        for y in 0..3 {
            assert_eq!(g.get(p(x, y)), 9);
        }
    }
}

#[test]
fn traversal_state_starts_and_clears_unvisited() {
    let mut st = State::new(5, 4);
    for x in 0..5 {
        for y in 0..4 {
            assert!(!st.get_visited(p(x, y)));
            assert_eq!(st.get_depth(p(x, y)), 0);
        }
    }
    st.clear();
    for x in 0..5 {
        for y in 0..4 {
            assert!(!st.get_visited(p(x, y)));
            assert_eq!(st.get_depth(p(x, y)), 0);
        }
    }
}
