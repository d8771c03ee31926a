use maze_solver::grid::{is_traversable, Direction, Point};
use maze_solver::search::{bfs_directions, find_path, PathError};

use Direction::{Down, Left, Right, Up};

fn grid(rows: &[&[u8]]) -> Vec<Vec<u8>> {
    rows.iter().map(|r| r.to_vec()).collect()
}

fn offset(d: Direction) -> (isize, isize) {
    match d {
        Up => (-1, 0),
        Right => (0, 1),
        Left => (0, -1),
        Down => (1, 0),
    }
}

/// Walks `ds` from `start`; returns the end cell if every step stays in
/// the grid on a traversable cell.
fn walk(g: &[Vec<u8>], start: Point, ds: &[Direction]) -> Option<Point> {
    let (mut r, mut c) = (start.0 as isize, start.1 as isize);
    for d in ds {
        let (dr, dc) = offset(*d);
        r += dr;
        c += dc;
        if r < 0 || c < 0 || r as usize >= g.len() || c as usize >= g[0].len() {
            return None;
        }
        if !is_traversable(g[r as usize][c as usize]) {
            return None;
        }
    }
    Some(Point(r as usize, c as usize))
}

/// Distances from `start` by a full table, independent of the library.
fn distance(g: &[Vec<u8>], start: Point, end: Point) -> Option<usize> {
    let rows = g.len();
    let cols = g[0].len();
    let mut dist = vec![vec![usize::MAX; cols]; rows];
    dist[start.0][start.1] = 0;
    let mut frontier = vec![start];
    let mut k = 0;
    while !frontier.is_empty() {
        let mut next = Vec::new();
        for p in &frontier {
            for d in [Up, Right, Left, Down] {
                let (dr, dc) = offset(d);
                let (r, c) = (p.0 as isize + dr, p.1 as isize + dc);
                if r < 0 || c < 0 || r as usize >= rows || c as usize >= cols {
                    continue;
                }
                let (r, c) = (r as usize, c as usize);
                if is_traversable(g[r][c]) && dist[r][c] == usize::MAX {
                    dist[r][c] = k + 1;
                    next.push(Point(r, c));
                }
            }
        }
        frontier = next;
        k += 1;
    }
    if dist[end.0][end.1] == usize::MAX {
        None
    } else {
        Some(dist[end.0][end.1])
    }
}

#[test]
fn open_grid_follows_the_tie_break() {
    let g = grid(&[&[0, 0, 1], &[1, 0, 1], &[1, 0, 0]]);
    let r = find_path(&g, Point(0, 0), Point(2, 2)).unwrap().unwrap();
    assert_eq!(r, vec![Right, Right, Down, Down]);
}

#[test]
fn walls_force_the_open_column() {
    let g = grid(&[&[0, 0, 2], &[1, 2, 2], &[1, 0, 0]]);
    let r = find_path(&g, Point(0, 0), Point(2, 2)).unwrap().unwrap();
    assert_eq!(r, vec![Down, Down, Right, Right]);
}

#[test]
fn returned_path_is_valid_and_shortest() {
    let g = grid(&[
        &[0, 0, 0, 2, 0],
        &[2, 2, 0, 2, 0],
        &[0, 0, 0, 0, 0],
        &[0, 2, 2, 2, 1],
        &[0, 0, 0, 2, 0],
    ]);
    for (s, e) in [
        (Point(0, 0), Point(4, 4)),
        (Point(0, 0), Point(4, 2)),
        (Point(4, 0), Point(0, 4)),
        (Point(2, 2), Point(2, 2)),
    ] {
        let r = find_path(&g, s, e).unwrap().unwrap();
        assert_eq!(walk(&g, s, &r), Some(e));
        assert_eq!(Some(r.len()), distance(&g, s, e));
    }
}

#[test]
fn same_start_and_end_is_empty() {
    let g = grid(&[&[0, 1], &[1, 0]]);
    assert_eq!(find_path(&g, Point(1, 1), Point(1, 1)), Ok(Some(vec![])));
}

#[test]
fn repeated_calls_agree() {
    let g = grid(&[&[0, 0, 0], &[0, 0, 0], &[0, 0, 0]]);
    let a = find_path(&g, Point(0, 0), Point(2, 2));
    let b = find_path(&g, Point(0, 0), Point(2, 2));
    assert_eq!(a, b);
    assert_eq!(a, Ok(Some(vec![Right, Right, Down, Down])));
}

#[test]
fn walled_off_end_is_no_path() {
    let g = grid(&[&[0, 0, 0], &[0, 2, 2], &[0, 2, 0]]);
    assert_eq!(find_path(&g, Point(0, 0), Point(2, 2)), Ok(None));
}

#[test]
fn end_on_a_wall_is_no_path() {
    let g = grid(&[&[0, 0], &[0, 2]]);
    assert_eq!(find_path(&g, Point(0, 0), Point(1, 1)), Ok(None));
}

#[test]
fn wall_is_routed_around() {
    let g = grid(&[&[0, 2, 0], &[0, 0, 0]]);
    assert_eq!(
        find_path(&g, Point(0, 0), Point(0, 2)),
        Ok(Some(vec![Down, Right, Right, Up]))
    );
}

#[test]
fn start_on_a_wall_may_leave_it() {
    let g = grid(&[&[2, 0]]);
    assert_eq!(find_path(&g, Point(0, 0), Point(0, 1)), Ok(Some(vec![Right])));
}

#[test]
fn left_move_is_reported() {
    let g = grid(&[&[0, 0, 0]]);
    assert_eq!(find_path(&g, Point(0, 2), Point(0, 0)), Ok(Some(vec![Left, Left])));
}

#[test]
fn short_row_is_invalid() {
    let g = grid(&[&[0, 0, 0], &[0, 0], &[0, 0, 0]]);
    assert_eq!(find_path(&g, Point(0, 0), Point(2, 2)), Err(PathError::InvalidGrid));
}

#[test]
fn empty_grid_is_invalid() {
    let g: Vec<Vec<u8>> = Vec::new();
    assert_eq!(find_path(&g, Point(0, 0), Point(0, 0)), Err(PathError::InvalidGrid));
}

#[test]
fn points_outside_are_rejected() {
    let g = grid(&[&[0, 0], &[0, 0]]);
    assert_eq!(find_path(&g, Point(2, 0), Point(0, 0)), Err(PathError::PointOutOfBounds));
    assert_eq!(find_path(&g, Point(0, 0), Point(0, 2)), Err(PathError::PointOutOfBounds));
}

#[test]
fn labels_name_each_move() {
    assert_eq!(Up.label(), "Up");
    assert_eq!(Right.label(), "Right");
    assert_eq!(Left.label(), "Left");
    assert_eq!(Down.label(), "Down");
}

#[test]
fn bfs_directions_gives_labels() {
    let g = grid(&[&[0, 0, 2], &[1, 2, 2], &[1, 0, 0]]);
    let r = bfs_directions(g, Point(0, 0), Point(2, 2)).unwrap().unwrap();
    assert_eq!(r, vec!["Down", "Down", "Right", "Right"]);
}

#[test]
fn bfs_directions_without_path() {
    let g = grid(&[&[0, 2], &[2, 0]]);
    assert_eq!(bfs_directions(g, Point(0, 0), Point(1, 1)), Ok(None));
}

#[test]
fn bfs_directions_same_point_is_empty() {
    let g = grid(&[&[2, 0], &[0, 0]]);
    assert_eq!(bfs_directions(g, Point(0, 0), Point(0, 0)), Ok(Some(vec![])));
}

#[test]
fn bfs_directions_rejects_a_short_row() {
    let g = grid(&[&[0, 0, 0], &[0, 0], &[0, 0, 0]]);
    assert_eq!(bfs_directions(g, Point(0, 0), Point(2, 2)), Err(PathError::InvalidGrid));
    assert_eq!(
        bfs_directions(Vec::new(), Point(0, 0), Point(0, 0)),
        Err(PathError::InvalidGrid)
    );
}

#[test]
fn bfs_directions_rejects_points_outside() {
    let g = grid(&[&[0, 0], &[0, 0]]);
    assert_eq!(
        bfs_directions(g.clone(), Point(0, 5), Point(0, 0)),
        Err(PathError::PointOutOfBounds)
    );
    assert_eq!(
        bfs_directions(g, Point(0, 0), Point(2, 0)),
        Err(PathError::PointOutOfBounds)
    );
}

#[test]
fn traversable_codes() {
    assert!(is_traversable(0));
    assert!(is_traversable(1));
    assert!(!is_traversable(2));
    assert!(!is_traversable(9));
}
