use vstd::prelude::*;

verus! {

/// A cell of the grid, as (row, column), both counted from zero.
#[derive(Clone, Copy, Debug, PartialEq, Eq, Hash, Structural)]
pub struct Point(pub usize, pub usize);

/// One move to a 4-adjacent cell.
#[derive(Clone, Copy, Debug, PartialEq, Eq, Hash, Structural)]
pub enum Direction {
    Up,
    Right,
    Left,
    Down,
}

/// The grid's cell codes, row by row.
pub open spec fn cells(grid: &Vec<Vec<u8>>) -> Seq<Seq<u8>> {
    grid@.map_values(|row: Vec<u8>| row@)
}

/// A cell with this code can be entered.
pub open spec fn traversable(code: u8) -> bool {
    code == 0 || code == 1
}

/// At least one row, and every row as long as the first.
pub open spec fn well_formed(g: Seq<Seq<u8>>) -> bool {
    &&& g.len() > 0
    &&& forall|i: int| 0 <= i < g.len() ==> #[trigger] g[i].len() == g[0].len()
}

pub open spec fn in_bounds(g: Seq<Seq<u8>>, p: (int, int)) -> bool {
    0 <= p.0 < g.len() && 0 <= p.1 < g[0].len()
}

/// An in-bounds cell whose code can be entered.
pub open spec fn open_cell(g: Seq<Seq<u8>>, p: (int, int)) -> bool {
    in_bounds(g, p) && traversable(g[p.0][p.1])
}

pub open spec fn pos(p: Point) -> (int, int) {
    (p.0 as int, p.1 as int)
}

/// The unit offset of a move, as (row change, column change).
pub open spec fn offset(d: Direction) -> (int, int) {
    match d {
        Direction::Up => (-1, 0),
        Direction::Right => (0, 1),
        Direction::Left => (0, -1),
        Direction::Down => (1, 0),
    }
}

pub open spec fn step(p: (int, int), d: Direction) -> (int, int) {
    (p.0 + offset(d).0, p.1 + offset(d).1)
}

/// The cell from which a move `d` reaches `p`.
pub open spec fn back(p: (int, int), d: Direction) -> (int, int) {
    (p.0 - offset(d).0, p.1 - offset(d).1)
}

/// Where the moves `ds` lead from `p`.
pub open spec fn walk_end(p: (int, int), ds: Seq<Direction>) -> (int, int)
    decreases ds.len(),
{
    if ds.len() == 0 {
        p
    } else {
        step(walk_end(p, ds.drop_last()), ds.last())
    }
}

/// Every cell that the moves `ds` enter from `p` is an open cell.
pub open spec fn walk_ok(g: Seq<Seq<u8>>, p: (int, int), ds: Seq<Direction>) -> bool
    decreases ds.len(),
{
    if ds.len() == 0 {
        true
    } else {
        walk_ok(g, p, ds.drop_last()) && open_cell(g, walk_end(p, ds))
    }
}

/// The moves `ds` lead from `s` to `e` through open cells only.
pub open spec fn is_path(g: Seq<Seq<u8>>, s: (int, int), e: (int, int), ds: Seq<Direction>) -> bool {
    walk_ok(g, s, ds) && walk_end(s, ds) == e
}

/// A path from `s` to `e` that no other path is shorter than.
pub open spec fn is_shortest_path(
    g: Seq<Seq<u8>>,
    s: (int, int),
    e: (int, int),
    ds: Seq<Direction>,
) -> bool {
    &&& is_path(g, s, e, ds)
    &&& forall|other: Seq<Direction>| #[trigger] is_path(g, s, e, other) ==> ds.len() <= other.len()
}

pub open spec fn has_path(g: Seq<Seq<u8>>, s: (int, int), e: (int, int)) -> bool {
    exists|ds: Seq<Direction>| #[trigger] is_path(g, s, e, ds)
}

/// Moving first by `d` and then by `ds` is taking the path `[d] + ds`.
pub proof fn lemma_walk_prepend(g: Seq<Seq<u8>>, p: (int, int), d: Direction, ds: Seq<Direction>)
    ensures
        walk_end(p, seq![d] + ds) == walk_end(step(p, d), ds),
        walk_ok(g, p, seq![d] + ds) == (open_cell(g, step(p, d)) && walk_ok(g, step(p, d), ds)),
    decreases ds.len(),
{
    let full = seq![d] + ds;
    if ds.len() > 0 {
        assert(full.drop_last() =~= seq![d] + ds.drop_last());
        assert(full.last() == ds.last());
        lemma_walk_prepend(g, p, d, ds.drop_last());
    } else {
        assert(full.drop_last() =~= Seq::<Direction>::empty());
        assert(full.last() == d);
        assert(walk_end(p, full.drop_last()) == p);
        assert(walk_ok(g, p, full.drop_last()));
    }
}

/// True of the code of a cell that can be entered.
pub fn is_traversable(code: u8) -> (r: bool)
    ensures
        r == traversable(code),
{
    code == 0 || code == 1
}

/// The name of a move.
pub open spec fn label_of(d: Direction) -> Seq<char> {
    match d {
        Direction::Up => seq!['U', 'p'],
        Direction::Right => seq!['R', 'i', 'g', 'h', 't'],
        Direction::Left => seq!['L', 'e', 'f', 't'],
        Direction::Down => seq!['D', 'o', 'w', 'n'],
    }
}

impl Direction {
    /// The name of the move: "Up", "Right", "Left" or "Down".
    pub fn label(&self) -> (r: String)
        ensures
            r@ == label_of(*self),
    {
        match self {
            Direction::Up => {
                proof {
                    reveal_strlit("Up");
                }
                "Up".to_owned()
            },
            Direction::Right => {
                proof {
                    reveal_strlit("Right");
                }
                "Right".to_owned()
            },
            Direction::Left => {
                proof {
                    reveal_strlit("Left");
                }
                "Left".to_owned()
            },
            Direction::Down => {
                proof {
                    reveal_strlit("Down");
                }
                "Down".to_owned()
            },
        }
    }
}

} // verus!
