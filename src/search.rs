use vstd::prelude::*;
use crate::grid::{
    back, cells, label_of, has_path, in_bounds, is_path, is_shortest_path, is_traversable, lemma_walk_prepend,
    open_cell, pos, step, traversable, walk_end, walk_ok, well_formed, Direction, Point,
};

verus! {

/// Why a search could not be run on its inputs.
#[derive(Clone, Copy, Debug, PartialEq, Eq, Structural)]
pub enum PathError {
    /// The grid has no rows, or rows of unequal length.
    InvalidGrid,
    /// The start or the end lies outside the grid.
    PointOutOfBounds,
}

/// Where a cell sits in a row-major table of a grid with `cols` columns.
pub open spec fn idx(cols: int, p: (int, int)) -> int {
    p.0 * cols + p.1
}

/// How many entries of `s` are set.
pub open spec fn count_true(s: Seq<bool>) -> nat
    decreases s.len(),
{
    if s.len() == 0 {
        0
    } else {
        count_true(s.drop_last()) + if s.last() {
            1nat
        } else {
            0nat
        }
    }
}

proof fn lemma_idx_bounds(rows: int, cols: int, p: (int, int))
    requires
        0 <= p.0 < rows,
        0 <= p.1 < cols,
    ensures
        0 <= idx(cols, p) < rows * cols,
{
    assert(0 <= p.0 * cols + p.1 < rows * cols) by (nonlinear_arith)
        requires
            0 <= p.0 < rows,
            0 <= p.1 < cols,
    ;
}

proof fn lemma_idx_injective(cols: int, p: (int, int), q: (int, int))
    requires
        0 <= p.0,
        0 <= q.0,
        0 <= p.1 < cols,
        0 <= q.1 < cols,
        idx(cols, p) == idx(cols, q),
    ensures
        p == q,
{
    if p.0 < q.0 {
        assert(p.0 * cols + p.1 < q.0 * cols + q.1) by (nonlinear_arith)
            requires
                p.0 < q.0,
                0 <= p.1 < cols,
                0 <= q.1,
        ;
    } else if q.0 < p.0 {
        assert(q.0 * cols + q.1 < p.0 * cols + p.1) by (nonlinear_arith)
            requires
                q.0 < p.0,
                0 <= q.1 < cols,
                0 <= p.1,
        ;
    }
}

proof fn lemma_count_le(s: Seq<bool>)
    ensures
        count_true(s) <= s.len(),
    decreases s.len(),
{
    if s.len() > 0 {
        lemma_count_le(s.drop_last());
    }
}

proof fn lemma_count_none(s: Seq<bool>)
    requires
        forall|i: int| 0 <= i < s.len() ==> !s[i],
    ensures
        count_true(s) == 0,
    decreases s.len(),
{
    if s.len() > 0 {
        lemma_count_none(s.drop_last());
    }
}

proof fn lemma_count_set(s: Seq<bool>, k: int)
    requires
        0 <= k < s.len(),
        !s[k],
    ensures
        count_true(s.update(k, true)) == count_true(s) + 1,
    decreases s.len(),
{
    let t = s.update(k, true);
    if k == s.len() - 1 {
        assert(t.drop_last() =~= s.drop_last());
    } else {
        assert(t.drop_last() =~= s.drop_last().update(k, true));
        lemma_count_set(s.drop_last(), k);
    }
}

/// `n` copies of `x`.
fn filled<T: Copy>(x: T, n: usize) -> (r: Vec<T>)
    ensures
        r@.len() == n,
        forall|i: int| 0 <= i < n ==> r@[i] == x,
{
    let mut r: Vec<T> = Vec::new();
    while r.len() < n
        invariant
            r@.len() <= n,
            forall|i: int| 0 <= i < r@.len() ==> r@[i] == x,
        decreases n - r@.len(),
    {
        r.push(x);
    }
    r
}

/// The neighbour of `p` in direction `d`, if it lies inside a grid of
/// `rows` by `cols` cells.
fn neighbor(p: Point, d: Direction, rows: usize, cols: usize) -> (r: Option<Point>)
    requires
        p.0 < rows,
        p.1 < cols,
    ensures
        r is Some <==> (0 <= step(pos(p), d).0 < rows && 0 <= step(pos(p), d).1 < cols),
        r is Some ==> pos(r->0) == step(pos(p), d),
{
    match d {
        Direction::Up => if p.0 > 0 {
            Some(Point(p.0 - 1, p.1))
        } else {
            None
        },
        Direction::Right => if p.1 + 1 < cols {
            Some(Point(p.0, p.1 + 1))
        } else {
            None
        },
        Direction::Left => if p.1 > 0 {
            Some(Point(p.0, p.1 - 1))
        } else {
            None
        },
        Direction::Down => if p.0 + 1 < rows {
            Some(Point(p.0 + 1, p.1))
        } else {
            None
        },
    }
}

/// A snapshot of a breadth-first search: for each cell of the grid (row
/// major) whether it was found and by which move, the cells in the order
/// found, and how many of them were expanded.
pub struct BfsState {
    pub visited: Seq<bool>,
    pub parent: Seq<Option<Direction>>,
    pub queue: Seq<(int, int)>,
    pub head: int,
}

/// The search before any step: only the start found.
pub open spec fn init_state(g: Seq<Seq<u8>>, s: (int, int)) -> BfsState {
    let n = (g.len() * g[0].len()) as nat;
    BfsState {
        visited: Seq::new(n, |i: int| i == idx(g[0].len() as int, s)),
        parent: Seq::new(n, |i: int| None),
        queue: seq![s],
        head: 0,
    }
}

/// Tries the move `d` from the cell at `head`: an open cell not found before
/// is found, by that move.
pub open spec fn try_move(g: Seq<Seq<u8>>, st: BfsState, d: Direction) -> BfsState {
    let q = step(st.queue[st.head], d);
    let k = idx(g[0].len() as int, q);
    if in_bounds(g, q) && !st.visited[k] && traversable(g[q.0][q.1]) {
        BfsState {
            visited: st.visited.update(k, true),
            parent: st.parent.update(k, Some(d)),
            queue: st.queue.push(q),
            head: st.head,
        }
    } else {
        st
    }
}

/// Expands the cell at `head`, trying up, right, left and down in turn.
pub open spec fn expand(g: Seq<Seq<u8>>, st: BfsState) -> BfsState {
    let t = try_move(
        g,
        try_move(g, try_move(g, try_move(g, st, Direction::Up), Direction::Right), Direction::Left),
        Direction::Down,
    );
    BfsState { visited: t.visited, parent: t.parent, queue: t.queue, head: st.head + 1 }
}

/// The search stops when nothing is left to expand or the end comes up.
pub open spec fn finished(st: BfsState, e: (int, int)) -> bool {
    st.head >= st.queue.len() || st.queue[st.head] == e
}

/// The search after `n` steps; once finished, it stays as it is.
pub open spec fn run(g: Seq<Seq<u8>>, s: (int, int), e: (int, int), n: nat) -> BfsState
    decreases n,
{
    if n == 0 {
        init_state(g, s)
    } else {
        let prev = run(g, s, e, (n - 1) as nat);
        if finished(prev, e) {
            prev
        } else {
            expand(g, prev)
        }
    }
}

/// `ds` are the recorded moves that lead to `c` from a cell with none.
pub open spec fn chain(parent: Seq<Option<Direction>>, cols: int, c: (int, int), ds: Seq<Direction>) -> bool
    decreases ds.len(),
{
    if ds.len() == 0 {
        parent[idx(cols, c)] is None
    } else {
        parent[idx(cols, c)] == Some(ds.last()) && chain(parent, cols, back(c, ds.last()), ds.drop_last())
    }
}

/// `ds` is what the search, run until the end comes up, records from the
/// start to `e`.
pub open spec fn chosen(g: Seq<Seq<u8>>, s: (int, int), e: (int, int), ds: Seq<Direction>) -> bool {
    exists|n: nat|
        {
            let st = #[trigger] run(g, s, e, n);
            &&& st.head < st.queue.len()
            &&& st.queue[st.head] == e
            &&& chain(st.parent, g[0].len() as int, e, ds)
        }
}

proof fn lemma_run_stable(g: Seq<Seq<u8>>, s: (int, int), e: (int, int), n: nat, m: nat)
    requires
        n <= m,
        finished(run(g, s, e, n), e),
    ensures
        run(g, s, e, m) == run(g, s, e, n),
    decreases m,
{
    if m > n {
        lemma_run_stable(g, s, e, n, (m - 1) as nat);
    }
}

proof fn lemma_chain_unique(
    parent: Seq<Option<Direction>>,
    cols: int,
    c: (int, int),
    a: Seq<Direction>,
    b: Seq<Direction>,
)
    requires
        chain(parent, cols, c, a),
        chain(parent, cols, c, b),
    ensures
        a == b,
    decreases a.len(),
{
    if a.len() > 0 {
        lemma_chain_unique(parent, cols, back(c, a.last()), a.drop_last(), b.drop_last());
        assert(a =~= a.drop_last().push(a.last()));
        assert(b =~= b.drop_last().push(b.last()));
    } else {
        assert(a =~= b);
    }
}

/// Of all sequences of moves, one at most is what the search chooses.
proof fn lemma_choice_is_unique(
    g: Seq<Seq<u8>>,
    s: (int, int),
    e: (int, int),
    a: Seq<Direction>,
    b: Seq<Direction>,
)
    requires
        chosen(g, s, e, a),
        chosen(g, s, e, b),
    ensures
        a == b,
{
    let n = choose|n: nat|
        {
            let st = #[trigger] run(g, s, e, n);
            &&& st.head < st.queue.len()
            &&& st.queue[st.head] == e
            &&& chain(st.parent, g[0].len() as int, e, a)
        };
    let m = choose|m: nat|
        {
            let st = #[trigger] run(g, s, e, m);
            &&& st.head < st.queue.len()
            &&& st.queue[st.head] == e
            &&& chain(st.parent, g[0].len() as int, e, b)
        };
    if n <= m {
        lemma_run_stable(g, s, e, n, m);
    } else {
        lemma_run_stable(g, s, e, m, n);
    }
    lemma_chain_unique(run(g, s, e, n).parent, g[0].len() as int, e, a, b);
}

/// What `find_path` may return for a valid grid and points: the shortest
/// path that the search chooses, or `None` where no path exists.
pub open spec fn is_search_outcome(
    g: Seq<Seq<u8>>,
    s: (int, int),
    e: (int, int),
    r: Option<Seq<Direction>>,
) -> bool {
    match r {
        Some(ds) => is_shortest_path(g, s, e, ds) && chosen(g, s, e, ds),
        None => !has_path(g, s, e),
    }
}

/// The search is deterministic: two outcomes allowed for the same grid and
/// points are equal, the choice among shortest paths included.
pub proof fn lemma_outcome_deterministic(
    g: Seq<Seq<u8>>,
    s: (int, int),
    e: (int, int),
    a: Option<Seq<Direction>>,
    b: Option<Seq<Direction>>,
)
    requires
        is_search_outcome(g, s, e, a),
        is_search_outcome(g, s, e, b),
    ensures
        a == b,
{
    match (a, b) {
        (Some(x), Some(y)) => lemma_choice_is_unique(g, s, e, x, y),
        (Some(x), None) => assert(is_path(g, s, e, x)),
        (None, Some(y)) => assert(is_path(g, s, e, y)),
        (None, None) => {},
    }
}

/// The state of one breadth-first search: the cells found so far, in the
/// order found (`queue`, of which those before `head` have been expanded),
/// and for each cell of the grid whether it was found and by which move.
struct Search {
    rows: usize,
    cols: usize,
    visited: Vec<bool>,
    parent: Vec<Option<Direction>>,
    queue: Vec<Point>,
    head: usize,
    /// The number of moves from the start to each queued cell.
    dist: Ghost<Seq<int>>,
    /// The place of each found cell in the queue.
    at: Ghost<Map<(int, int), int>>,
}

impl Search {
    spec fn state(&self) -> BfsState {
        BfsState {
            visited: self.visited@,
            parent: self.parent@,
            queue: self.queue@.map_values(|p: Point| pos(p)),
            head: self.head as int,
        }
    }

    spec fn cell(&self, i: int) -> (int, int) {
        pos(self.queue@[i])
    }

    spec fn seen(&self, c: (int, int)) -> bool {
        self.visited@[idx(self.cols as int, c)]
    }

    spec fn dist_of(&self, c: (int, int)) -> int {
        self.dist@[self.at@[c]]
    }

    /// The queued cell `i` was found from a found cell one move nearer the start.
    spec fn linked(&self, g: Seq<Seq<u8>>, i: int) -> bool {
        let c = self.cell(i);
        let k = idx(self.cols as int, c);
        &&& open_cell(g, c)
        &&& self.parent@[k] is Some
        &&& in_bounds(g, back(c, self.parent@[k]->0))
        &&& self.seen(back(c, self.parent@[k]->0))
        &&& self.dist@[i] == self.dist_of(back(c, self.parent@[k]->0)) + 1
    }

    /// Every open neighbour of the queued cell `i` has been found, at most one
    /// move farther from the start.
    spec fn expanded(&self, g: Seq<Seq<u8>>, i: int) -> bool {
        forall|d: Direction|
            open_cell(g, #[trigger] step(self.cell(i), d)) ==> {
                &&& self.seen(step(self.cell(i), d))
                &&& self.dist_of(step(self.cell(i), d)) <= self.dist@[i] + 1
            }
    }

    spec fn inv(&self, g: Seq<Seq<u8>>, s: (int, int), e: (int, int)) -> bool {
        let n = self.queue@.len();
        &&& well_formed(g)
        &&& self.rows == g.len()
        &&& self.cols == g[0].len()
        &&& self.rows * self.cols <= usize::MAX
        &&& self.visited@.len() == self.rows * self.cols
        &&& self.parent@.len() == self.rows * self.cols
        &&& 0 < n
        &&& self.dist@.len() == n
        &&& self.head <= n
        &&& n == count_true(self.visited@)
        &&& self.cell(0) == s
        &&& self.dist@[0] == 0
        &&& self.parent@[idx(self.cols as int, s)] is None
        &&& forall|i: int|
            0 <= i < n ==> {
                &&& in_bounds(g, #[trigger] self.cell(i))
                &&& self.seen(self.cell(i))
                &&& self.at@.contains_key(self.cell(i))
                &&& self.at@[self.cell(i)] == i
            }
        &&& forall|c: (int, int)|
            in_bounds(g, c) && #[trigger] self.seen(c) ==> {
                &&& self.at@.contains_key(c)
                &&& 0 <= self.at@[c] < n
                &&& self.cell(self.at@[c]) == c
            }
        &&& forall|i: int, j: int|
            0 <= i <= j < n ==> #[trigger] self.dist@[i] <= #[trigger] self.dist@[j]
        &&& self.head < n ==> self.dist@[n - 1] <= self.dist@[self.head as int] + 1
        &&& forall|i: int| 0 < i < n ==> #[trigger] self.linked(g, i)
        &&& forall|i: int|
            0 <= i < self.head ==> #[trigger] self.expanded(g, i) && self.cell(i) != e
    }
}


impl Search {
    /// Finds the neighbour of the cell at `head` in direction `d`, if it is an
    /// open cell not found before.
    fn visit(&mut self, grid: &Vec<Vec<u8>>, start: Point, end: Point, d: Direction)
        requires
            old(self).inv(cells(grid), pos(start), pos(end)),
            old(self).head < old(self).queue@.len(),
        ensures
            final(self).inv(cells(grid), pos(start), pos(end)),
            final(self).head == old(self).head,
            final(self).queue@.len() >= old(self).queue@.len(),
            final(self).state() == try_move(cells(grid), old(self).state(), d),
            final(self).cell(final(self).head as int) == old(self).cell(old(self).head as int),
            final(self).dist@[final(self).head as int] == old(self).dist@[old(self).head as int],
            forall|c: (int, int)|
                in_bounds(cells(grid), c) && #[trigger] old(self).seen(c) ==> final(self).seen(c)
                    && final(self).dist_of(c) == old(self).dist_of(c),
            open_cell(cells(grid), step(old(self).cell(old(self).head as int), d)) ==> {
                &&& final(self).seen(step(old(self).cell(old(self).head as int), d))
                &&& final(self).dist_of(step(old(self).cell(old(self).head as int), d))
                    <= old(self).dist@[old(self).head as int] + 1
            },
    {
        let ghost g = cells(grid);
        let ghost o = *self;
        let p = self.queue[self.head];
        let ghost h = self.head as int;
        let ghost n = self.queue@.len();
        proof {
            assert(in_bounds(g, self.cell(h)));
        }
        proof {
            assert(o.state().queue[h] == o.cell(h));
        }
        if let Some(q) = neighbor(p, d, self.rows, self.cols) {
            proof {
                lemma_idx_bounds(self.rows as int, self.cols as int, pos(q));
                assert(q.0 * self.cols + q.1 == idx(self.cols as int, pos(q)));
            }
            let k = q.0 * self.cols + q.1;
            proof {
                assert(g[q.0 as int] == grid@[q.0 as int]@);
                assert(g[q.0 as int].len() == g[0].len());
            }
            if !self.visited[k] && is_traversable(grid[q.0][q.1]) {
                let ghost qc = pos(q);
                let ghost dq = self.dist@[h] + 1;
                proof {
                    lemma_count_set(self.visited@, k as int);
                    lemma_count_le(self.visited@.update(k as int, true));
                    assert(g[q.0 as int] == grid@[q.0 as int]@);
                    assert(open_cell(g, qc));
                }
                self.visited.set(k, true);
                self.parent.set(k, Some(d));
                self.queue.push(q);
                self.dist = Ghost(self.dist@.push(dq));
                self.at = Ghost(self.at@.insert(qc, n as int));
                proof {
                    assert(self.visited@ == o.visited@.update(k as int, true));
                    assert(!o.visited@[k as int]);
                    assert forall|c: (int, int)| #[trigger] in_bounds(g, c) implies self.seen(c) == (
                    o.seen(c) || c == qc) && (o.seen(c) ==> c != qc) && (c != qc ==> idx(
                        self.cols as int,
                        c,
                    ) != k as int) by {
                        let kc = idx(self.cols as int, c);
                        lemma_idx_bounds(self.rows as int, self.cols as int, c);
                        if kc == k as int {
                            lemma_idx_injective(self.cols as int, c, qc);
                        }
                    }
                    assert forall|i: int| 0 <= i < n implies #[trigger] self.cell(i) == o.cell(i)
                        && self.dist@[i] == o.dist@[i] && self.cell(i) != qc by {
                        assert(o.seen(o.cell(i)));
                    }
                    assert forall|c: (int, int)| in_bounds(g, c) && #[trigger] o.seen(c) implies self.seen(c)
                        && self.dist_of(c) == o.dist_of(c) && c != qc by {
                        assert(in_bounds(g, c));
                        assert(o.cell(o.at@[c]) == c);
                        assert(c != qc);
                        assert(self.at@[c] == o.at@[c]);
                        assert(0 <= o.at@[c] < n);
                    }
                    assert forall|c: (int, int)| in_bounds(g, c) && #[trigger] self.seen(c) implies {
                        &&& self.at@.contains_key(c)
                        &&& 0 <= self.at@[c] < n + 1
                        &&& self.cell(self.at@[c]) == c
                    } by {
                        assert(in_bounds(g, c));
                        if c != qc {
                            assert(o.seen(c));
                        }
                    }
                    assert forall|i: int| 0 < i < n + 1 implies #[trigger] self.linked(g, i) by {
                        if i < n {
                            assert(o.linked(g, i));
                            assert(in_bounds(g, o.cell(i)));
                            lemma_idx_bounds(self.rows as int, self.cols as int, o.cell(i));
                            let b = back(o.cell(i), o.parent@[idx(self.cols as int, o.cell(i))]->0);
                            assert(o.seen(b));
                        } else {
                            assert(step(o.cell(h), d) == qc);
                            assert(back(qc, d) == o.cell(h));
                            assert(o.seen(o.cell(h)));
                        }
                    }
                    assert forall|i: int| 0 <= i < self.head implies #[trigger] self.expanded(g, i)
                        && self.cell(i) != pos(end) by {
                        assert(o.expanded(g, i));
                        assert forall|d2: Direction| open_cell(g, #[trigger] step(self.cell(i), d2)) implies {
                            &&& self.seen(step(self.cell(i), d2))
                            &&& self.dist_of(step(self.cell(i), d2)) <= self.dist@[i] + 1
                        } by {
                            assert(o.seen(step(o.cell(i), d2)));
                        }
                    }
                    assert(pos(start) != qc) by {
                        assert(o.seen(o.cell(0)));
                    }

                    assert(in_bounds(g, o.cell(0)));
                    assert(self.parent@ == o.parent@.update(k as int, Some(d)));
                    assert(idx(self.cols as int, pos(start)) != k as int);
                    lemma_idx_bounds(self.rows as int, self.cols as int, pos(start));
                    assert(self.queue@.len() == n + 1);
                    assert(forall|i: int, j: int|
                        0 <= i <= j < self.queue@.len() ==> #[trigger] self.dist@[i]
                            <= #[trigger] self.dist@[j]);
                    assert(forall|i: int|
                        0 <= i < self.queue@.len() ==> {
                            &&& in_bounds(g, #[trigger] self.cell(i))
                            &&& self.seen(self.cell(i))
                            &&& self.at@.contains_key(self.cell(i))
                            &&& self.at@[self.cell(i)] == i
                        });
                    lemma_inv_intro(&*self, g, pos(start), pos(end));
                    assert(self.state().queue =~= o.state().queue.push(qc));
                    assert(o.state().queue[h] == o.cell(h));
                }
            } else {
                proof {
                    assert(o.state().queue[h] == o.cell(h));
                    assert(pos(q) == step(o.cell(h), d));
                    if open_cell(g, pos(q)) {
                        assert(g[q.0 as int] == grid@[q.0 as int]@);
                        assert(self.seen(pos(q)));
                        assert(self.dist_of(pos(q)) <= self.dist@[n - 1]);
                    }
                }
            }
        }
    }
}

impl Search {
    /// Follows the recorded moves back from the end to the start, and returns
    /// them in travel order.
    fn trace(&self, grid: &Vec<Vec<u8>>, start: Point, end: Point) -> (r: Vec<Direction>)
        requires
            self.inv(cells(grid), pos(start), pos(end)),
            self.head < self.queue@.len(),
            self.cell(self.head as int) == pos(end),
        ensures
            is_path(cells(grid), pos(start), pos(end), r@),
            r@.len() == self.dist@[self.head as int],
            chain(self.parent@, self.cols as int, pos(end), r@),
    {
        let ghost g = cells(grid);
        let ghost total = self.dist@[self.head as int];
        let mut rev: Vec<Direction> = Vec::new();
        let mut cur = end;
        let ghost mut tail: Seq<Direction> = Seq::empty();
        proof {
            assert(in_bounds(g, self.cell(self.head as int)));
            assert(self.seen(pos(end)));
            assert(self.dist@[0] <= self.dist@[self.head as int]);
        }
        loop
            invariant
                g == cells(grid),
                self.inv(g, pos(start), pos(end)),
                in_bounds(g, pos(cur)),
                self.seen(pos(cur)),
                is_path(g, pos(cur), pos(end), tail),
                rev@.len() == tail.len(),
                forall|i: int| 0 <= i < rev@.len() ==> rev@[i] == tail[tail.len() - 1 - i],
                tail.len() + self.dist_of(pos(cur)) == total,
                0 <= self.dist_of(pos(cur)),
                forall|pre: Seq<Direction>| #[trigger]
                    chain(self.parent@, self.cols as int, pos(cur), pre) ==> chain(
                        self.parent@,
                        self.cols as int,
                        pos(end),
                        pre + tail,
                    ),
            ensures
                self.at@[pos(cur)] == 0,
                chain(self.parent@, self.cols as int, pos(end), tail),
            decreases self.dist_of(pos(cur)),
        {
            let ghost c = pos(cur);
            let ghost i = self.at@[c];
            proof {
                lemma_idx_bounds(self.rows as int, self.cols as int, c);
            }
            let k = cur.0 * self.cols + cur.1;
            match self.parent[k] {
                None => {
                    proof {
                        if i != 0 {
                            assert(self.linked(g, i));
                        }
                        let empty = Seq::<Direction>::empty();
                        assert(chain(self.parent@, self.cols as int, pos(cur), empty));
                        assert(empty + tail =~= tail);
                    }
                    break;
                },
                Some(d) => {
                    proof {
                        if i == 0 {
                            assert(c == pos(start));
                        }
                        assert(self.linked(g, i));
                        lemma_walk_prepend(g, back(c, d), d, tail);
                        assert(step(back(c, d), d) == c);
                        let b = back(c, d);
                        assert(self.dist@[0] <= self.dist@[self.at@[b]]);
                    }
                    let prev = match d {
                        Direction::Up => Point(cur.0 + 1, cur.1),
                        Direction::Right => Point(cur.0, cur.1 - 1),
                        Direction::Left => Point(cur.0, cur.1 + 1),
                        Direction::Down => Point(cur.0 - 1, cur.1),
                    };
                    rev.push(d);
                    proof {
                        let old_tail = tail;
                        tail = seq![d] + old_tail;
                        assert forall|pre: Seq<Direction>| #[trigger]
                            chain(self.parent@, self.cols as int, back(c, d), pre) implies chain(
                            self.parent@,
                            self.cols as int,
                            pos(end),
                            pre + tail,
                        ) by {
                            let longer = pre.push(d);
                            assert(longer.drop_last() =~= pre);
                            assert(chain(self.parent@, self.cols as int, c, longer));
                            assert(longer + old_tail =~= pre + tail);
                        }
                        assert forall|j: int| 0 <= j < rev@.len() implies rev@[j] == tail[tail.len()
                            - 1 - j] by {
                            if j < old_tail.len() {
                                assert(rev@[j] == old_tail[old_tail.len() - 1 - j]);
                            }
                        }
                    }
                    cur = prev;
                },
            }
        }
        proof {
            assert(self.at@[pos(cur)] == 0);
            assert(pos(cur) == pos(start));
        }
        let mut path: Vec<Direction> = Vec::new();
        let mut j: usize = rev.len();
        while j > 0
            invariant
                j <= rev@.len(),
                rev@.len() == tail.len(),
                forall|i: int| 0 <= i < rev@.len() ==> rev@[i] == tail[tail.len() - 1 - i],
                path@ == tail.subrange(0, rev@.len() - j),
            decreases j,
        {
            j = j - 1;
            path.push(rev[j]);
            proof {
                assert(path@ =~= tail.subrange(0, rev@.len() - j));
            }
        }
        proof {
            assert(path@ =~= tail);
        }
        path
    }
}

/// While the cell at `head` is still to be expanded, every walk from the
/// start that is no longer than its distance ends on a found cell, at most
/// that many moves from the start.
proof fn lemma_reach_within(
    st: &Search,
    g: Seq<Seq<u8>>,
    s: (int, int),
    e: (int, int),
    ds: Seq<Direction>,
)
    requires
        st.inv(g, s, e),
        st.head < st.queue@.len(),
        walk_ok(g, s, ds),
        ds.len() <= st.dist@[st.head as int],
    ensures
        in_bounds(g, walk_end(s, ds)),
        st.seen(walk_end(s, ds)),
        st.dist_of(walk_end(s, ds)) <= ds.len(),
    decreases ds.len(),
{
    if ds.len() == 0 {
        assert(in_bounds(g, st.cell(0)));
    } else {
        let pre = ds.drop_last();
        lemma_reach_within(st, g, s, e, pre);
        let y = walk_end(s, pre);
        let i = st.at@[y];
        if i >= st.head {
            assert(st.dist@[st.head as int] <= st.dist@[i]);
        }
        assert(st.expanded(g, i));
        assert(open_cell(g, step(st.cell(i), ds.last())));
    }
}

/// Once every found cell has been expanded, every walk from the start ends
/// on a found cell.
proof fn lemma_reach_all(st: &Search, g: Seq<Seq<u8>>, s: (int, int), e: (int, int), ds: Seq<Direction>)
    requires
        st.inv(g, s, e),
        st.head == st.queue@.len(),
        walk_ok(g, s, ds),
    ensures
        in_bounds(g, walk_end(s, ds)),
        st.seen(walk_end(s, ds)),
    decreases ds.len(),
{
    if ds.len() == 0 {
        assert(in_bounds(g, st.cell(0)));
    } else {
        let pre = ds.drop_last();
        lemma_reach_all(st, g, s, e, pre);
        let i = st.at@[walk_end(s, pre)];
        assert(st.expanded(g, i));
        assert(open_cell(g, step(st.cell(i), ds.last())));
    }
}

/// The shortest sequence of moves from `start` to `end` through open cells,
/// or `None` where there is none. Of several shortest ones, the search
/// expands each cell's neighbours in the order up, right, left, down.
fn bfs(grid: &Vec<Vec<u8>>, start: Point, end: Point) -> (r: Option<Vec<Direction>>)
    requires
        well_formed(cells(grid)),
        in_bounds(cells(grid), pos(start)),
        in_bounds(cells(grid), pos(end)),
        grid@.len() * grid@[0]@.len() <= usize::MAX,
    ensures
        match r {
            Some(ds) => is_shortest_path(cells(grid), pos(start), pos(end), ds@) && chosen(
                cells(grid),
                pos(start),
                pos(end),
                ds@,
            ),
            None => !has_path(cells(grid), pos(start), pos(end)),
        },
{
    let ghost g = cells(grid);
    let rows = grid.len();
    let cols = grid[0].len();
    proof {
        assert(g[0] == grid@[0]@);
        lemma_idx_bounds(rows as int, cols as int, pos(start));
    }
    let n = rows * cols;
    let mut visited = filled(false, n);
    let parent = filled(None, n);
    let k = start.0 * cols + start.1;
    proof {
        lemma_count_none(visited@);
        lemma_count_set(visited@, k as int);
    }
    visited.set(k, true);
    let mut queue: Vec<Point> = Vec::new();
    queue.push(start);
    let dist0: Ghost<Seq<int>> = Ghost(Seq::empty().push(0int));
    let at0: Ghost<Map<(int, int), int>> = Ghost(Map::empty().insert(pos(start), 0int));
    let mut st = Search {
        rows,
        cols,
        visited,
        parent,
        queue,
        head: 0,
        dist: dist0,
        at: at0,
    };
    proof {
        assert forall|c: (int, int)| in_bounds(g, c) && #[trigger] st.seen(c) implies c == pos(
            start,
        ) by {
            lemma_idx_bounds(rows as int, cols as int, c);
            if c != pos(start) {
                lemma_idx_injective(cols as int, c, pos(start));
            }
        }
        assert(st.state().visited =~= init_state(g, pos(start)).visited);
        assert(st.state().parent =~= init_state(g, pos(start)).parent);
        assert(st.state().queue =~= init_state(g, pos(start)).queue);
    }
    let ghost mut steps: nat = 0;
    while st.head < st.queue.len()
        invariant
            g == cells(grid),
            st.state() == run(g, pos(start), pos(end), steps),
            st.inv(g, pos(start), pos(end)),
            n == st.rows * st.cols,
        decreases n - st.head,
    {
        let p = st.queue[st.head];
        if p.0 == end.0 && p.1 == end.1 {
            assert(st.cell(st.head as int) == pos(end));
            let path = st.trace(grid, start, end);
            proof {
                let now = run(g, pos(start), pos(end), steps);
                assert(now.queue[now.head] == st.cell(st.head as int));
                assert(chosen(g, pos(start), pos(end), path@));
                assert forall|other: Seq<Direction>| #[trigger]
                    is_path(g, pos(start), pos(end), other) implies path@.len() <= other.len() by {
                    if other.len() < st.dist@[st.head as int] {
                        lemma_reach_within(&st, g, pos(start), pos(end), other);
                        assert(st.cell(st.head as int) == pos(end));
                        assert(st.at@[pos(end)] == st.head);
                    }
                }
            }
            return Some(path);
        }
        let ghost h = st.head as int;
        let ghost c = st.cell(h);
        let ghost st0 = st;
        st.visit(grid, start, end, Direction::Up);
        let ghost st1 = st;
        st.visit(grid, start, end, Direction::Right);
        let ghost st2 = st;
        st.visit(grid, start, end, Direction::Left);
        let ghost st3 = st;
        st.visit(grid, start, end, Direction::Down);
        proof {
            assert forall|d: Direction| open_cell(g, #[trigger] step(st.cell(h), d)) implies {
                &&& st.seen(step(st.cell(h), d))
                &&& st.dist_of(step(st.cell(h), d)) <= st.dist@[h] + 1
            } by {
                let q = step(c, d);
                match d {
                    Direction::Up => {
                        assert(st1.seen(q) && st2.seen(q) && st3.seen(q));
                    },
                    Direction::Right => {
                        assert(st2.seen(q) && st3.seen(q));
                    },
                    Direction::Left => {
                        assert(st3.seen(q));
                    },
                    Direction::Down => {},
                }
            }
            assert(st.expanded(g, h));
            lemma_count_le(st.visited@);
        }
        let ghost st4 = st;
        st.head = st.head + 1;
        proof {
            let before = run(g, pos(start), pos(end), steps);
            assert(before.queue[before.head] == c);
            assert(!finished(before, pos(end)));
            assert(st.state() == expand(g, before));
            steps = steps + 1;
            assert(st.queue == st4.queue && st.visited == st4.visited && st.dist == st4.dist
                && st.at == st4.at && st.parent == st4.parent);
            assert(st.cell(h) != pos(end));
            assert forall|i: int| 0 <= i < st.head implies #[trigger] st.expanded(g, i) && st.cell(
                i,
            ) != pos(end) by {
                if i < h {
                    assert(st4.expanded(g, i));
                } else {
                    assert(st4.expanded(g, h));
                }
            }
            if st.head < st.queue@.len() {
                assert(st.dist@[h] <= st.dist@[st.head as int]);
            }
            assert forall|i: int| 0 <= i < st.queue@.len() implies {
                &&& in_bounds(g, #[trigger] st.cell(i))
                &&& st.seen(st.cell(i))
                &&& st.at@.contains_key(st.cell(i))
                &&& st.at@[st.cell(i)] == i
            } by {
                assert(in_bounds(g, st4.cell(i)));
            }
            assert forall|c: (int, int)| in_bounds(g, c) && #[trigger] st.seen(c) implies {
                &&& st.at@.contains_key(c)
                &&& 0 <= st.at@[c] < st.queue@.len()
                &&& st.cell(st.at@[c]) == c
            } by {
                assert(st4.seen(c));
            }
            assert forall|i: int| 0 < i < st.queue@.len() implies #[trigger] st.linked(g, i) by {
                assert(st4.linked(g, i));
            }
            lemma_inv_intro(&st, g, pos(start), pos(end));
        }
    }
    proof {
        assert forall|ds: Seq<Direction>| !#[trigger] is_path(g, pos(start), pos(end), ds) by {
            if is_path(g, pos(start), pos(end), ds) {
                lemma_reach_all(&st, g, pos(start), pos(end), ds);
                let i = st.at@[pos(end)];
                assert(st.expanded(g, i));
            }
        }
    }
    None
}

/// The search invariant, from its parts.
proof fn lemma_inv_intro(st: &Search, g: Seq<Seq<u8>>, s: (int, int), e: (int, int))
    requires
        well_formed(g),
        st.rows == g.len(),
        st.cols == g[0].len(),
        st.rows * st.cols <= usize::MAX,
        st.visited@.len() == st.rows * st.cols,
        st.parent@.len() == st.rows * st.cols,
        0 < st.queue@.len(),
        st.dist@.len() == st.queue@.len(),
        st.head <= st.queue@.len(),
        st.queue@.len() == count_true(st.visited@),
        st.cell(0) == s,
        st.dist@[0] == 0,
        st.parent@[idx(st.cols as int, s)] is None,
        forall|i: int|
            0 <= i < st.queue@.len() ==> {
                &&& in_bounds(g, #[trigger] st.cell(i))
                &&& st.seen(st.cell(i))
                &&& st.at@.contains_key(st.cell(i))
                &&& st.at@[st.cell(i)] == i
            },
        forall|c: (int, int)|
            in_bounds(g, c) && #[trigger] st.seen(c) ==> {
                &&& st.at@.contains_key(c)
                &&& 0 <= st.at@[c] < st.queue@.len()
                &&& st.cell(st.at@[c]) == c
            },
        forall|i: int, j: int|
            0 <= i <= j < st.queue@.len() ==> #[trigger] st.dist@[i] <= #[trigger] st.dist@[j],
        st.head < st.queue@.len() ==> st.dist@[st.queue@.len() - 1] <= st.dist@[st.head as int] + 1,
        forall|i: int| 0 < i < st.queue@.len() ==> #[trigger] st.linked(g, i),
        forall|i: int|
            0 <= i < st.head ==> #[trigger] st.expanded(g, i) && st.cell(i) != e,
    ensures
        st.inv(g, s, e),
{
}

/// The labels of a sequence of moves, in order.
pub open spec fn labels_of(ds: Seq<Direction>) -> Seq<Seq<char>> {
    ds.map_values(|d: Direction| label_of(d))
}

/// Checks that `grid` has rows of one length and that `start` and `end` lie
/// inside it, then returns a shortest sequence of moves from `start` to `end`
/// through traversable cells, or `Ok(None)` where no such sequence exists.
/// Where several are shortest, each cell's neighbours are tried in the order
/// up, right, left, down.
pub fn find_path(grid: &Vec<Vec<u8>>, start: Point, end: Point) -> (r: Result<
    Option<Vec<Direction>>,
    PathError,
>)
    requires
        grid@.len() > 0 ==> grid@.len() * grid@[0]@.len() <= usize::MAX,
    ensures
        r == Err::<Option<Vec<Direction>>, PathError>(PathError::InvalidGrid) <==> !well_formed(
            cells(grid),
        ),
        r == Err::<Option<Vec<Direction>>, PathError>(PathError::PointOutOfBounds) <==> (
        well_formed(cells(grid)) && !(in_bounds(cells(grid), pos(start)) && in_bounds(
            cells(grid),
            pos(end),
        ))),
        r is Ok ==> (r == Ok::<Option<Vec<Direction>>, PathError>(None) <==> !has_path(
            cells(grid),
            pos(start),
            pos(end),
        )),
        r matches Ok(Some(ds)) ==> is_shortest_path(cells(grid), pos(start), pos(end), ds@),
        r matches Ok(Some(ds)) ==> chosen(cells(grid), pos(start), pos(end), ds@),
{
    let ghost g = cells(grid);
    if grid.len() == 0 {
        return Err(PathError::InvalidGrid);
    }
    let cols = grid[0].len();
    let mut i: usize = 0;
    while i < grid.len()
        invariant
            g == cells(grid),
            0 < grid@.len(),
            cols == g[0].len(),
            i <= grid@.len(),
            forall|j: int| 0 <= j < i ==> #[trigger] g[j].len() == g[0].len(),
        decreases grid@.len() - i,
    {
        if grid[i].len() != cols {
            proof {
                assert(g[i as int].len() != g[0].len());
            }
            return Err(PathError::InvalidGrid);
        }
        i = i + 1;
    }
    if start.0 >= grid.len() || start.1 >= cols || end.0 >= grid.len() || end.1 >= cols {
        return Err(PathError::PointOutOfBounds);
    }
    let r = bfs(grid, start, end);
    proof {
        if r is Some {
            assert(is_path(g, pos(start), pos(end), r->0@));
        }
    }
    Ok(r)
}

/// The labels of a shortest sequence of moves from `start_point` to
/// `end_point`, as `find_path` chooses it, or `Ok(None)` where there is none;
/// the errors of `find_path` for a malformed grid or a point outside it.
pub fn bfs_directions(maze: Vec<Vec<u8>>, start_point: Point, end_point: Point) -> (r: Result<
    Option<Vec<String>>,
    PathError,
>)
    requires
        maze@.len() > 0 ==> maze@.len() * maze@[0]@.len() <= usize::MAX,
    ensures
        r == Err::<Option<Vec<String>>, PathError>(PathError::InvalidGrid) <==> !well_formed(
            cells(&maze),
        ),
        r == Err::<Option<Vec<String>>, PathError>(PathError::PointOutOfBounds) <==> (
        well_formed(cells(&maze)) && !(in_bounds(cells(&maze), pos(start_point)) && in_bounds(
            cells(&maze),
            pos(end_point),
        ))),
        r is Ok ==> (r == Ok::<Option<Vec<String>>, PathError>(None) <==> !has_path(
            cells(&maze),
            pos(start_point),
            pos(end_point),
        )),
        r matches Ok(Some(v)) ==> exists|ds: Seq<Direction>|
            is_shortest_path(cells(&maze), pos(start_point), pos(end_point), ds) && chosen(
                cells(&maze),
                pos(start_point),
                pos(end_point),
                ds,
            ) && #[trigger] labels_of(ds) == v@.map_values(|x: String| x@),
{
    match find_path(&maze, start_point, end_point) {
        Ok(Some(ds)) => {
            let mut out: Vec<String> = Vec::new();
            let mut i: usize = 0;
            while i < ds.len()
                invariant
                    i <= ds@.len(),
                    out@.len() == i,
                    forall|j: int| 0 <= j < i ==> #[trigger] out@[j]@ == label_of(ds@[j]),
                decreases ds@.len() - i,
            {
                out.push(ds[i].label());
                i = i + 1;
            }
            proof {
                assert(labels_of(ds@) =~= out@.map_values(|x: String| x@));
                assert(is_path(cells(&maze), pos(start_point), pos(end_point), ds@));
            }
            Ok(Some(out))
        },
        Ok(None) => Ok(None),
        Err(e) => Err(e),
    }
}

/// When the start is the end, a path exists, and the only shortest path is
/// the empty one: `find_path` then returns `Ok(Some(ds))` with `ds` empty.
pub proof fn lemma_same_point_empty_path(g: Seq<Seq<u8>>, s: (int, int), ds: Seq<Direction>)
    ensures
        has_path(g, s, s),
        is_shortest_path(g, s, s, ds) ==> ds == Seq::<Direction>::empty(),
{
    let empty = Seq::<Direction>::empty();
    assert(is_path(g, s, s, empty));
    if is_shortest_path(g, s, s, ds) {
        assert(ds =~= empty);
    }
}

} // verus!
