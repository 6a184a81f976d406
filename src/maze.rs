use vstd::prelude::*;
use vstd::set_lib::{lemma_int_range, lemma_len_subset, set_int_range};

verus! {

/// A grid position as (row, column).
pub type Pos = (usize, usize);

/// What a cell holds. `Wall` and `Path` are the topology; `Solution`, `Current`
/// and `Visited` are overlay marks that the solver writes on open cells.
#[derive(Clone, Copy, Debug, PartialEq, Eq, Structural)]
pub enum Cell {
    Wall,
    Path,
    Solution,
    Current,
    Visited,
}

/// A square grid of side `size`, stored row by row, with its start and goal.
pub struct Maze {
    pub size: usize,
    pub grid: Vec<Cell>,
    pub start: Pos,
    pub goal: Pos,
}

/// The two positions are one unit apart in exactly one coordinate.
pub open spec fn adjacent(a: Pos, b: Pos) -> bool {
    (a.0 == b.0 && (a.1 + 1 == b.1 || b.1 + 1 == a.1)) || (a.1 == b.1 && (a.0 + 1 == b.0
        || b.0 + 1 == a.0))
}

/// The cell one step from `p` in direction `d`: right, down, left, up.
pub open spec fn toward(p: Pos, d: int) -> (int, int) {
    if d == 0 {
        (p.0 as int, p.1 + 1)
    } else if d == 1 {
        (p.0 + 1, p.1 as int)
    } else if d == 2 {
        (p.0 as int, p.1 - 1)
    } else {
        (p.0 - 1, p.1 as int)
    }
}

/// A mark that the solver writes: `Solution`, `Current` or `Visited`.
pub open spec fn is_overlay(c: Cell) -> bool {
    c == Cell::Solution || c == Cell::Current || c == Cell::Visited
}

/// `|a - b|` over integers.
pub open spec fn dist(a: int, b: int) -> int {
    if a >= b {
        a - b
    } else {
        b - a
    }
}

/// Every adjacent cell lies in one of the four directions.
pub proof fn lemma_adjacent_toward(p: Pos, q: Pos)
    requires
        adjacent(p, q),
    ensures
        exists|d: int| 0 <= d < 4 && #[trigger] toward(p, d) == (q.0 as int, q.1 as int),
{
    if p.0 == q.0 && p.1 + 1 == q.1 {
        assert(toward(p, 0) == (q.0 as int, q.1 as int));
    } else if p.0 + 1 == q.0 && p.1 == q.1 {
        assert(toward(p, 1) == (q.0 as int, q.1 as int));
    } else if p.0 == q.0 {
        assert(toward(p, 2) == (q.0 as int, q.1 as int));
    } else {
        assert(toward(p, 3) == (q.0 as int, q.1 as int));
    }
}

/// A vector of `n` copies of `x`.
pub fn filled<T: Copy>(x: T, n: usize) -> (v: Vec<T>)
    ensures
        v@.len() == n,
        forall|i: int| 0 <= i < n ==> v@[i] == x,
{
    let mut v: Vec<T> = Vec::new();
    while v.len() < n
        invariant
            v@.len() <= n,
            forall|i: int| 0 <= i < v@.len() ==> v@[i] == x,
        decreases n - v@.len(),
    {
        v.push(x);
    }
    v
}

impl Maze {
    /// `p` lies inside the grid.
    pub open spec fn in_bounds(&self, p: Pos) -> bool {
        p.0 < self.size && p.1 < self.size
    }

    /// Row-major position of `p` in `grid`.
    pub open spec fn index(&self, p: Pos) -> int {
        p.0 * self.size + p.1
    }

    /// The cell at `p`.
    pub open spec fn at(&self, p: Pos) -> Cell {
        self.grid@[self.index(p)]
    }

    /// The grid holds `size * size` cells, start and goal lie inside it, and a
    /// few multiples of `size * size` fit in a `usize`.
    pub open spec fn wf(&self) -> bool {
        &&& 2 <= self.size
        &&& self.size * self.size + 4 * self.size <= usize::MAX
        &&& self.grid@.len() == self.size * self.size
        &&& self.in_bounds(self.start)
        &&& self.in_bounds(self.goal)
    }

    /// `other` has the same shape and the same walls, and each cell that differs
    /// holds an overlay mark in `other`.
    pub open spec fn same_topology(&self, other: &Maze) -> bool {
        &&& self.size == other.size
        &&& self.start == other.start
        &&& self.goal == other.goal
        &&& self.grid@.len() == other.grid@.len()
        &&& forall|i: int|
            0 <= i < self.grid@.len() ==> (#[trigger] self.grid@[i] == Cell::Wall) == (
            other.grid@[i] == Cell::Wall)
        &&& forall|i: int|
            0 <= i < self.grid@.len() ==> #[trigger] other.grid@[i] == self.grid@[i] || is_overlay(
                other.grid@[i],
            )
    }

    /// Keeping the topology is transitive.
    pub proof fn lemma_topology_trans(&self, b: &Maze, c: &Maze)
        requires
            self.same_topology(b),
            b.same_topology(c),
        ensures
            self.same_topology(c),
    {
        assert forall|i: int| 0 <= i < self.grid@.len() implies (#[trigger] self.grid@[i] == Cell::Wall) == (
            c.grid@[i] == Cell::Wall) by {
            assert(b.grid@[i] == Cell::Wall <==> c.grid@[i] == Cell::Wall);
        }
        assert forall|i: int| 0 <= i < self.grid@.len() implies #[trigger] c.grid@[i] == self.grid@[i]
            || is_overlay(c.grid@[i]) by {
            assert(c.grid@[i] == b.grid@[i] || is_overlay(c.grid@[i]));
            assert(b.grid@[i] == self.grid@[i] || is_overlay(b.grid@[i]));
        }
    }

    /// `w` is a walk from the start through open (`Path`) cells, each step to an
    /// adjacent cell.
    pub open spec fn path_walk(&self, w: Seq<Pos>) -> bool {
        &&& w.len() >= 1
        &&& w[0] == self.start
        &&& forall|i: int| 0 <= i < w.len() ==> self.in_bounds(#[trigger] w[i])
        &&& forall|i: int| 1 <= i < w.len() ==> self.at(#[trigger] w[i]) == Cell::Path
        &&& forall|i: int| 0 <= i < w.len() - 1 ==> adjacent(#[trigger] w[i], w[i + 1])
    }

    /// Some walk over `Path` cells leads from the start to `p`.
    pub open spec fn reaches(&self, p: Pos) -> bool {
        exists|w: Seq<Pos>| #[trigger] self.path_walk(w) && w.last() == p
    }

    /// The goal can be reached from the start over `Path` cells.
    pub open spec fn solvable(&self) -> bool {
        self.reaches(self.goal)
    }

    /// Manhattan distance from `p` to the goal.
    pub open spec fn h(&self, p: Pos) -> int {
        dist(p.0 as int, self.goal.0 as int) + dist(p.1 as int, self.goal.1 as int)
    }

    /// Cells inside the grid have distinct positions in `grid`, all below
    /// `size * size`.
    pub proof fn lemma_index(&self, p: Pos, q: Pos)
        requires
            self.in_bounds(p),
            self.in_bounds(q),
        ensures
            0 <= self.index(p) < self.size * self.size,
            self.index(p) == self.index(q) ==> p == q,
    {
        let s = self.size as int;
        assert(0 <= p.0 * s + p.1 < s * s) by (nonlinear_arith)
            requires
                p.0 < s,
                p.1 < s,
                0 <= p.0,
                0 <= p.1,
        ;
        if self.index(p) == self.index(q) && p != q {
            if p.0 == q.0 {
                assert(p.1 == q.1);
            } else if p.0 < q.0 {
                assert(p.0 * s + s <= q.0 * s) by (nonlinear_arith)
                    requires
                        p.0 < q.0,
                        0 <= s,
                ;
            } else {
                assert(q.0 * s + s <= p.0 * s) by (nonlinear_arith)
                    requires
                        q.0 < p.0,
                        0 <= s,
                ;
            }
        }
    }

    /// A maze of side `size`, all walls but the start `(1, 1)` and the goal
    /// `(size - 2, size - 2)`.
    pub fn new(size: usize) -> (m: Maze)
        requires
            2 <= size,
            size * size + 4 * size <= usize::MAX,
        ensures
            m.wf(),
            m.size == size,
            m.start == (1usize, 1usize),
            m.goal == ((size - 2) as usize, (size - 2) as usize),
            m.at(m.start) == Cell::Path,
            m.at(m.goal) == Cell::Path,
            forall|p: Pos|
                m.in_bounds(p) && p != m.start && p != m.goal ==> m.at(p) == Cell::Wall,
    {
        assert(size * size <= usize::MAX) by (nonlinear_arith)
            requires
                size * size + 4 * size <= usize::MAX,
        ;
        let mut m = Maze {
            size,
            grid: filled(Cell::Wall, size * size),
            start: (1, 1),
            goal: (size - 2, size - 2),
        };
        let start = m.start;
        let goal = m.goal;
        m.set_cell(start, Cell::Path);
        m.set_cell(goal, Cell::Path);
        proof {
            assert forall|p: Pos|
                m.in_bounds(p) && p != m.start && p != m.goal implies m.at(p) == Cell::Wall by {
                m.lemma_index(p, start);
                m.lemma_index(p, goal);
            }
        }
        m
    }

    /// Position of `p` in the row-major grid.
    pub fn index_of(&self, p: Pos) -> (r: usize)
        requires
            self.wf(),
            self.in_bounds(p),
        ensures
            r == self.index(p),
            r < self.grid@.len(),
    {
        proof {
            self.lemma_index(p, p);
        }
        p.0 * self.size + p.1
    }

    /// The cell at `p`.
    pub fn cell(&self, p: Pos) -> (c: Cell)
        requires
            self.wf(),
            self.in_bounds(p),
        ensures
            c == self.at(p),
    {
        self.grid[self.index_of(p)]
    }

    /// Writes `c` at `p`, leaving every other cell as it was.
    pub fn set_cell(&mut self, p: Pos, c: Cell)
        requires
            old(self).wf(),
            old(self).in_bounds(p),
        ensures
            final(self).wf(),
            final(self).size == old(self).size,
            final(self).start == old(self).start,
            final(self).goal == old(self).goal,
            final(self).at(p) == c,
            forall|q: Pos|
                final(self).in_bounds(q) && q != p ==> final(self).at(q) == old(self).at(q),
            final(self).grid@ == old(self).grid@.update(old(self).index(p), c),
    {
        let i = self.index_of(p);
        self.grid.set(i, c);
        proof {
            assert forall|q: Pos| self.in_bounds(q) && q != p implies self.at(q) == old(self).at(
                q,
            ) by {
                self.lemma_index(q, p);
            }
        }
    }

    /// The cell one step from `p` in direction `d` (right, down, left, up), if it
    /// lies inside the grid.
    pub fn step(&self, p: Pos, d: usize) -> (r: Option<Pos>)
        requires
            self.wf(),
            self.in_bounds(p),
            d < 4,
        ensures
            match r {
                Some(q) => self.in_bounds(q) && (q.0 as int, q.1 as int) == toward(p, d as int)
                    && adjacent(p, q),
                None => !(0 <= toward(p, d as int).0 < self.size && 0 <= toward(p, d as int).1
                    < self.size),
            },
    {
        if d == 0 {
            if p.1 + 1 < self.size {
                Some((p.0, p.1 + 1))
            } else {
                None
            }
        } else if d == 1 {
            if p.0 + 1 < self.size {
                Some((p.0 + 1, p.1))
            } else {
                None
            }
        } else if d == 2 {
            if p.1 > 0 {
                Some((p.0, p.1 - 1))
            } else {
                None
            }
        } else {
            if p.0 > 0 {
                Some((p.0 - 1, p.1))
            } else {
                None
            }
        }
    }

    /// Every open (`Path`) neighbour of `p` is marked in `vis`.
    pub open spec fn closed(&self, vis: Seq<bool>, p: Pos) -> bool {
        forall|q: Pos|
            self.in_bounds(q) && adjacent(p, q) && self.at(q) == Cell::Path ==> #[trigger] vis[self.index(q)]
    }

    /// A set of marked cells that holds the start and every open neighbour of
    /// its members holds every cell of every walk.
    proof fn lemma_walk_marked(&self, vis: Seq<bool>, w: Seq<Pos>)
        requires
            self.path_walk(w),
            vis[self.index(self.start)],
            forall|p: Pos| self.in_bounds(p) && #[trigger] vis[self.index(p)] ==> self.closed(vis, p),
        ensures
            vis[self.index(w.last())],
        decreases w.len(),
    {
        if w.len() > 1 {
            let u = w.drop_last();
            assert(self.path_walk(u)) by {
                assert forall|i: int| 0 <= i < u.len() - 1 implies adjacent(#[trigger] u[i], u[i + 1]) by {
                    assert(adjacent(w[i], w[i + 1]));
                }
            }
            self.lemma_walk_marked(vis, u);
            let a = w[w.len() - 2];
            let b = w.last();
            assert(adjacent(a, b));
            assert(self.in_bounds(a) && self.in_bounds(b));
            assert(self.at(b) == Cell::Path);
            assert(self.closed(vis, a));
        }
    }

    /// A walk to `p` extended by one open neighbour `q` is a walk to `q`.
    proof fn lemma_extend(&self, p: Pos, q: Pos)
        requires
            self.reaches(p),
            self.in_bounds(q),
            adjacent(p, q),
            self.at(q) == Cell::Path,
        ensures
            self.reaches(q),
    {
        let w = choose|w: Seq<Pos>| #[trigger] self.path_walk(w) && w.last() == p;
        let v = w.push(q);
        assert(self.path_walk(v)) by {
            assert forall|i: int| 0 <= i < v.len() - 1 implies adjacent(#[trigger] v[i], v[i + 1]) by {
                if i < w.len() - 1 {
                    assert(adjacent(w[i], w[i + 1]));
                }
            }
            assert forall|i: int| 0 <= i < v.len() implies self.in_bounds(#[trigger] v[i]) by {
                if i < w.len() {
                    assert(self.in_bounds(w[i]));
                }
            }
            assert forall|i: int| 1 <= i < v.len() implies self.at(#[trigger] v[i]) == Cell::Path by {
                if i < w.len() {
                    assert(self.at(w[i]) == Cell::Path);
                }
            }
        }
        assert(v.last() == q);
    }

    /// Depth-first search from the start over `Path` cells: true exactly when the
    /// goal is reached. The grid is left untouched.
    #[verifier::rlimit(40)]
    pub fn is_solvable(&self) -> (r: bool)
        requires
            self.wf(),
        ensures
            r == self.solvable(),
    {
        let n = self.size * self.size;
        let mut visited = filled(false, n);
        let start = self.start;
        let si = self.index_of(start);
        visited.set(si, true);
        let ghost mut seen: Set<int> = Set::empty().insert(si as int);
        let mut stack: Vec<Pos> = Vec::new();
        stack.push(start);
        proof {
            assert(self.path_walk(seq![start]));
            assert(seq![start].last() == start);
            assert forall|i: int| 0 <= i < n implies (#[trigger] visited@[i] == seen.contains(i)) by {}
            assert forall|p: Pos| self.in_bounds(p) && #[trigger] visited@[self.index(p)] implies p == start by {
                self.lemma_index(p, start);
            }
            assert(stack@[0] == start);
        }
        while stack.len() > 0
            invariant
                self.wf(),
                n == self.size * self.size,
                visited@.len() == n,
                seen.finite(),
                forall|i: int| #[trigger] seen.contains(i) ==> 0 <= i < n,
                forall|i: int| 0 <= i < n ==> (#[trigger] visited@[i] == seen.contains(i)),
                forall|k: int|
                    0 <= k < stack@.len() ==> self.in_bounds(#[trigger] stack@[k]) && visited@[self.index(stack@[k])],
                forall|p: Pos| self.in_bounds(p) && #[trigger] visited@[self.index(p)] ==> self.reaches(p),
                visited@[self.index(self.start)],
                visited@[self.index(self.goal)] ==> stack@.contains(self.goal),
                forall|p: Pos|
                    self.in_bounds(p) && #[trigger] visited@[self.index(p)] && !stack@.contains(p)
                        ==> self.closed(visited@, p),
            decreases stack@.len() + 2 * (n - seen.len()),
        {
            proof {
                lemma_int_range(0, n as int);
                lemma_len_subset(seen, set_int_range(0, n as int));
            }
            let ghost before = stack@;
            let p = stack.pop().unwrap();
            proof {
                assert(before == stack@.push(p));
                assert(before[before.len() - 1] == p);
            }
            if p.0 == self.goal.0 && p.1 == self.goal.1 {
                return true;
            }
            proof {
                if visited@[self.index(self.goal)] {
                    let k = choose|k: int| 0 <= k < before.len() && before[k] == self.goal;
                    assert(stack@[k] == self.goal);
                }
                assert forall|p2: Pos|
                    self.in_bounds(p2) && #[trigger] visited@[self.index(p2)] && !stack@.contains(p2) && p2 != p
                        implies self.closed(visited@, p2) by {
                    if before.contains(p2) {
                        let k = choose|k: int| 0 <= k < before.len() && before[k] == p2;
                        assert(stack@[k] == p2);
                    }
                }
            }
            let ghost seen0 = seen;
            let mut d: usize = 0;
            while d < 4
                invariant
                    self.wf(),
                    n == self.size * self.size,
                    visited@.len() == n,
                    self.in_bounds(p),
                    p != self.goal,
                    seen.finite(),
                    seen0.subset_of(seen),
                    stack@.len() + seen0.len() == before.len() - 1 + seen.len(),
                    forall|i: int| #[trigger] seen.contains(i) ==> 0 <= i < n,
                    forall|i: int| 0 <= i < n ==> (#[trigger] visited@[i] == seen.contains(i)),
                    forall|k: int|
                        0 <= k < stack@.len() ==> self.in_bounds(#[trigger] stack@[k]) && visited@[self.index(stack@[k])],
                    forall|p2: Pos| self.in_bounds(p2) && #[trigger] visited@[self.index(p2)] ==> self.reaches(p2),
                    visited@[self.index(self.start)],
                    visited@[self.index(p)],
                    visited@[self.index(self.goal)] ==> stack@.contains(self.goal),
                    forall|p2: Pos|
                        self.in_bounds(p2) && #[trigger] visited@[self.index(p2)] && !stack@.contains(p2) && p2 != p
                            ==> self.closed(visited@, p2),
                    forall|dd: int, q: Pos|
                        #![trigger toward(p, dd), visited@[self.index(q)]]
                        0 <= dd < d && self.in_bounds(q) && self.at(q) == Cell::Path && toward(p, dd) == (
                        q.0 as int,
                        q.1 as int,
                        ) ==> visited@[self.index(q)],
                decreases 4 - d,
            {
                let ghost vis_pre = visited@;
                let nb = self.step(p, d);
                if let Some(q) = nb {
                    let qi = self.index_of(q);
                    if !visited[qi] && self.grid[qi] == Cell::Path {
                        proof {
                            self.lemma_extend(p, q);
                        }
                        let ghost old_vis = visited@;
                        let ghost old_stack = stack@;
                        visited.set(qi, true);
                        stack.push(q);
                        proof {
                            assert(!seen.contains(qi as int));
                            seen = seen.insert(qi as int);
                            assert forall|j: int| 0 <= j < n && old_vis[j] implies #[trigger] visited@[j] by {}
                            assert forall|k: int| 0 <= k < stack@.len() implies self.in_bounds(#[trigger] stack@[k])
                                && visited@[self.index(stack@[k])] by {
                                if k < old_stack.len() {
                                    assert(stack@[k] == old_stack[k]);
                                    self.lemma_index(old_stack[k], old_stack[k]);
                                }
                            }
                            assert forall|i: int| 0 <= i < n implies (#[trigger] visited@[i] == seen.contains(i)) by {
                                if i != qi {
                                    assert(visited@[i] == old_vis[i]);
                                }
                            }
                            assert(stack@.last() == q);
                            assert forall|p2: Pos| self.in_bounds(p2) && #[trigger] visited@[self.index(p2)]
                                implies self.reaches(p2) by {
                                self.lemma_index(p2, q);
                            }
                            assert forall|p2: Pos|
                                self.in_bounds(p2) && #[trigger] visited@[self.index(p2)] && !stack@.contains(p2) && p2 != p
                                    implies self.closed(visited@, p2) by {
                                self.lemma_index(p2, q);
                                assert(stack@.last() == q);
                                if p2 != q {
                                    assert(old_vis[self.index(p2)]);
                                    assert forall|q2: Pos| self.in_bounds(q2) && adjacent(p2, q2) && self.at(q2) == Cell::Path
                                        implies #[trigger] visited@[self.index(q2)] by {
                                        self.lemma_index(q2, q2);
                                        if !stack@.drop_last().contains(p2) {
                                            assert(old_stack =~= stack@.drop_last());
                                            assert(self.closed(old_vis, p2));
                                            assert(old_vis[self.index(q2)]);
                                        }
                                    }
                                    assert(!(stack@.drop_last()).contains(p2)) by {
                                        if stack@.drop_last().contains(p2) {
                                            let k = choose|k: int| 0 <= k < stack@.len() - 1 && stack@.drop_last()[k] == p2;
                                            assert(stack@[k] == p2);
                                        }
                                    }
                                }
                            }
                            if old_vis[self.index(self.goal)] {
                                assert(old_stack.contains(self.goal));
                                let k = choose|k: int| 0 <= k < old_stack.len() && old_stack[k] == self.goal;
                                assert(stack@[k] == self.goal);
                                assert(stack@.contains(self.goal));
                            }
                            if self.goal == q {
                                assert(stack@[stack@.len() - 1] == self.goal);
                            } else {
                                self.lemma_index(self.goal, q);
                            }
                            self.lemma_index(self.start, q);
                            self.lemma_index(p, q);
                        }
                    }
                }
                proof {
                    assert forall|j: int| 0 <= j < n && vis_pre[j] implies #[trigger] visited@[j] by {}
                    assert forall|dd: int, q2: Pos|
                        #![trigger toward(p, dd), visited@[self.index(q2)]]
                        0 <= dd < d + 1 && self.in_bounds(q2) && self.at(q2) == Cell::Path && toward(p, dd) == (
                        q2.0 as int,
                        q2.1 as int,
                        ) implies visited@[self.index(q2)] by {
                        self.lemma_index(q2, q2);
                        if dd < d {
                            assert(vis_pre[self.index(q2)]);
                        } else {
                            match nb {
                                Some(q) => {
                                    assert(q == q2);
                                }
                                None => {}
                            }
                        }
                    }
                }
                d = d + 1;
            }
            proof {
                assert forall|q: Pos| self.in_bounds(q) && adjacent(p, q) && self.at(q) == Cell::Path
                    implies #[trigger] visited@[self.index(q)] by {
                    lemma_adjacent_toward(p, q);
                }
                assert(self.closed(visited@, p));
                lemma_int_range(0, n as int);
                lemma_len_subset(seen, set_int_range(0, n as int));
                lemma_len_subset(seen0, seen);
            }
        }
        proof {
            if self.solvable() {
                let w = choose|w: Seq<Pos>| #[trigger] self.path_walk(w) && w.last() == self.goal;
                self.lemma_walk_marked(visited@, w);
            }
        }
        false
    }

    /// `later` is `self` with some cells turned to `Path` and nothing else
    /// changed; the last row and the last column are left as they were.
    pub open spec fn opens_into(&self, later: &Maze) -> bool {
        &&& later.wf()
        &&& later.size == self.size
        &&& later.start == self.start
        &&& later.goal == self.goal
        &&& forall|p: Pos|
            self.in_bounds(p) ==> #[trigger] later.at(p) == self.at(p) || later.at(p) == Cell::Path
        &&& forall|p: Pos|
            self.in_bounds(p) && (p.0 + 1 == self.size || p.1 + 1 == self.size) ==> #[trigger] later.at(
                p,
            ) == self.at(p)
    }

    /// The lattice point two cells from `p` in direction `d`, if it lies inside
    /// the border.
    fn jump(&self, p: Pos, d: usize) -> (r: Option<Pos>)
        requires
            self.wf(),
            p.0 + 1 < self.size,
            p.1 + 1 < self.size,
            d < 4,
        ensures
            match r {
                Some(q) => q.0 + 1 < self.size && q.1 + 1 < self.size && ((q.0 == p.0 && (q.1 == p.1
                    + 2 || q.1 + 2 == p.1)) || (q.1 == p.1 && (q.0 == p.0 + 2 || q.0 + 2 == p.0))),
                None => true,
            },
    {
        if d == 0 {
            if p.1 + 3 < self.size {
                Some((p.0, p.1 + 2))
            } else {
                None
            }
        } else if d == 1 {
            if p.0 + 3 < self.size {
                Some((p.0 + 2, p.1))
            } else {
                None
            }
        } else if d == 2 {
            if p.1 >= 2 {
                Some((p.0, p.1 - 2))
            } else {
                None
            }
        } else {
            if p.0 >= 2 {
                Some((p.0 - 2, p.1))
            } else {
                None
            }
        }
    }

    /// Randomised depth-first carving over the lattice of points two apart,
    /// from the start: each step opens an unvisited lattice neighbour and the
    /// cell between.
    fn carve(&mut self, rng: &mut rand::rngs::StdRng)
        requires
            old(self).wf(),
            old(self).start.0 + 1 < old(self).size,
            old(self).start.1 + 1 < old(self).size,
        ensures
            old(self).opens_into(final(self)),
    {
        let ghost orig = *self;
        let n = self.size * self.size;
        let mut visited = filled(false, n);
        let start = self.start;
        let si = self.index_of(start);
        visited.set(si, true);
        let ghost mut seen: Set<int> = Set::empty().insert(si as int);
        let mut stack: Vec<Pos> = Vec::new();
        stack.push(start);
        proof {
            assert forall|i: int| 0 <= i < n implies (#[trigger] visited@[i] == seen.contains(i)) by {}
        }
        while stack.len() > 0
            invariant
                self.wf(),
                orig.opens_into(self),
                n == self.size * self.size,
                visited@.len() == n,
                seen.finite(),
                forall|i: int| #[trigger] seen.contains(i) ==> 0 <= i < n,
                forall|i: int| 0 <= i < n ==> (#[trigger] visited@[i] == seen.contains(i)),
                forall|k: int|
                    0 <= k < stack@.len() ==> (#[trigger] stack@[k]).0 + 1 < self.size && stack@[k].1 + 1
                        < self.size,
            decreases stack@.len() + 2 * (n - seen.len()),
        {
            proof {
                lemma_int_range(0, n as int);
                lemma_len_subset(seen, set_int_range(0, n as int));
            }
            let cur = stack[stack.len() - 1];
            let mut options: Vec<Pos> = Vec::new();
            let mut d: usize = 0;
            while d < 4
                invariant
                    self.wf(),
                    d <= 4,
                    cur.0 + 1 < self.size,
                    cur.1 + 1 < self.size,
                    visited@.len() == n,
                    n == self.size * self.size,
                    forall|k: int|
                        0 <= k < options@.len() ==> (#[trigger] options@[k]).0 + 1 < self.size
                            && options@[k].1 + 1 < self.size && !visited@[self.index(options@[k])] && ((
                        options@[k].0 == cur.0 && (options@[k].1 == cur.1 + 2 || options@[k].1 + 2
                            == cur.1)) || (options@[k].1 == cur.1 && (options@[k].0 == cur.0 + 2
                            || options@[k].0 + 2 == cur.0))),
                decreases 4 - d,
            {
                if let Some(q) = self.jump(cur, d) {
                    if !visited[self.index_of(q)] {
                        options.push(q);
                    }
                }
                d = d + 1;
            }
            if options.len() == 0 {
                stack.pop();
            } else {
                let k = crate::rng::random_in(rng, 0, options.len());
                let next = options[k];
                let mid = ((cur.0 + next.0) / 2, (cur.1 + next.1) / 2);
                let ghost m0 = *self;
                self.set_cell(next, Cell::Path);
                let ghost m1 = *self;
                self.set_cell(mid, Cell::Path);
                let ni = self.index_of(next);
                proof {
                    assert forall|p: Pos| orig.in_bounds(p) implies #[trigger] self.at(p) == orig.at(p)
                        || self.at(p) == Cell::Path by {
                        assert(m0.at(p) == orig.at(p) || m0.at(p) == Cell::Path);
                        if p != next && p != mid {
                            assert(m1.at(p) == m0.at(p));
                        }
                        if p == next && p != mid {
                            assert(m1.at(p) == Cell::Path);
                        }
                    }
                    assert(!seen.contains(ni as int));
                }
                let ghost old_vis = visited@;
                visited.set(ni, true);
                stack.push(next);
                proof {
                    seen = seen.insert(ni as int);
                    assert forall|i: int| 0 <= i < n implies (#[trigger] visited@[i] == seen.contains(i)) by {
                        if i != ni {
                            assert(visited@[i] == old_vis[i]);
                        }
                    }
                }
            }
        }
    }

    /// `size` trials, each picking a random interior cell and, where it is open,
    /// a random direction, opening the neighbour there if it is a wall inside
    /// the border. This adds cycles to the carved tree.
    fn add_loops(&mut self, rng: &mut rand::rngs::StdRng)
        requires
            old(self).wf(),
            3 <= old(self).size,
        ensures
            old(self).opens_into(final(self)),
    {
        let ghost orig = *self;
        let mut t: usize = 0;
        while t < self.size
            invariant
                self.wf(),
                3 <= self.size,
                orig.opens_into(self),
            decreases self.size - t,
        {
            let x = crate::rng::random_in(rng, 1, self.size - 1);
            let y = crate::rng::random_in(rng, 1, self.size - 1);
            if self.cell((x, y)) == Cell::Path {
                let d = crate::rng::random_in(rng, 0, 4);
                if let Some(q) = self.step((x, y), d) {
                    if q.0 + 1 < self.size && q.1 + 1 < self.size && self.cell(q) == Cell::Wall {
                        let ghost m0 = *self;
                        self.set_cell(q, Cell::Path);
                        proof {
                            assert forall|p: Pos| orig.in_bounds(p) implies #[trigger] self.at(p)
                                == orig.at(p) || self.at(p) == Cell::Path by {
                                assert(m0.at(p) == orig.at(p) || m0.at(p) == Cell::Path);
                            }
                        }
                    }
                }
            }
            t = t + 1;
        }
    }

    /// Opens one of the eight cells around the goal: the last row's first open
    /// one found, scanning rows top to bottom, or the cell above the goal if none
    /// is open.
    fn open_near_goal(&mut self)
        requires
            old(self).wf(),
            1 <= old(self).goal.0 && old(self).goal.0 + 1 < old(self).size,
            1 <= old(self).goal.1 && old(self).goal.1 + 1 < old(self).size,
        ensures
            old(self).opens_into(final(self)),
    {
        let ghost orig = *self;
        let g = self.goal;
        let mut target: Pos = (g.0 - 1, g.1);
        let mut r: usize = 0;
        while r < 3
            invariant
                self.wf(),
                *self == orig,
                g == self.goal,
                1 <= g.0 && g.0 + 1 < self.size,
                1 <= g.1 && g.1 + 1 < self.size,
                self.in_bounds(target),
                target.0 + 1 < self.size && target.1 + 1 < self.size || self.at(target) == Cell::Path,
            decreases 3 - r,
        {
            let mut c: usize = 0;
            while c < 3
                invariant
                    self.wf(),
                    *self == orig,
                    g == self.goal,
                    r < 3,
                    1 <= g.0 && g.0 + 1 < self.size,
                    1 <= g.1 && g.1 + 1 < self.size,
                    self.in_bounds(target),
                    target.0 + 1 < self.size && target.1 + 1 < self.size || self.at(target) == Cell::Path,
                decreases 3 - c,
            {
                if r != 1 || c != 1 {
                    let p = (g.0 + r - 1, g.1 + c - 1);
                    if self.cell(p) == Cell::Path {
                        target = p;
                        break;
                    }
                }
                c = c + 1;
            }
            r = r + 1;
        }
        self.set_cell(target, Cell::Path);
        proof {
            orig.lemma_open_one(self, target);
        }
    }

    /// Opening one cell off the last row and column is an opening.
    proof fn lemma_open_one(&self, after: &Maze, p: Pos)
        requires
            self.wf(),
            after.wf(),
            after.size == self.size,
            after.start == self.start,
            after.goal == self.goal,
            self.in_bounds(p),
            after.at(p) == Cell::Path,
            p.0 + 1 < self.size && p.1 + 1 < self.size || self.at(p) == Cell::Path,
            forall|q: Pos| after.in_bounds(q) && q != p ==> after.at(q) == self.at(q),
        ensures
            self.opens_into(after),
    {
    }

    /// Openings compose.
    proof fn lemma_opens_trans(&self, b: &Maze, c: &Maze)
        requires
            self.opens_into(b),
            b.opens_into(c),
        ensures
            self.opens_into(c),
    {
        assert forall|p: Pos| self.in_bounds(p) implies #[trigger] c.at(p) == self.at(p) || c.at(p)
            == Cell::Path by {
            assert(b.at(p) == self.at(p) || b.at(p) == Cell::Path);
            assert(c.at(p) == b.at(p) || c.at(p) == Cell::Path);
        }
        assert forall|p: Pos|
            self.in_bounds(p) && (p.0 + 1 == self.size || p.1 + 1 == self.size) implies #[trigger] c.at(
            p,
        ) == self.at(p) by {
            assert(b.at(p) == self.at(p));
            assert(c.at(p) == b.at(p));
        }
    }

    /// Opens a straight corridor from the start along its row to the goal's
    /// column, then along that column to the goal.
    fn open_corridor(&mut self)
        requires
            old(self).wf(),
            old(self).start.0 + 1 < old(self).size,
            old(self).start.1 + 1 < old(self).size,
            old(self).goal.0 + 1 < old(self).size,
            old(self).goal.1 + 1 < old(self).size,
        ensures
            old(self).opens_into(final(self)),
            final(self).solvable(),
    {
        let ghost orig = *self;
        let s = self.start;
        let g = self.goal;
        let mut cur: Pos = s;
        let ghost mut w: Seq<Pos> = seq![s];
        while cur.1 != g.1
            invariant
                self.wf(),
                orig.opens_into(self),
                s == self.start,
                g == self.goal,
                cur.0 == s.0,
                self.in_bounds(cur),
                cur.0 + 1 < self.size,
                cur.1 + 1 < self.size,
                g.0 + 1 < self.size,
                g.1 + 1 < self.size,
                self.path_walk(w),
                w.last() == cur,
            decreases dist(cur.1 as int, g.1 as int),
        {
            let next: Pos = if cur.1 < g.1 {
                (cur.0, cur.1 + 1)
            } else {
                (cur.0, cur.1 - 1)
            };
            let ghost m0 = *self;
            self.set_cell(next, Cell::Path);
            proof {
                m0.lemma_open_one(self, next);
                orig.lemma_opens_trans(&m0, self);
                self.lemma_keep_walk(&m0, w);
                w = self.lemma_push_walk(w, next);
            }
            cur = next;
        }
        while cur.0 != g.0
            invariant
                self.wf(),
                orig.opens_into(self),
                s == self.start,
                g == self.goal,
                cur.1 == g.1,
                self.in_bounds(cur),
                cur.0 + 1 < self.size,
                cur.1 + 1 < self.size,
                g.0 + 1 < self.size,
                g.1 + 1 < self.size,
                self.path_walk(w),
                w.last() == cur,
            decreases dist(cur.0 as int, g.0 as int),
        {
            let next: Pos = if cur.0 < g.0 {
                (cur.0 + 1, cur.1)
            } else {
                (cur.0 - 1, cur.1)
            };
            let ghost m0 = *self;
            self.set_cell(next, Cell::Path);
            proof {
                m0.lemma_open_one(self, next);
                orig.lemma_opens_trans(&m0, self);
                self.lemma_keep_walk(&m0, w);
                w = self.lemma_push_walk(w, next);
            }
            cur = next;
        }
    }

    /// A walk over `Path` cells of `before` stays one after cells are opened.
    proof fn lemma_keep_walk(&self, before: &Maze, w: Seq<Pos>)
        requires
            before.path_walk(w),
            before.opens_into(self),
        ensures
            self.path_walk(w),
    {
        assert forall|i: int| 1 <= i < w.len() implies self.at(#[trigger] w[i]) == Cell::Path by {
            assert(before.in_bounds(w[i]));
            assert(before.at(w[i]) == Cell::Path);
        }
    }

    /// A walk extended by an adjacent open cell.
    proof fn lemma_push_walk(&self, w: Seq<Pos>, q: Pos) -> (v: Seq<Pos>)
        requires
            self.path_walk(w),
            self.in_bounds(q),
            adjacent(w.last(), q),
            self.at(q) == Cell::Path,
        ensures
            self.path_walk(v),
            v.last() == q,
            v == w.push(q),
    {
        let v = w.push(q);
        assert forall|i: int| 0 <= i < v.len() - 1 implies adjacent(#[trigger] v[i], v[i + 1]) by {
            if i < w.len() - 1 {
                assert(adjacent(w[i], w[i + 1]));
            }
        }
        assert forall|i: int| 0 <= i < v.len() implies self.in_bounds(#[trigger] v[i]) by {
            if i < w.len() {
                assert(self.in_bounds(w[i]));
            }
        }
        assert forall|i: int| 1 <= i < v.len() implies self.at(#[trigger] v[i]) == Cell::Path by {
            if i < w.len() {
                assert(self.at(w[i]) == Cell::Path);
            }
        }
        v
    }

    /// Carves a maze with `rng`: a randomised depth-first spanning tree over the
    /// lattice of points two apart, `size` random wall openings that add cycles,
    /// start and goal forced open, then repairs if the goal cannot be reached:
    /// first the goal's surroundings, and, failing that, a straight corridor.
    /// Cells only ever turn from walls to `Path`.
    pub fn generate(&mut self, rng: &mut rand::rngs::StdRng)
        requires
            old(self).wf(),
            3 <= old(self).size,
            old(self).start.0 + 1 < old(self).size,
            old(self).start.1 + 1 < old(self).size,
            1 <= old(self).goal.0 && old(self).goal.0 + 1 < old(self).size,
            1 <= old(self).goal.1 && old(self).goal.1 + 1 < old(self).size,
        ensures
            old(self).opens_into(final(self)),
            final(self).at(final(self).start) == Cell::Path,
            final(self).at(final(self).goal) == Cell::Path,
            final(self).solvable(),
    {
        let ghost orig = *self;
        self.carve(rng);
        let ghost m1 = *self;
        self.add_loops(rng);
        let ghost m2 = *self;
        let start = self.start;
        let goal = self.goal;
        self.set_cell(start, Cell::Path);
        let ghost m3 = *self;
        self.set_cell(goal, Cell::Path);
        let ghost m4 = *self;
        proof {
            assert forall|p: Pos| orig.in_bounds(p) implies #[trigger] m4.at(p) == orig.at(p)
                || m4.at(p) == Cell::Path by {
                assert(m1.at(p) == orig.at(p) || m1.at(p) == Cell::Path);
                assert(m2.at(p) == m1.at(p) || m2.at(p) == Cell::Path);
                if p != start {
                    assert(m3.at(p) == m2.at(p));
                }
                if p != goal {
                    assert(m4.at(p) == m3.at(p));
                }
            }
        }
        if !self.is_solvable() {
            self.open_near_goal();
            let ghost m5 = *self;
            if !self.is_solvable() {
                self.open_corridor();
            }
            proof {
                assert forall|p: Pos| orig.in_bounds(p) implies #[trigger] self.at(p) == orig.at(p)
                    || self.at(p) == Cell::Path by {
                    assert(m4.at(p) == orig.at(p) || m4.at(p) == Cell::Path);
                    assert(m5.at(p) == m4.at(p) || m5.at(p) == Cell::Path);
                }
            }
        }
    }

    /// Manhattan distance from `pos` to the goal.
    pub fn manhattan_distance(&self, pos: Pos) -> (r: usize)
        requires
            self.wf(),
            self.in_bounds(pos),
        ensures
            r == self.h(pos),
            r <= 2 * self.size,
    {
        let dr = if pos.0 >= self.goal.0 {
            pos.0 - self.goal.0
        } else {
            self.goal.0 - pos.0
        };
        let dc = if pos.1 >= self.goal.1 {
            pos.1 - self.goal.1
        } else {
            self.goal.1 - pos.1
        };
        dr + dc
    }
}

} // verus!
