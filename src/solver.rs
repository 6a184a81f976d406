use crate::maze::{adjacent, filled, is_overlay, lemma_adjacent_toward, toward, Cell, Maze, Pos};
use vstd::prelude::*;
use vstd::set_lib::{lemma_int_range, lemma_len_subset, set_int_range};

verus! {

/// The working set of one bound iteration: the candidate path from the start,
/// and the cells already expanded in this iteration (row-major).
pub struct SearchState {
    pub path: Vec<Pos>,
    pub visited: Vec<bool>,
}

/// What one bounded search returns: a path to the goal, or the least `f` that
/// went over the bound (`usize::MAX` when nothing did).
pub enum SearchResult {
    Found(Vec<Pos>),
    NewBound(usize),
}

/// `w` starts at the start, stays inside the grid on cells that are not walls,
/// moves to an adjacent cell at each step and never visits a cell twice.
pub open spec fn is_route(m: &Maze, w: Seq<Pos>) -> bool {
    &&& w.len() >= 1
    &&& w[0] == m.start
    &&& forall|i: int| 0 <= i < w.len() ==> m.in_bounds(#[trigger] w[i])
    &&& forall|i: int| 0 <= i < w.len() ==> m.at(#[trigger] w[i]) != Cell::Wall
    &&& forall|i: int| 0 <= i < w.len() - 1 ==> adjacent(#[trigger] w[i], w[i + 1])
    &&& forall|i: int, j: int| 0 <= i < j < w.len() ==> w[i] != w[j]
}

/// A route that ends at the goal.
pub open spec fn is_solution(m: &Maze, w: Seq<Pos>) -> bool {
    is_route(m, w) && w.last() == m.goal
}

/// A route stays one when only overlay marks change.
pub proof fn lemma_route_topology(a: &Maze, b: &Maze, w: Seq<Pos>)
    requires
        a.wf(),
        a.same_topology(b),
        is_route(a, w),
    ensures
        is_route(b, w),
{
    assert forall|i: int| 0 <= i < w.len() implies b.at(#[trigger] w[i]) != Cell::Wall by {
        a.lemma_index(w[i], w[i]);
        assert(a.at(w[i]) != Cell::Wall);
    }
}

/// Writing a mark that is not a wall over a cell that is not a wall keeps the
/// topology.
proof fn lemma_mark_topology(a: &Maze, b: &Maze, p: Pos, c: Cell)
    requires
        a.wf(),
        a.in_bounds(p),
        a.at(p) != Cell::Wall,
        is_overlay(c),
        b.size == a.size,
        b.start == a.start,
        b.goal == a.goal,
        b.grid@ == a.grid@.update(a.index(p), c),
    ensures
        a.same_topology(b),
{
    a.lemma_index(p, p);
}

/// Writes `c` on the open cell `p` and records the write in `log`.
fn mark(maze: &mut Maze, p: Pos, c: Cell, log: &mut Vec<(Pos, Cell)>)
    requires
        old(maze).wf(),
        old(maze).in_bounds(p),
        old(maze).at(p) != Cell::Wall,
        is_overlay(c),
    ensures
        final(maze).wf(),
        old(maze).same_topology(final(maze)),
        final(maze).at(p) == c,
        forall|q: Pos| final(maze).in_bounds(q) && q != p ==> final(maze).at(q) == old(maze).at(q),
        final(log)@ == old(log)@.push((p, c)),
{
    let ghost before = *maze;
    maze.set_cell(p, c);
    proof {
        lemma_mark_topology(&before, maze, p, c);
    }
    log.push((p, c));
}

/// Whether `q` lies on `path`.
fn on_path(path: &Vec<Pos>, q: Pos) -> (r: bool)
    ensures
        r == path@.contains(q),
{
    let mut i: usize = 0;
    while i < path.len()
        invariant
            i <= path@.len(),
            forall|k: int| 0 <= k < i ==> path@[k] != q,
        decreases path@.len() - i,
    {
        if path[i].0 == q.0 && path[i].1 == q.1 {
            return true;
        }
        i = i + 1;
    }
    false
}

/// A copy of `v`.
fn copy_path(v: &Vec<Pos>) -> (r: Vec<Pos>)
    ensures
        r@ == v@,
{
    let mut r: Vec<Pos> = Vec::new();
    let mut i: usize = 0;
    while i < v.len()
        invariant
            i <= v@.len(),
            r@ == v@.subrange(0, i as int),
        decreases v@.len() - i,
    {
        r.push(v[i]);
        i = i + 1;
    }
    r
}

/// `a` is a prefix of `b`, and each entry that `b` adds writes a mark that is
/// not a wall on a cell of `m`.
pub open spec fn extends(m: &Maze, a: Seq<(Pos, Cell)>, b: Seq<(Pos, Cell)>) -> bool {
    &&& a.len() <= b.len()
    &&& forall|i: int| 0 <= i < a.len() ==> #[trigger] b[i] == a[i]
    &&& forall|i: int|
        a.len() <= i < b.len() ==> m.in_bounds((#[trigger] b[i]).0) && b[i].1 != Cell::Wall
}

proof fn lemma_extends_trans(m: &Maze, a: Seq<(Pos, Cell)>, b: Seq<(Pos, Cell)>, c: Seq<(Pos, Cell)>)
    requires
        extends(m, a, b),
        extends(m, b, c),
    ensures
        extends(m, a, c),
{
    assert forall|i: int| a.len() <= i < c.len() implies m.in_bounds((#[trigger] c[i]).0) && c[i].1
        != Cell::Wall by {
        if i < b.len() {
            assert(c[i] == b[i]);
        }
    }
}

/// Positions in `grid` of the cells that are not walls.
pub open spec fn open_cells(m: &Maze) -> Set<int> {
    Set::new(|i: int| 0 <= i < m.grid@.len() && m.grid@[i] != Cell::Wall)
}

/// `bound` is high enough that no route over cells that are not walls can
/// exceed it: a route visits at most every open cell once, and the estimate is
/// at most `2 * size`.
pub open spec fn unpruned(m: &Maze, bound: int) -> bool {
    open_cells(m).len() + 2 * m.size <= bound + 1
}

/// `w` leads from the last cell of `path` to the goal, stepping to adjacent
/// cells that are not walls, not on `path` and not marked in `vis`.
pub open spec fn free_walk(m: &Maze, path: Seq<Pos>, vis: Seq<bool>, w: Seq<Pos>) -> bool {
    &&& w.len() >= 1
    &&& w[0] == path.last()
    &&& w.last() == m.goal
    &&& forall|i: int| 0 <= i < w.len() ==> m.in_bounds(#[trigger] w[i])
    &&& forall|i: int|
        1 <= i < w.len() ==> m.at(#[trigger] w[i]) != Cell::Wall && !path.contains(w[i])
            && !vis[m.index(w[i])]
    &&& forall|i: int| 0 <= i < w.len() - 1 ==> adjacent(#[trigger] w[i], w[i + 1])
}

/// Every cell that `vis1` marks beyond `vis0`, and the last cell of `path`, has
/// each open neighbour marked in `vis1` or on `path`.
pub open spec fn closed_off(m: &Maze, path: Seq<Pos>, vis0: Seq<bool>, vis1: Seq<bool>) -> bool {
    forall|x: Pos, y: Pos|
        #![trigger vis1[m.index(x)], vis1[m.index(y)]]
        m.in_bounds(x) && vis1[m.index(x)] && (!vis0[m.index(x)] || x == path.last()) && m.in_bounds(
            y,
        ) && adjacent(x, y) && m.at(y) != Cell::Wall ==> vis1[m.index(y)] || path.contains(y)
}

proof fn lemma_open_cells(m: &Maze)
    requires
        m.wf(),
    ensures
        open_cells(m).finite(),
        open_cells(m).len() <= m.size * m.size,
{
    let n = (m.size * m.size) as int;
    lemma_int_range(0, n);
    assert(open_cells(m).subset_of(set_int_range(0, n)));
    vstd::set_lib::lemma_set_subset_finite(set_int_range(0, n), open_cells(m));
    lemma_len_subset(open_cells(m), set_int_range(0, n));
}

/// A route is no longer than the number of open cells.
proof fn lemma_route_len(m: &Maze, w: Seq<Pos>)
    requires
        m.wf(),
        is_route(m, w),
    ensures
        w.len() <= open_cells(m).len(),
{
    lemma_open_cells(m);
    let s = w.map_values(|p: Pos| m.index(p));
    assert forall|i: int, j: int| 0 <= i < s.len() && 0 <= j < s.len() && i != j implies s[i] != s[j] by {
        m.lemma_index(w[i], w[j]);
        if i < j {
            assert(w[i] != w[j]);
        } else {
            assert(w[j] != w[i]);
        }
    }
    assert(s.no_duplicates());
    s.unique_seq_to_set();
    assert forall|x: int| s.to_set().contains(x) implies open_cells(m).contains(x) by {
        let i = choose|i: int| 0 <= i < s.len() && s[i] == x;
        m.lemma_index(w[i], w[i]);
        assert(m.at(w[i]) != Cell::Wall);
    }
    lemma_len_subset(s.to_set(), open_cells(m));
}

/// Open cells depend on the walls alone.
proof fn lemma_open_cells_topology(a: &Maze, b: &Maze)
    requires
        a.same_topology(b),
    ensures
        open_cells(a) == open_cells(b),
{
    assert(open_cells(a) =~= open_cells(b));
}

/// A walk that avoids `path` and `vis0` cannot reach an unmarked goal from a
/// closed-off region.
proof fn lemma_walk_marked(
    m: &Maze,
    path: Seq<Pos>,
    vis0: Seq<bool>,
    vis1: Seq<bool>,
    w: Seq<Pos>,
    i: int,
)
    requires
        m.wf(),
        closed_off(m, path, vis0, vis1),
        path.len() >= 1,
        vis1[m.index(path.last())],
        free_walk(m, path, vis0, w),
        0 <= i < w.len(),
    ensures
        vis1[m.index(w[i])],
        !vis0[m.index(w[i])] || w[i] == path.last(),
    decreases i,
{
    if i > 0 {
        lemma_walk_marked(m, path, vis0, vis1, w, i - 1);
        let x = w[i - 1];
        let y = w[i];
        assert(adjacent(x, y));
        assert(m.in_bounds(x) && m.in_bounds(y));
        assert(m.at(y) != Cell::Wall && !path.contains(y));
        assert(vis1[m.index(y)] || path.contains(y));
    }
}

/// A walk that avoids `path` and `vis0` cannot leave a closed-off region to
/// reach a goal that `vis1` does not newly mark.
proof fn lemma_walk_blocked(m: &Maze, path: Seq<Pos>, vis0: Seq<bool>, vis1: Seq<bool>, w: Seq<Pos>)
    requires
        m.wf(),
        closed_off(m, path, vis0, vis1),
        path.len() >= 1,
        vis1[m.index(path.last())],
        vis1[m.index(m.goal)] == vis0[m.index(m.goal)],
        path.last() != m.goal,
    ensures
        !free_walk(m, path, vis0, w),
{
    if free_walk(m, path, vis0, w) {
        lemma_walk_marked(m, path, vis0, vis1, w, w.len() - 1);
    }
}

/// `n` unset marks.
pub open spec fn no_marks(n: nat) -> Seq<bool> {
    Seq::new(n, |i: int| false)
}

/// The goal can be reached from the start over cells that are not walls.
pub open spec fn open_route(m: &Maze) -> bool {
    exists|w: Seq<Pos>|
        #[trigger] free_walk(m, seq![m.start], no_marks((m.size * m.size) as nat), w)
}

/// The bound ceiling leaves room for a round in which nothing is cut: the first
/// bound lies below `size * size`, and so does every bound reached before
/// `unpruned` holds, since each round raises it by at most `size + 2`.
pub open spec fn ceiling_leaves_room(m: &Maze) -> bool {
    &&& 3 * m.h(m.start) < m.size * m.size
    &&& open_cells(m).len() + 3 * m.size < m.size * m.size
}

proof fn lemma_free_walk_topology(a: &Maze, b: &Maze, path: Seq<Pos>, vis: Seq<bool>, w: Seq<Pos>)
    requires
        a.wf(),
        a.same_topology(b),
        free_walk(a, path, vis, w),
    ensures
        free_walk(b, path, vis, w),
{
    assert forall|i: int| 1 <= i < w.len() implies b.at(#[trigger] w[i]) != Cell::Wall && !path.contains(
        w[i],
    ) && !vis[b.index(w[i])] by {
        a.lemma_index(w[i], w[i]);
    }
}

/// One bounded depth-first step of IDA* from the last cell of `state.path`,
/// reached in `g` steps. The cell is marked `Current`; when `g` plus its
/// Manhattan distance to the goal exceeds `bound` that sum is returned; at the
/// goal the path is marked `Solution` and returned; otherwise the cell is
/// recorded as expanded, its open unexpanded neighbours are tried cheapest
/// first (skipping those already on the path), and the least over-bound value
/// seen is returned. Cells other than the start that are left behind are
/// marked `Visited`. Every grid write is appended to `log`; walls never change.
/// When the bound cuts no route, the goal is found whenever a walk reaches it
/// over open cells that are neither on the path nor already expanded.
pub fn search(
    maze: &mut Maze,
    g: usize,
    bound: usize,
    state: &mut SearchState,
    log: &mut Vec<(Pos, Cell)>,
) -> (r: SearchResult)
    requires
        old(maze).wf(),
        is_route(old(maze), old(state).path@),
        old(state).path@.len() == g + 1,
        old(state).visited@.len() == old(maze).size * old(maze).size,
        g <= bound + 1,
        bound < old(maze).size * old(maze).size,
    ensures
        final(maze).wf(),
        old(maze).same_topology(final(maze)),
        final(state).visited@.len() == old(state).visited@.len(),
        extends(old(maze), old(log)@, final(log)@),
        forall|i: int|
            0 <= i < old(state).visited@.len() && #[trigger] old(state).visited@[i]
                ==> final(state).visited@[i],
        g + old(maze).h(old(state).path@.last()) > bound ==> {
            &&& r == SearchResult::NewBound((g + old(maze).h(old(state).path@.last())) as usize)
            &&& final(state).path@ == old(state).path@
            &&& final(state).visited@ == old(state).visited@
            &&& forall|q: Pos|
                old(maze).in_bounds(q) && q != old(state).path@.last() ==> final(maze).at(q)
                    == old(maze).at(q)
        },
        old(state).path@.last() == old(maze).goal && g <= bound ==> {
            &&& r is Found
            &&& final(state).path@ == old(state).path@
            &&& final(state).visited@ == old(state).visited@
            &&& forall|q: Pos|
                old(maze).in_bounds(q) && !old(state).path@.contains(q) ==> final(maze).at(q)
                    == old(maze).at(q)
        },
        unpruned(old(maze), bound as int) && (exists|w: Seq<Pos>|
            #[trigger] free_walk(old(maze), old(state).path@, old(state).visited@, w)) ==> r is Found,
        unpruned(old(maze), bound as int) && r is NewBound ==> {
            &&& closed_off(old(maze), old(state).path@, old(state).visited@, final(state).visited@)
            &&& final(state).visited@[old(maze).index(old(state).path@.last())]
            &&& final(state).visited@[old(maze).index(old(maze).goal)] == old(state).visited@[old(
                maze).index(old(maze).goal)]
        },
        match r {
            SearchResult::Found(p) => is_solution(final(maze), p@) && p@.len() >= g + 1
                && p@.subrange(0, g + 1) == old(state).path@ && final(state).path@ == p@
                && p@.len() <= bound + 1 && forall|i: int|
                0 <= i < p@.len() ==> final(maze).at(#[trigger] p@[i]) == Cell::Solution,
            SearchResult::NewBound(v) => {
                &&& final(state).path@ == old(state).path@
                &&& v > bound
                &&& v == usize::MAX || v <= bound + 2 || v == g + old(maze).h(old(state).path@.last())
                &&& final(maze).at(old(state).path@.last()) == if old(state).path@.last()
                    == old(maze).start {
                    Cell::Current
                } else {
                    Cell::Visited
                }
                &&& forall|i: int|
                    0 <= i < g ==> final(maze).at(#[trigger] old(state).path@[i]) == old(maze).at(
                        old(state).path@[i],
                    )
            },
        },
    decreases bound + 1 - g,
{
    let ghost m0 = *maze;
    let ghost path0 = state.path@;
    let ghost log0 = log@;
    let current = state.path[state.path.len() - 1];
    proof {
        maze.lemma_index(current, current);
    }
    let h = maze.manhattan_distance(current);
    let f = g + h;
    let is_start = current.0 == maze.start.0 && current.1 == maze.start.1;
    mark(maze, current, Cell::Current, log);
    let ghost m1 = *maze;
    proof {
        assert forall|q: Pos| m0.in_bounds(q) && !path0.contains(q) implies #[trigger] maze.at(q)
            == m0.at(q) by {
            assert(path0[g as int] == current);
        }
        assert forall|i: int| 0 <= i < g implies maze.at(#[trigger] path0[i]) == m0.at(path0[i]) by {
            assert(path0[i] != path0[g as int]);
        }
    }
    if f > bound {
        proof {
            if unpruned(&m0, bound as int) {
                lemma_route_len(&m0, path0);
            }
        }
        if !is_start {
            mark(maze, current, Cell::Visited, log);
            proof {
                assert forall|i: int| 0 <= i < g implies maze.at(#[trigger] path0[i]) == m0.at(path0[i]) by {
                    assert(path0[i] != path0[g as int]);
                    assert(m1.at(path0[i]) == m0.at(path0[i]));
                }
            }
        }
        return SearchResult::NewBound(f);
    }
    if current.0 == maze.goal.0 && current.1 == maze.goal.1 {
        let mut i: usize = 0;
        while i < state.path.len()
            invariant
                maze.wf(),
                m0.same_topology(maze),
                state.path@ == path0,
                is_route(&m0, path0),
                extends(&m0, log0, log@),
                m0 == *old(maze),
                log0 == old(log)@,
                i <= path0.len(),
                forall|j: int| 0 <= j < i ==> maze.at(#[trigger] path0[j]) == Cell::Solution,
                state.visited@ == old(state).visited@,
                forall|q: Pos|
                    m0.in_bounds(q) && !path0.contains(q) ==> #[trigger] maze.at(q) == m0.at(q),
            decreases state.path@.len() - i,
        {
            let p = state.path[i];
            proof {
                lemma_route_topology(&m0, maze, path0);
            }
            let ghost before = *maze;
            let ghost log_before = log@;
            mark(maze, p, Cell::Solution, log);
            proof {
                assert forall|q: Pos| m0.in_bounds(q) && !path0.contains(q) implies #[trigger] maze.at(q)
                    == m0.at(q) by {
                    assert(path0[i as int] == p);
                    assert(before.at(q) == m0.at(q));
                }
                assert forall|j: int| 0 <= j < i + 1 implies maze.at(#[trigger] path0[j]) == Cell::Solution by {
                    if j < i {
                        assert(path0[j] != path0[i as int]);
                        assert(before.at(path0[j]) == Cell::Solution);
                    }
                }
                lemma_extends_trans(&m0, log0, log_before, log@);
            }
            i = i + 1;
        }
        proof {
            lemma_route_topology(&m0, maze, path0);
            assert(path0.subrange(0, g + 1) == path0);
        }
        return SearchResult::Found(copy_path(&state.path));
    }
    let ci = maze.index_of(current);
    let ghost vis_pre = state.visited@;
    state.visited.set(ci, true);
    let ghost vis_m = state.visited@;
    proof {
        assert(vis_pre == old(state).visited@);
        assert(vis_m == vis_pre.update(ci as int, true));
    }
    // Each neighbour lies one step nearer to or farther from the goal, so its
    // estimate is `f` or `f + 2`: taking the first kind in direction order and
    // then the second is the stable ascending order by estimate.
    let mut moves: Vec<Pos> = Vec::new();
    let mut pass: usize = 0;
    while pass < 2
        invariant
            maze.wf(),
            maze.in_bounds(current),
            g <= bound,
            bound < maze.size * maze.size,
            pass <= 2,
            f == g + maze.h(current),
            state.visited@ == vis_m,
            state.visited@.len() == maze.size * maze.size,
            forall|k: int|
                0 <= k < moves@.len() ==> maze.in_bounds(#[trigger] moves@[k]) && adjacent(
                    current,
                    moves@[k],
                ) && maze.at(moves@[k]) != Cell::Wall,
            forall|dd: int, y: Pos|
                #![trigger toward(current, dd), maze.at(y)]
                0 <= dd < 4 && toward(current, dd) == (y.0 as int, y.1 as int) && maze.in_bounds(y)
                    && maze.at(y) != Cell::Wall && !vis_m[maze.index(y)] && (pass >= 2 || (pass
                    == 1 && g + 1 + maze.h(y) <= f)) ==> moves@.contains(y),
        decreases 2 - pass,
    {
        let mut d: usize = 0;
        while d < 4
            invariant
                maze.wf(),
                maze.in_bounds(current),
                g <= bound,
                bound < maze.size * maze.size,
                pass < 2,
                d <= 4,
                f == g + maze.h(current),
                state.visited@ == vis_m,
                state.visited@.len() == maze.size * maze.size,
                forall|k: int|
                    0 <= k < moves@.len() ==> maze.in_bounds(#[trigger] moves@[k]) && adjacent(
                        current,
                        moves@[k],
                    ) && maze.at(moves@[k]) != Cell::Wall,
                forall|dd: int, y: Pos|
                    #![trigger toward(current, dd), maze.at(y)]
                    0 <= dd < 4 && toward(current, dd) == (y.0 as int, y.1 as int) && maze.in_bounds(y)
                        && maze.at(y) != Cell::Wall && !vis_m[maze.index(y)] && (pass == 1 && g + 1
                        + maze.h(y) <= f || dd < d && ((g + 1 + maze.h(y) <= f) == (pass == 0)))
                        ==> moves@.contains(y),
            decreases 4 - d,
        {
            let ghost old_moves = moves@;
            let nb = maze.step(current, d);
            if let Some(q) = nb {
                let qi = maze.index_of(q);
                if maze.grid[qi] != Cell::Wall && !state.visited[qi] {
                    let move_f = g + 1 + maze.manhattan_distance(q);
                    if (move_f <= f) == (pass == 0) {
                        moves.push(q);
                        proof {
                            assert(moves@[moves@.len() - 1] == q);
                        }
                    }
                }
            }
            proof {
                assert forall|y: Pos| old_moves.contains(y) implies moves@.contains(y) by {
                    let j = choose|j: int| 0 <= j < old_moves.len() && old_moves[j] == y;
                    assert(moves@[j] == y);
                }
                assert forall|dd: int, y: Pos|
                    #![trigger toward(current, dd), maze.at(y)]
                    0 <= dd < 4 && toward(current, dd) == (y.0 as int, y.1 as int) && maze.in_bounds(y)
                        && maze.at(y) != Cell::Wall && !vis_m[maze.index(y)] && (pass == 1 && g + 1
                        + maze.h(y) <= f || dd < d + 1 && ((g + 1 + maze.h(y) <= f) == (pass == 0)))
                        implies moves@.contains(y) by {
                    if dd == d && !(pass == 1 && g + 1 + maze.h(y) <= f) {
                        match nb {
                            Some(q) => {
                                assert(q == y);
                                maze.lemma_index(y, y);
                                assert(moves@[moves@.len() - 1] == q);
                            },
                            None => {},
                        }
                    } else {
                        assert(old_moves.contains(y));
                    }
                }
            }
            d = d + 1;
        }
        pass = pass + 1;
    }
    let ghost mv = *maze;
    let ghost vis0 = old(state).visited@;
    proof {
        m0.lemma_index(current, m0.goal);
        assert(current != m0.goal);
        m0.lemma_index(m0.goal, current);
        assert(m0.index(m0.goal) != ci);
        assert(vis_m[m0.index(m0.goal)] == vis0[m0.index(m0.goal)]);
        assert forall|x: Pos| m0.in_bounds(x) && vis_m[m0.index(x)] && !vis0[m0.index(x)] implies x
            == current by {
            m0.lemma_index(x, current);
        }
    }
    let mut min_bound: usize = usize::MAX;
    let mut k: usize = 0;
    while k < moves.len()
        invariant
            maze.wf(),
            m0.wf(),
            m0 == *old(maze),
            log0 == old(log)@,
            path0 == old(state).path@,
            old(state).visited@.len() == m0.size * m0.size,
            m0.same_topology(maze),
            mv.same_topology(maze),
            mv.wf(),
            is_route(&m0, path0),
            path0.len() == g + 1,
            path0.last() == current,
            state.path@ == path0,
            state.visited@.len() == m0.size * m0.size,
            extends(&m0, log0, log@),
            g <= bound,
            bound < m0.size * m0.size,
            min_bound > bound,
            forall|i: int| 0 <= i < g + 1 ==> maze.at(#[trigger] path0[i]) == m1.at(path0[i]),
            m1.at(current) == Cell::Current,
            forall|i: int| 0 <= i < g ==> m1.at(#[trigger] path0[i]) == m0.at(path0[i]),
            min_bound == usize::MAX || min_bound <= bound + 2,
            g + m0.h(current) <= bound,
            forall|i: int|
                0 <= i < old(state).visited@.len() && #[trigger] old(state).visited@[i]
                    ==> state.visited@[i],
            forall|j: int|
                0 <= j < moves@.len() ==> mv.in_bounds(#[trigger] moves@[j]) && adjacent(
                    current,
                    moves@[j],
                ) && mv.at(moves@[j]) != Cell::Wall,
            mv == m1,
            vis0 == old(state).visited@,
            current != m0.goal,
            m0.in_bounds(current),
            vis_m.len() == m0.size * m0.size,
            vis_m[m0.index(current)],
            forall|x: Pos| m0.in_bounds(x) && vis_m[m0.index(x)] && !vis0[m0.index(x)] ==> x == current,
            forall|i: int| 0 <= i < vis_m.len() && #[trigger] vis_m[i] ==> state.visited@[i],
            forall|dd: int, y: Pos|
                #![trigger toward(current, dd), mv.at(y)]
                0 <= dd < 4 && toward(current, dd) == (y.0 as int, y.1 as int) && mv.in_bounds(y)
                    && mv.at(y) != Cell::Wall && !vis_m[mv.index(y)] ==> moves@.contains(y),
            k <= moves@.len(),
            unpruned(&m0, bound as int) ==> forall|j: int|
                0 <= j < k ==> state.visited@[m0.index(#[trigger] moves@[j])] || path0.contains(moves@[j]),
            unpruned(&m0, bound as int) ==> forall|x: Pos, y: Pos|
                #![trigger state.visited@[m0.index(x)], state.visited@[m0.index(y)]]
                m0.in_bounds(x) && state.visited@[m0.index(x)] && !vis0[m0.index(x)] && x != current
                    && m0.in_bounds(y) && adjacent(x, y) && m0.at(y) != Cell::Wall
                    ==> state.visited@[m0.index(y)] || path0.contains(y),
            unpruned(&m0, bound as int) ==> state.visited@[m0.index(m0.goal)] == vis0[m0.index(m0.goal)],
        decreases moves@.len() - k,
    {
        let q = moves[k];
        if !on_path(&state.path, q) {
            let ghost mk = *maze;
            let ghost logk = log@;
            state.path.push(q);
            proof {
                lemma_route_topology(&m0, maze, path0);
                mv.lemma_index(q, q);
                let w = state.path@;
                assert(w == path0.push(q));
                assert(maze.at(q) != Cell::Wall);
                assert forall|i: int| 0 <= i < w.len() - 1 implies adjacent(#[trigger] w[i], w[i + 1]) by {
                    if i < path0.len() - 1 {
                        assert(adjacent(path0[i], path0[i + 1]));
                    }
                }
                assert forall|i: int, j: int| 0 <= i < j < w.len() implies w[i] != w[j] by {
                    if j == w.len() - 1 {
                        assert(path0.contains(path0[i]));
                    }
                }
                assert(is_route(maze, w));
            }
            let ghost visb = state.visited@;
            proof {
                lemma_open_cells_topology(&m0, maze);
            }
            let res = search(maze, g + 1, bound, state, log);
            proof {
                m0.lemma_topology_trans(&mk, maze);
                mv.lemma_topology_trans(&mk, maze);
                lemma_extends_trans(&m0, log0, logk, log@);
            }
            match res {
                SearchResult::Found(sol) => {
                    proof {
                        assert(path0 == sol@.subrange(0, g + 2).subrange(0, g + 1));
                        assert(sol@.subrange(0, g + 1) =~= path0);
                    }
                    return SearchResult::Found(sol);
                },
                SearchResult::NewBound(v) => {
                    proof {
                        assert(m0.h(q) <= m0.h(current) + 1);
                        if unpruned(&m0, bound as int) {
                            let cp = path0.push(q);
                            let visa = state.visited@;
                            assert(cp.last() == q);
                            assert forall|x: Pos, y: Pos|
                                #![trigger state.visited@[m0.index(x)], state.visited@[m0.index(y)]]
                                m0.in_bounds(x) && state.visited@[m0.index(x)] && !vis0[m0.index(x)] && x
                                    != current && m0.in_bounds(y) && adjacent(x, y) && m0.at(y) != Cell::Wall
                                    implies state.visited@[m0.index(y)] || path0.contains(y) by {
                                m0.lemma_index(y, y);
                                m0.lemma_index(x, x);
                                assert(mk.at(y) != Cell::Wall);
                                if visb[m0.index(x)] {
                                    assert(visb[m0.index(y)] || path0.contains(y));
                                } else {
                                    assert(visa[mk.index(x)]);
                                    assert(visa[mk.index(y)] || cp.contains(y));
                                    if cp.contains(y) && !path0.contains(y) {
                                        let j = choose|j: int| 0 <= j < cp.len() && cp[j] == y;
                                        if j < path0.len() {
                                            assert(path0[j] == y);
                                        }
                                        assert(y == q);
                                    }
                                }
                            }
                            assert forall|j: int| 0 <= j < k + 1 implies state.visited@[m0.index(
                                #[trigger] moves@[j],
                            )] || path0.contains(moves@[j]) by {
                                if j < k {
                                    mv.lemma_index(moves@[j], moves@[j]);
                                    if visb[m0.index(moves@[j])] {
                                        assert(visa[m0.index(moves@[j])]);
                                    }
                                }
                            }
                        }
                        assert forall|i: int| 0 <= i < g + 1 implies maze.at(#[trigger] path0[i]) == m1.at(
                            path0[i],
                        ) by {
                            assert(path0[i] == state.path@[i]);
                            assert(mk.at(path0[i]) == m1.at(path0[i]));
                        }
                    }
                    if v < min_bound {
                        min_bound = v;
                    }
                },
            }
            state.path.pop();
            proof {
                assert(state.path@ =~= path0);
            }
        } else {
            proof {
                assert(path0.contains(moves@[k as int]));
            }
        }
        k = k + 1;
    }
    proof {
        if unpruned(&m0, bound as int) {
            let visf = state.visited@;
            m0.lemma_index(current, current);
            assert forall|x: Pos, y: Pos|
                #![trigger visf[m0.index(x)], visf[m0.index(y)]]
                m0.in_bounds(x) && visf[m0.index(x)] && (!vis0[m0.index(x)] || x == path0.last())
                    && m0.in_bounds(y) && adjacent(x, y) && m0.at(y) != Cell::Wall implies visf[m0.index(y)]
                    || path0.contains(y) by {
                if x == current {
                    lemma_adjacent_toward(current, y);
                    let dd = choose|dd: int| 0 <= dd < 4 && #[trigger] toward(current, dd) == (y.0 as int, y.1 as int);
                    m0.lemma_index(y, y);
                    assert(mv.at(y) != Cell::Wall);
                    if vis_m[mv.index(y)] {
                        assert(visf[m0.index(y)]);
                    } else {
                        assert(moves@.contains(y));
                        let j = choose|j: int| 0 <= j < moves@.len() && moves@[j] == y;
                        assert(visf[m0.index(moves@[j])] || path0.contains(moves@[j]));
                    }
                }
            }
            assert(closed_off(&m0, path0, vis0, visf));
            assert forall|w: Seq<Pos>| !#[trigger] free_walk(&m0, path0, vis0, w) by {
                lemma_walk_blocked(&m0, path0, vis0, visf, w);
            }
        }
    }
    proof {
        lemma_route_topology(&m0, maze, path0);
        assert(maze.at(path0[path0.len() - 1]) != Cell::Wall);
    }
    let ghost m2 = *maze;
    if !is_start {
        mark(maze, current, Cell::Visited, log);
        proof {
            assert forall|i: int| 0 <= i < g implies maze.at(#[trigger] path0[i]) == m0.at(path0[i]) by {
                assert(path0[i] != path0[g as int]);
                assert(m2.at(path0[i]) == m1.at(path0[i]));
            }
        }
    }
    SearchResult::NewBound(min_bound)
}

/// IDA* from the start to the goal with the Manhattan-distance estimate. The
/// first bound is three times the start's estimate. After each failed round the
/// bound becomes the least over-bound value plus `size / 2`, or grows by `size`
/// when nothing went over; the search gives up once the bound reaches
/// `size * size`. Each round starts from a fresh working set; overlay marks on
/// the grid persist. Every grid write is appended to `log`. A route is found
/// whenever the goal can be reached over open cells and the ceiling leaves room
/// for a round in which no route is cut by the bound.
pub fn ida_star(maze: &mut Maze, log: &mut Vec<(Pos, Cell)>) -> (r: Option<Vec<Pos>>)
    requires
        old(maze).wf(),
        old(maze).at(old(maze).start) != Cell::Wall,
    ensures
        final(maze).wf(),
        old(maze).same_topology(final(maze)),
        extends(old(maze), old(log)@, final(log)@),
        match r {
            Some(p) => is_solution(final(maze), p@) && forall|i: int|
                0 <= i < p@.len() ==> final(maze).at(#[trigger] p@[i]) == Cell::Solution,
            None => old(maze).start != old(maze).goal && !(ceiling_leaves_room(old(maze))
                && open_route(old(maze))),
        },
{
    let ghost m0 = *maze;
    let ghost log0 = log@;
    let size = maze.size;
    let start = maze.start;
    let n = size * size;
    proof {
        assert(2 * size <= size * size) by (nonlinear_arith)
            requires
                2 <= size,
        ;
    }
    let mut bound = maze.manhattan_distance(start) * 3;
    proof {
        assert(0 < n) by (nonlinear_arith)
            requires
                2 <= size,
                n == size * size,
        ;
    }
    let ghost mut first = true;
    while bound < n
        invariant
            maze.wf(),
            m0.wf(),
            m0.same_topology(maze),
            m0.at(m0.start) != Cell::Wall,
            m0 == *old(maze),
            log0 == old(log)@,
            bound <= n + 4 * size,
            n + 4 * size <= usize::MAX,
            start == maze.start,
            size == maze.size,
            n == size * size,
            extends(&m0, log0, log@),
            first ==> bound == 3 * m0.h(m0.start),
            bound >= 3 * m0.h(m0.start),
            ceiling_leaves_room(&m0) && open_route(&m0) ==> bound < n,
            !first ==> m0.start != m0.goal,
        decreases n + 4 * size - bound,
    {
        let mut path: Vec<Pos> = Vec::new();
        path.push(start);
        let mut state = SearchState { path, visited: filled(false, n) };
        proof {
            m0.lemma_index(start, start);
            assert(maze.at(start) != Cell::Wall);
            assert(is_route(maze, state.path@));
        }
        let ghost mk = *maze;
        let ghost logk = log@;
        proof {
            lemma_open_cells_topology(&m0, maze);
            if open_route(&m0) {
                let w = choose|w: Seq<Pos>|
                    #[trigger] free_walk(&m0, seq![m0.start], no_marks(n as nat), w);
                assert(state.path@ =~= seq![m0.start]);
                assert(state.visited@ =~= no_marks(n as nat));
                lemma_free_walk_topology(&m0, maze, state.path@, state.visited@, w);
            }
        }
        let res = search(maze, 0, bound, &mut state, log);
        proof {
            m0.lemma_topology_trans(&mk, maze);
            lemma_extends_trans(&m0, log0, logk, log@);
        }
        match res {
            SearchResult::Found(solution) => {
                return Some(solution);
            },
            SearchResult::NewBound(new_bound) => {
                proof {
                    first = false;
                }
                if new_bound == usize::MAX {
                    bound = bound + size;
                } else {
                    bound = new_bound + size / 2;
                }
            },
        }
    }
    None
}

} // verus!
