use maze_ida::maze::{Cell, Maze, Pos};
use maze_ida::solver::{ida_star, search, SearchResult, SearchState};
use rand::rngs::StdRng;
use rand::SeedableRng;

fn generated(size: usize, seed: u64) -> Maze {
    let mut rng = StdRng::seed_from_u64(seed);
    let mut maze = Maze::new(size);
    maze.generate(&mut rng);
    maze
}

fn assert_route(maze: &Maze, path: &[Pos]) {
    assert_eq!(path[0], maze.start);
    assert_eq!(*path.last().unwrap(), maze.goal);
    for w in path.windows(2) {
        let dr = (w[0].0 as i64 - w[1].0 as i64).abs();
        let dc = (w[0].1 as i64 - w[1].1 as i64).abs();
        assert_eq!(dr + dc, 1);
    }
    for i in 0..path.len() {
        assert!(maze.cell(path[i]) != Cell::Wall);
        for j in i + 1..path.len() {
            assert_ne!(path[i], path[j]);
        }
    }
}

fn bfs_len(maze: &Maze) -> Option<usize> {
    let n = maze.size;
    let mut dist = vec![usize::MAX; n * n];
    let mut queue = std::collections::VecDeque::new();
    dist[maze.start.0 * n + maze.start.1] = 0;
    queue.push_back(maze.start);
    while let Some(p) = queue.pop_front() {
        if p == maze.goal {
            return Some(dist[p.0 * n + p.1]);
        }
        for d in 0..4 {
            if let Some(q) = maze.step(p, d) {
                if maze.cell(q) != Cell::Wall && dist[q.0 * n + q.1] == usize::MAX {
                    dist[q.0 * n + q.1] = dist[p.0 * n + p.1] + 1;
                    queue.push_back(q);
                }
            }
        }
    }
    None
}

#[test]
fn new_maze_opens_only_start_and_goal() {
    let maze = Maze::new(7);
    assert_eq!(maze.start, (1, 1));
    assert_eq!(maze.goal, (5, 5));
    assert_eq!(maze.grid.len(), 49);
    let open = maze.grid.iter().filter(|c| **c != Cell::Wall).count();
    assert_eq!(open, 2);
    assert_eq!(maze.cell((1, 1)), Cell::Path);
    assert_eq!(maze.cell((5, 5)), Cell::Path);
    assert_eq!(maze.cell((0, 0)), Cell::Wall);
}

#[test]
fn manhattan_distance_values() {
    let maze = Maze::new(9);
    assert_eq!(maze.manhattan_distance((1, 1)), 12);
    assert_eq!(maze.manhattan_distance((7, 7)), 0);
    assert_eq!(maze.manhattan_distance((8, 0)), 8);
}

#[test]
fn generated_mazes_are_solvable() {
    for size in [5usize, 7, 9, 11, 15, 21] {
        for seed in 0..5u64 {
            let maze = generated(size, seed);
            assert!(maze.is_solvable());
            assert_eq!(maze.cell(maze.start), Cell::Path);
            assert_eq!(maze.cell(maze.goal), Cell::Path);
        }
    }
}

#[test]
fn even_sizes_are_repaired_to_solvable() {
    for size in [4usize, 6, 8, 10] {
        for seed in 0..5u64 {
            assert!(generated(size, seed).is_solvable());
        }
    }
}

#[test]
fn generation_only_opens_cells() {
    let maze = generated(11, 3);
    assert!(maze.grid.iter().all(|c| *c == Cell::Wall || *c == Cell::Path));
    assert!(maze.grid.iter().filter(|c| **c == Cell::Path).count() > 2);
}

#[test]
fn solver_returns_valid_route() {
    for seed in 0..5u64 {
        let mut maze = generated(11, seed);
        let mut log = Vec::new();
        let path = ida_star(&mut maze, &mut log).expect("route");
        assert_route(&maze, &path);
        for p in &path {
            assert_eq!(maze.cell(*p), Cell::Solution);
        }
        assert!(!log.is_empty());
    }
}

#[test]
fn solver_path_not_shorter_than_bfs() {
    for seed in 0..5u64 {
        let mut maze = generated(9, seed);
        let shortest = bfs_len(&maze).expect("reachable");
        let mut log = Vec::new();
        let path = ida_star(&mut maze, &mut log).expect("route");
        assert!(path.len() - 1 >= shortest);
    }
}

#[test]
fn same_seed_gives_same_run() {
    let run = |seed: u64| {
        let mut maze = generated(13, seed);
        let topology = maze.grid.clone();
        let mut log = Vec::new();
        let path = ida_star(&mut maze, &mut log);
        (topology, log, path, maze.grid)
    };
    assert_eq!(run(42), run(42));
}

#[test]
fn size_five_scenario() {
    let mut maze = generated(5, 7);
    assert_eq!(maze.start, (1, 1));
    assert_eq!(maze.goal, (3, 3));
    assert!(maze.is_solvable());
    let mut log = Vec::new();
    let path = ida_star(&mut maze, &mut log).expect("route");
    assert!(path.len() - 1 >= 4);
    assert_route(&maze, &path);
}

#[test]
fn walled_off_goal_is_unsolvable() {
    let mut maze = Maze::new(5);
    for r in 1..4 {
        for c in 1..4 {
            maze.set_cell((r, c), Cell::Path);
        }
    }
    assert!(maze.is_solvable());
    maze.set_cell((2, 3), Cell::Wall);
    maze.set_cell((3, 2), Cell::Wall);
    assert!(!maze.is_solvable());
}

#[test]
fn fresh_maze_goal_unreachable() {
    assert!(!Maze::new(7).is_solvable());
}

#[test]
fn overlay_marks_do_not_count_as_path_for_solvability() {
    let mut maze = Maze::new(5);
    maze.set_cell((1, 2), Cell::Path);
    maze.set_cell((1, 3), Cell::Visited);
    maze.set_cell((2, 3), Cell::Path);
    assert!(!maze.is_solvable());
    maze.set_cell((1, 3), Cell::Path);
    assert!(maze.is_solvable());
}

#[test]
fn trivial_adjacent_goal_first_bound() {
    let mut maze = Maze::new(3);
    maze.goal = (1, 2);
    maze.set_cell((1, 2), Cell::Path);
    let mut log = Vec::new();
    let path = ida_star(&mut maze, &mut log).expect("route");
    assert_eq!(path, vec![(1, 1), (1, 2)]);
    let currents = log.iter().filter(|e| e.1 == Cell::Current).count();
    assert_eq!(currents, 2);
}

#[test]
fn start_equal_to_goal() {
    let mut maze = Maze::new(3);
    let mut log = Vec::new();
    assert_eq!(ida_star(&mut maze, &mut log), Some(vec![(1, 1)]));
}

#[test]
fn solver_gives_up_without_route() {
    let mut maze = Maze::new(6);
    let mut log = Vec::new();
    assert_eq!(ida_star(&mut maze, &mut log), None);
    assert_eq!(maze.cell(maze.start), Cell::Current);
}

#[test]
fn search_reports_bound_overflow() {
    let mut maze = Maze::new(7);
    let mut state = SearchState { path: vec![(1, 1)], visited: vec![false; 49] };
    let mut log = Vec::new();
    match search(&mut maze, 0, 3, &mut state, &mut log) {
        SearchResult::NewBound(v) => assert_eq!(v, 8),
        SearchResult::Found(_) => panic!("no route expected"),
    }
    assert_eq!(state.path, vec![(1, 1)]);
}

#[test]
fn search_with_nothing_over_bound_gives_max() {
    let mut maze = Maze::new(7);
    let mut state = SearchState { path: vec![(1, 1)], visited: vec![false; 49] };
    let mut log = Vec::new();
    match search(&mut maze, 0, 20, &mut state, &mut log) {
        SearchResult::NewBound(v) => assert_eq!(v, usize::MAX),
        SearchResult::Found(_) => panic!("no route expected"),
    }
}

#[test]
fn greedy_order_can_return_longer_route() {
    let mut maze = Maze::new(7);
    let open: [Pos; 15] = [
        (2, 1), (3, 1), (4, 1), (5, 1), (5, 2), (5, 3), (5, 4),
        (1, 2), (1, 3), (1, 4), (1, 5), (2, 5), (3, 5), (3, 4), (4, 4),
    ];
    for p in open {
        maze.set_cell(p, Cell::Path);
    }
    assert_eq!(bfs_len(&maze), Some(8));
    let mut log = Vec::new();
    let path = ida_star(&mut maze, &mut log).expect("route");
    assert_route(&maze, &path);
    assert_eq!(path.len(), 11);
    assert_eq!(path[1], (1, 2));
}

#[test]
fn different_seeds_carve_different_mazes() {
    let a = generated(15, 1);
    let b = generated(15, 2);
    assert_ne!(a.grid, b.grid);
}

#[test]
fn generation_keeps_last_row_and_column_walls() {
    for size in [5usize, 8, 11] {
        let maze = generated(size, 9);
        for i in 0..size {
            assert_eq!(maze.cell((size - 1, i)), Cell::Wall);
            assert_eq!(maze.cell((i, size - 1)), Cell::Wall);
        }
    }
}

#[test]
fn search_at_goal_returns_path_and_keeps_state() {
    let mut maze = Maze::new(5);
    maze.set_cell((1, 2), Cell::Path);
    maze.set_cell((1, 3), Cell::Path);
    maze.set_cell((2, 3), Cell::Path);
    let path = vec![(1, 1), (1, 2), (1, 3), (2, 3), (3, 3)];
    let mut state = SearchState { path: path.clone(), visited: vec![false; 25] };
    let mut log = Vec::new();
    match search(&mut maze, 4, 10, &mut state, &mut log) {
        SearchResult::Found(p) => assert_eq!(p, path),
        SearchResult::NewBound(_) => panic!("goal expected"),
    }
    assert_eq!(state.path, path);
    assert_eq!(state.visited, vec![false; 25]);
    for p in &path {
        assert_eq!(maze.cell(*p), Cell::Solution);
    }
    assert_eq!(maze.cell((2, 2)), Cell::Wall);
}

#[test]
fn search_over_bound_marks_cell_visited_only() {
    let mut maze = Maze::new(7);
    maze.set_cell((1, 2), Cell::Path);
    let mut state = SearchState { path: vec![(1, 1), (1, 2)], visited: vec![false; 49] };
    let mut log = Vec::new();
    match search(&mut maze, 1, 5, &mut state, &mut log) {
        SearchResult::NewBound(v) => assert_eq!(v, 1 + 7),
        SearchResult::Found(_) => panic!("over bound expected"),
    }
    assert_eq!(state.path, vec![(1, 1), (1, 2)]);
    assert_eq!(state.visited, vec![false; 49]);
    assert_eq!(maze.cell((1, 2)), Cell::Visited);
    assert_eq!(maze.cell((1, 1)), Cell::Path);
    assert_eq!(log, vec![((1, 2), Cell::Current), ((1, 2), Cell::Visited)]);
}
