use showcase::astar::{heuristic, neighbors, reconstruct_path, Board, Cell, EditMode, Pos};

fn run_to_end(board: &mut Board) {
    let mut guard = 0;
    while !board.astar.as_ref().unwrap().finished {
        board.step_astar();
        guard += 1;
        assert!(guard < 100_000);
    }
}

fn is_adjacent(a: Pos, b: Pos) -> bool {
    a.x.abs_diff(b.x) + a.y.abs_diff(b.y) == 1
}

#[test]
fn neighbors_stay_on_the_grid() {
    let corner = neighbors(Pos { x: 0, y: 0 }, 3, 2);
    assert_eq!(corner, vec![Pos { x: 1, y: 0 }, Pos { x: 0, y: 1 }]);
    let middle = neighbors(Pos { x: 1, y: 1 }, 3, 3);
    assert_eq!(
        middle,
        vec![Pos { x: 0, y: 1 }, Pos { x: 2, y: 1 }, Pos { x: 1, y: 0 }, Pos { x: 1, y: 2 }]
    );
    assert!(neighbors(Pos { x: 0, y: 0 }, 1, 1).is_empty());
}

#[test]
fn heuristic_is_manhattan_distance() {
    assert_eq!(heuristic(Pos { x: 3, y: 3 }, Pos { x: 35, y: 22 }), 51);
    assert_eq!(heuristic(Pos { x: 5, y: 1 }, Pos { x: 2, y: 4 }), 6);
    assert_eq!(heuristic(Pos { x: 2, y: 2 }, Pos { x: 2, y: 2 }), 0);
}

#[test]
fn reconstruct_path_follows_links_back() {
    let width = 3;
    let height = 1;
    let came_from = vec![None, Some(Pos { x: 0, y: 0 }), Some(Pos { x: 1, y: 0 })];
    let path = reconstruct_path(&came_from, width, height, Pos { x: 2, y: 0 });
    assert_eq!(path, vec![Pos { x: 0, y: 0 }, Pos { x: 1, y: 0 }, Pos { x: 2, y: 0 }]);
    let single = reconstruct_path(&came_from, width, height, Pos { x: 0, y: 0 });
    assert_eq!(single, vec![Pos { x: 0, y: 0 }]);
}

#[test]
fn default_board_is_empty() {
    let board = Board::default();
    assert_eq!((board.width, board.height), (40, 28));
    assert_eq!(board.grid.len(), 40 * 28);
    assert!(board.grid.iter().all(|c| *c == Cell::Empty));
    assert_eq!(board.start, Pos { x: 3, y: 3 });
    assert_eq!(board.goal, Pos { x: 35, y: 22 });
    assert!(board.astar.is_none());
    assert!(!board.running);
}

#[test]
fn search_on_empty_board_finds_shortest_path() {
    let mut board = Board::default();
    board.start_search();
    assert!(board.running);
    {
        let s = board.astar.as_ref().unwrap();
        assert_eq!(s.open_set.len(), 1);
        assert_eq!(s.open_set[0].f_score, 51);
    }
    run_to_end(&mut board);
    let s = board.astar.as_ref().unwrap();
    assert!(s.found);
    assert_eq!(s.path.len(), 52);
    assert_eq!(s.path[0], board.start);
    assert_eq!(*s.path.last().unwrap(), board.goal);
    assert!(s.path.windows(2).all(|w| is_adjacent(w[0], w[1])));
}

#[test]
fn search_goes_around_walls() {
    let mut board = Board::default();
    board.generate_maze_like_walls();
    board.start_search();
    run_to_end(&mut board);
    let s = board.astar.as_ref().unwrap();
    assert!(s.finished);
    if s.found {
        assert_eq!(s.path[0], board.start);
        assert_eq!(*s.path.last().unwrap(), board.goal);
        for w in s.path.windows(2) {
            assert!(is_adjacent(w[0], w[1]));
        }
        for p in &s.path {
            assert_eq!(board.cell(*p), Cell::Empty);
        }
    }
}

#[test]
fn walled_in_goal_is_not_found() {
    let mut board = Board::default();
    for p in [Pos { x: 34, y: 22 }, Pos { x: 36, y: 22 }, Pos { x: 35, y: 21 }, Pos { x: 35, y: 23 }] {
        board.handle_cell_click(p);
    }
    board.start_search();
    run_to_end(&mut board);
    let s = board.astar.as_ref().unwrap();
    assert!(s.finished);
    assert!(!s.found);
    assert!(s.path.is_empty());
}

#[test]
fn maze_pattern_spares_start_and_goal() {
    let mut board = Board::default();
    board.generate_maze_like_walls();
    for y in 0..board.height {
        for x in 0..board.width {
            let p = Pos { x, y };
            let pattern = (x % 7 == 0 && y % 3 != 0) || (y % 6 == 0 && x % 5 != 0);
            let expected = if pattern && p != board.start && p != board.goal { Cell::Wall } else { Cell::Empty };
            assert_eq!(board.cell(p), expected);
        }
    }
    board.clear_walls();
    assert!(board.grid.iter().all(|c| *c == Cell::Empty));
}

#[test]
fn clicks_toggle_walls_and_move_ends() {
    let mut board = Board::default();
    board.start_search();
    let p = Pos { x: 10, y: 10 };
    board.handle_cell_click(p);
    assert_eq!(board.cell(p), Cell::Wall);
    assert!(board.astar.is_none());
    board.handle_cell_click(p);
    assert_eq!(board.cell(p), Cell::Empty);
    board.handle_cell_click(board.start);
    assert_eq!(board.cell(board.start), Cell::Empty);

    board.handle_cell_click(p);
    board.edit_mode = EditMode::Start;
    board.handle_cell_click(p);
    assert_eq!(board.start, Pos { x: 3, y: 3 });
    board.handle_cell_click(Pos { x: 1, y: 1 });
    assert_eq!(board.start, Pos { x: 1, y: 1 });
    board.handle_cell_click(board.goal);
    assert_eq!(board.start, Pos { x: 1, y: 1 });

    board.edit_mode = EditMode::Goal;
    board.handle_cell_click(Pos { x: 2, y: 2 });
    assert_eq!(board.goal, Pos { x: 2, y: 2 });
    board.handle_cell_click(board.start);
    assert_eq!(board.goal, Pos { x: 2, y: 2 });
    assert!(board.in_bounds(Pos { x: 39, y: 27 }));
    assert!(!board.in_bounds(Pos { x: 40, y: 0 }));
    assert_eq!(board.index(Pos { x: 2, y: 1 }), 42);
}

#[test]
fn reset_drops_the_search() {
    let mut board = Board::default();
    board.start_search();
    board.step_astar();
    board.reset_search();
    assert!(board.astar.is_none());
    assert!(!board.running);
    board.step_astar();
    assert!(board.astar.is_none());
}

/// The number of steps of a shortest walk from `from` to `to` through free
/// cells, found breadth first.
fn walk_length(board: &Board, from: Pos, to: Pos) -> Option<usize> {
    let w = board.width;
    let h = board.height;
    let mut dist = vec![usize::MAX; w * h];
    let mut queue = std::collections::VecDeque::new();
    dist[from.y * w + from.x] = 0;
    queue.push_back(from);
    while let Some(p) = queue.pop_front() {
        for q in neighbors(p, w, h) {
            let i = q.y * w + q.x;
            if board.grid[i] == Cell::Empty && dist[i] == usize::MAX {
                dist[i] = dist[p.y * w + p.x] + 1;
                queue.push_back(q);
            }
        }
    }
    let d = dist[to.y * w + to.x];
    if d == usize::MAX { None } else { Some(d) }
}

#[test]
fn found_path_through_the_maze_is_a_shortest_walk() {
    let mut board = Board::default();
    board.generate_maze_like_walls();
    board.start_search();
    run_to_end(&mut board);
    let s = board.astar.as_ref().unwrap();
    match walk_length(&board, board.start, board.goal) {
        Some(d) => {
            assert!(s.found);
            assert_eq!(s.path.len(), d + 1);
        }
        None => assert!(!s.found),
    }
}

#[test]
fn found_path_around_a_wall_is_a_shortest_walk() {
    let mut board = Board::default();
    for y in 0..25 {
        board.set_cell(Pos { x: 10, y }, Cell::Wall);
    }
    board.start_search();
    run_to_end(&mut board);
    let s = board.astar.as_ref().unwrap();
    assert!(s.found);
    let d = walk_length(&board, board.start, board.goal).unwrap();
    assert_eq!(s.path.len(), d + 1);
    assert_eq!(d, 57);
}

#[test]
fn running_steps_stops_when_the_search_ends() {
    let mut board = Board::default();
    board.start_search();
    board.run_steps(3);
    assert!(board.running);
    assert!(!board.astar.as_ref().unwrap().finished);
    board.run_steps(100_000);
    assert!(!board.running);
    let s = board.astar.as_ref().unwrap();
    assert!(s.finished && s.found);
    assert_eq!(s.path.len(), 52);
}
