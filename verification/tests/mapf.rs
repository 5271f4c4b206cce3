use showcase::mapf::{
    a_star, cbs, conflict_agents, constraint_from, cost_of, count_conflicts, find_first_conflict,
    latest_constraint_time, position_at, safe_to_finish, violates_edge, violates_vertex, Agent, Conflict,
    Constraint, Grid, Pos,
};

fn demo_grid() -> Grid {
    Grid::new(8, 6, &[(3, 0), (3, 1), (3, 3), (3, 4), (3, 5)])
}

fn demo_agents() -> Vec<Agent> {
    vec![
        Agent { name: "A".to_string(), start: Pos::new(0, 2), goal: Pos::new(7, 2) },
        Agent { name: "B".to_string(), start: Pos::new(7, 2), goal: Pos::new(0, 2) },
        Agent { name: "C".to_string(), start: Pos::new(1, 0), goal: Pos::new(1, 5) },
    ]
}

fn p(x: i32, y: i32) -> Pos {
    Pos::new(x, y)
}

#[test]
fn grid_moves_include_waiting() {
    let g = demo_grid();
    assert!(g.in_bounds(p(7, 5)));
    assert!(!g.in_bounds(p(8, 0)));
    assert!(!g.in_bounds(p(0, -1)));
    assert!(!g.valid(p(3, 0)));
    assert!(g.valid(p(3, 2)));
    assert_eq!(g.neighbors_with_wait(p(2, 0)), vec![p(2, 0), p(1, 0), p(2, 1)]);
    assert_eq!(p(0, 2).manhattan(p(7, 5)), 10);
}

#[test]
fn single_agent_path_is_shortest_and_legal() {
    let g = demo_grid();
    let path = a_star(&g, p(0, 2), p(7, 2), 0, &[]).unwrap();
    assert_eq!(path.len(), 8);
    assert_eq!(path[0], p(0, 2));
    assert_eq!(*path.last().unwrap(), p(7, 2));
    for w in path.windows(2) {
        assert!(w[0].manhattan(w[1]) <= 1);
        assert!(g.valid(w[1]));
    }
}

#[test]
fn constraints_shape_the_single_agent_path() {
    let g = demo_grid();
    let cs = vec![Constraint::Vertex { agent: 0, pos: p(3, 2), time: 3 }];
    let path = a_star(&g, p(0, 2), p(7, 2), 0, &cs).unwrap();
    assert_ne!(position_at(&path, 3), p(3, 2));
    assert_eq!(path.len(), 9);
    let blocked_start = vec![Constraint::Vertex { agent: 0, pos: p(0, 2), time: 0 }];
    assert!(a_star(&g, p(0, 2), p(7, 2), 0, &blocked_start).is_none());
    let walled = Grid::new(3, 1, &[(1, 0)]);
    assert!(a_star(&walled, p(0, 0), p(2, 0), 0, &[]).is_none());
}

#[test]
fn constraint_queries() {
    let cs = vec![
        Constraint::Vertex { agent: 1, pos: p(2, 2), time: 4 },
        Constraint::Edge { agent: 1, from: p(1, 1), to: p(1, 2), time: 6 },
        Constraint::Vertex { agent: 0, pos: p(5, 5), time: 9 },
    ];
    assert!(violates_vertex(1, p(2, 2), 4, &cs));
    assert!(!violates_vertex(0, p(2, 2), 4, &cs));
    assert!(violates_edge(1, p(1, 1), p(1, 2), 6, &cs));
    assert!(!violates_edge(1, p(1, 2), p(1, 1), 6, &cs));
    assert_eq!(latest_constraint_time(1, &cs), 7);
    assert_eq!(latest_constraint_time(2, &cs), 0);
    assert!(!safe_to_finish(1, p(2, 2), 3, &cs));
    assert!(safe_to_finish(1, p(2, 2), 5, &cs));
}

#[test]
fn conflicts_are_found_and_counted() {
    let paths = vec![vec![p(0, 0), p(1, 0), p(2, 0)], vec![p(2, 0), p(1, 0), p(0, 0)]];
    let c = find_first_conflict(&paths).unwrap();
    assert_eq!(c, Conflict::Vertex { a: 0, b: 1, pos: p(1, 0), time: 1 });
    assert_eq!(conflict_agents(&c), [0, 1]);
    assert_eq!(constraint_from(&c, 1), Constraint::Vertex { agent: 1, pos: p(1, 0), time: 1 });
    assert_eq!(count_conflicts(&paths), 1);

    let swap = vec![vec![p(0, 0), p(1, 0)], vec![p(1, 0), p(0, 0)]];
    let e = find_first_conflict(&swap).unwrap();
    assert_eq!(e, Conflict::Edge { a: 0, b: 1, a_from: p(0, 0), a_to: p(1, 0), b_from: p(1, 0), b_to: p(0, 0), time: 0 });
    assert_eq!(
        constraint_from(&e, 1),
        Constraint::Edge { agent: 1, from: p(1, 0), to: p(0, 0), time: 0 }
    );
    assert_eq!(count_conflicts(&swap), 1);

    let apart = vec![vec![p(0, 0)], vec![p(1, 1), p(2, 1)]];
    assert!(find_first_conflict(&apart).is_none());
    assert_eq!(count_conflicts(&apart), 0);
    assert_eq!(position_at(&apart[0], 5), p(0, 0));
    assert_eq!(cost_of(&apart), 1);
}

#[test]
fn cbs_solves_the_corridor_swap() {
    let g = demo_grid();
    let agents = demo_agents();
    let paths = cbs(&g, &agents).unwrap();
    assert_eq!(paths.len(), 3);
    for (path, agent) in paths.iter().zip(agents.iter()) {
        assert_eq!(path[0], agent.start);
        assert_eq!(*path.last().unwrap(), agent.goal);
        for w in path.windows(2) {
            assert!(w[0].manhattan(w[1]) <= 1);
            assert!(g.valid(w[1]));
        }
    }
    assert!(find_first_conflict(&paths).is_none());
    assert_eq!(count_conflicts(&paths), 0);
}

#[test]
fn cbs_reports_unreachable_goals() {
    let g = Grid::new(3, 1, &[(1, 0)]);
    let agents = vec![Agent { name: "A".to_string(), start: p(0, 0), goal: p(2, 0) }];
    assert!(cbs(&g, &agents).is_none());
}

#[test]
fn cbs_finds_the_cheapest_crossing() {
    let g = Grid::new(3, 3, &[]);
    let agents = vec![
        Agent { name: "A".to_string(), start: p(0, 1), goal: p(2, 1) },
        Agent { name: "B".to_string(), start: p(1, 0), goal: p(1, 2) },
    ];
    let paths = cbs(&g, &agents).unwrap();
    assert!(find_first_conflict(&paths).is_none());
    // Each agent alone needs two moves, and both would meet in the centre:
    // one extra move is the least a solution can cost.
    assert_eq!(cost_of(&paths), 5);
}

#[test]
fn cbs_keeps_lone_plans_that_never_meet() {
    let g = Grid::new(4, 3, &[]);
    let agents = vec![
        Agent { name: "A".to_string(), start: p(0, 0), goal: p(3, 0) },
        Agent { name: "B".to_string(), start: p(0, 2), goal: p(3, 2) },
    ];
    let paths = cbs(&g, &agents).unwrap();
    assert_eq!(paths[0].len(), 4);
    assert_eq!(paths[1].len(), 4);
    assert_eq!(cost_of(&paths), 6);
}
