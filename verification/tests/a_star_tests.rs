use grid_pathfinder::algorithms::a_star::AStar;
use grid_pathfinder::algorithms::a_star::AStarNode;
use grid_pathfinder::algorithms::a_star::DIAGONAL_COST;
use grid_pathfinder::algorithms::a_star::STRAIGHT_COST;
use grid_pathfinder::algorithms::a_star::distance;
use grid_pathfinder::vector::Vector2;

fn open_grid(rows: usize, cols: usize) -> Vec<Vec<bool>> {
    vec![vec![false; cols]; rows]
}

fn pos(x: usize, y: usize) -> Vector2<usize> {
    Vector2 { x, y }
}

/// Sum of the engine's step costs along a sequence of adjacent cells.
fn cost_of(path: &[Vector2<usize>]) -> i32 {
    let mut total = 0;
    for w in path.windows(2) {
        let dx = w[0].x.abs_diff(w[1].x);
        let dy = w[0].y.abs_diff(w[1].y);
        assert!(dx <= 1 && dy <= 1 && dx + dy > 0, "path cells must be adjacent");
        total += if dx == 1 && dy == 1 { DIAGONAL_COST } else { STRAIGHT_COST };
    }
    total
}

/// Drives the engine until it reports the goal; panics on exhaustion.
fn run_to_goal(e: &mut AStar, end: Vector2<usize>) -> Vec<Vector2<usize>> {
    let mut expansions = Vec::new();
    for _ in 0..10_000 {
        match e.step() {
            Some(p) => {
                expansions.push(p);
                if p == end {
                    return expansions;
                }
            }
            None => panic!("search exhausted before reaching the goal"),
        }
    }
    panic!("search did not terminate");
}

#[test]
fn distance_matches_octile_formula() {
    assert_eq!(distance(&pos(0, 0), &pos(3, 4)), 3 * DIAGONAL_COST + 1 * STRAIGHT_COST);
    assert_eq!(distance(&pos(0, 0), &pos(0, 7)), 7 * STRAIGHT_COST);
    assert_eq!(distance(&pos(2, 2), &pos(6, 6)), 4 * DIAGONAL_COST);
    assert_eq!(distance(&pos(5, 5), &pos(5, 5)), 0);
    assert_eq!(distance(&pos(3, 4), &pos(0, 0)), distance(&pos(0, 0), &pos(3, 4)));
}

#[test]
fn f_cost_adds_g_and_h() {
    let n = AStarNode { pos: pos(0, 0), g_cost: 3, h_cost: 4, prev_pos: None };
    assert_eq!(n.f_cost(), 7);
}

#[test]
fn init_seeds_frontier_with_start_only() {
    let mut e = AStar::default();
    e.init(4, 3, pos(1, 2), pos(2, 0), open_grid(4, 3));

    assert_eq!(e.get_frontier(), vec![pos(1, 2)]);
    let visited = e.get_visited();
    assert_eq!(visited.len(), 4);
    for (y, row) in visited.iter().enumerate() {
        assert_eq!(row.len(), 3);
        for (x, v) in row.iter().enumerate() {
            assert_eq!(*v, x == 1 && y == 2, "only the start cell is recorded");
        }
    }
    assert!(e.get_path().is_empty(), "no node is current before the first step");
}

#[test]
fn reinit_with_same_arguments_resets_search() {
    let mut e = AStar::default();
    let walls = open_grid(5, 5);
    e.init(5, 5, pos(0, 0), pos(4, 4), walls.clone());
    for _ in 0..3 {
        e.step();
    }
    assert!(e.get_frontier().len() > 1);

    e.init(5, 5, pos(0, 0), pos(4, 4), walls);
    assert_eq!(e.get_frontier(), vec![pos(0, 0)]);
    let visited = e.get_visited();
    for (y, row) in visited.iter().enumerate() {
        for (x, v) in row.iter().enumerate() {
            assert_eq!(*v, x == 0 && y == 0);
        }
    }
    assert!(e.get_path().is_empty());
}

#[test]
fn trivial_search_start_equals_end() {
    let mut e = AStar::default();
    e.init(4, 4, pos(2, 1), pos(2, 1), open_grid(4, 4));

    assert_eq!(e.step(), Some(pos(2, 1)), "the first step reports the goal");
    assert_eq!(e.get_path(), vec![pos(2, 1)], "the path is the single start cell");
    assert!(e.get_frontier().is_empty());
}

#[test]
fn equal_f_cost_breaks_tie_toward_smaller_h() {
    // On a 3x3 grid from (0,0) to (2,1), after the start is expanded the
    // frontier holds (1,0) with f = 24, h = 14 and (1,1) with f = 24,
    // h = 10. The tie on f must fall to (1,1), the node closer to the
    // goal.
    let mut e = AStar::default();
    e.init(3, 3, pos(0, 0), pos(2, 1), open_grid(3, 3));

    assert_eq!(e.step(), Some(pos(0, 0)));
    assert_eq!(e.step(), Some(pos(1, 1)), "equal f, smaller h pops first");
    assert_eq!(e.step(), Some(pos(2, 1)), "then the goal itself");
}

#[test]
fn open_five_by_five_diagonal() {
    let mut e = AStar::default();
    let end = pos(4, 4);
    e.init(5, 5, pos(0, 0), end, open_grid(5, 5));
    run_to_goal(&mut e, end);

    let path = e.get_path();
    assert_eq!(path.len(), 5, "four diagonal steps visit five cells");
    assert_eq!(path[0], end);
    assert_eq!(path[4], pos(0, 0));
    assert_eq!(cost_of(&path), 4 * DIAGONAL_COST);

    let state = e.get_state();
    assert_eq!(state[4][4], Some("56|0".to_string()));
}

#[test]
fn full_barrier_exhausts_without_path() {
    // The whole middle row is walled, cutting (0,0) off from (2,2).
    let mut walls = open_grid(3, 3);
    walls[1] = vec![true, true, true];
    let mut e = AStar::default();
    e.init(3, 3, pos(0, 0), pos(2, 2), walls);

    let mut exhausted = false;
    for _ in 0..100 {
        match e.step() {
            Some(p) => assert_ne!(p, pos(2, 2), "the goal is unreachable"),
            None => {
                exhausted = true;
                break;
            }
        }
    }
    assert!(exhausted, "the frontier must empty out");
    assert!(e.get_path().is_empty(), "no path after exhaustion");
    assert_eq!(e.step(), None, "stepping after exhaustion stays safe");

    let visited = e.get_visited();
    assert_eq!(visited[2], vec![false, false, false], "the far side is never reached");
    assert_eq!(visited[1], vec![false, false, false], "walls are never recorded");
}

#[test]
fn wall_cell_is_never_visited_and_detour_costs_more() {
    // A single wall on the center cell forces the diagonal around it.
    let mut walls = open_grid(3, 3);
    walls[1][1] = true;
    let mut e = AStar::default();
    let end = pos(2, 2);
    e.init(3, 3, pos(0, 0), end, walls);
    run_to_goal(&mut e, end);

    assert!(!e.get_visited()[1][1]);
    let path = e.get_path();
    assert_eq!(path.len(), 4);
    assert_eq!(cost_of(&path), 34);
    assert_eq!(e.get_state()[2][2], Some("34|0".to_string()));
}

#[test]
fn frontier_after_first_expansion() {
    let mut e = AStar::default();
    e.init(3, 3, pos(0, 0), pos(2, 1), open_grid(3, 3));
    e.step();

    let frontier = e.get_frontier();
    assert_eq!(frontier.len(), 3);
    for p in [pos(0, 1), pos(1, 0), pos(1, 1)] {
        assert!(frontier.contains(&p), "missing frontier cell {:?}", p);
    }
}

#[test]
fn state_tokens_render_cost_and_heuristic() {
    let mut e = AStar::default();
    e.init(3, 3, pos(0, 0), pos(2, 1), open_grid(3, 3));

    let state = e.get_state();
    assert_eq!(state[0][0], Some("0|24".to_string()), "start: cost 0, octile estimate 24");
    assert_eq!(state[2][2], None, "unvisited cells have no token");
}

#[test]
fn recorded_costs_never_worsen() {
    let mut walls = open_grid(5, 5);
    walls[2][1] = true;
    walls[2][2] = true;
    let mut e = AStar::default();
    e.init(5, 5, pos(0, 0), pos(4, 4), walls);

    let g_of = |s: &Option<String>| -> i32 {
        match s {
            Some(t) => t.split('|').next().unwrap().parse().unwrap(),
            None => i32::MAX,
        }
    };

    let mut prev: Vec<Vec<i32>> = e
        .get_state()
        .iter()
        .map(|row| row.iter().map(&g_of).collect())
        .collect();
    for _ in 0..100 {
        let made_progress = e.step().is_some();
        let now: Vec<Vec<i32>> = e
            .get_state()
            .iter()
            .map(|row| row.iter().map(&g_of).collect())
            .collect();
        for y in 0..5 {
            for x in 0..5 {
                assert!(now[y][x] <= prev[y][x], "cost of ({x}, {y}) worsened");
            }
        }
        prev = now;
        if !made_progress {
            break;
        }
    }
}

#[test]
fn deinit_clears_all_search_state() {
    let mut e = AStar::default();
    e.init(4, 4, pos(0, 0), pos(3, 3), open_grid(4, 4));
    e.step();
    e.deinit();

    assert!(e.get_frontier().is_empty());
    assert!(e.get_path().is_empty());
    assert!(e.get_visited().is_empty());
    assert!(e.get_state().is_empty());
    assert_eq!(e.step(), None, "a deinitialized engine reports no progress");
    e.deinit();
}

#[test]
fn default_engine_is_idle() {
    let mut e = AStar::default();
    assert_eq!(e.step(), None);
    assert!(e.get_frontier().is_empty());
    assert!(e.get_path().is_empty());
    assert!(e.get_visited().is_empty());
}
