use grid_pathfinder::algorithms::a_star::AStar;
use grid_pathfinder::pathfinder::Pathfinder;
use grid_pathfinder::vector::Vector2;

/// A strategy-agnostic driver: initialize, step until the goal is reported
/// or the frontier is exhausted, then read the path back.
fn drive<P: Pathfinder>(
    p: &mut P,
    rows: i32,
    cols: i32,
    start: Vector2<usize>,
    end: Vector2<usize>,
    walls: Vec<Vec<bool>>,
) -> Option<Vec<Vector2<usize>>> {
    p.init(rows, cols, start, end, walls);
    for _ in 0..10_000 {
        match p.step() {
            Some(q) if q == end => return Some(p.get_path()),
            Some(_) => {}
            None => return None,
        }
    }
    panic!("search did not terminate");
}

#[test]
fn a_star_through_the_strategy_interface() {
    let mut e = AStar::default();
    let start = Vector2 { x: 0, y: 3 };
    let end = Vector2 { x: 5, y: 0 };
    let path = drive(&mut e, 4, 6, start, end, vec![vec![false; 6]; 4]).expect("a path exists");
    assert_eq!(path.first(), Some(&end), "the path starts at the current (goal) cell");
    assert_eq!(path.last(), Some(&start), "and leads back to the start");
    e.deinit();
    assert!(e.get_path().is_empty());
}

#[test]
fn barrier_reported_through_the_strategy_interface() {
    let mut e = AStar::default();
    let walls = vec![
        vec![false, true, false],
        vec![false, true, false],
        vec![false, true, false],
    ];
    let res = drive(&mut e, 3, 3, Vector2 { x: 0, y: 0 }, Vector2 { x: 2, y: 2 }, walls);
    assert_eq!(res, None, "a full vertical barrier leaves no path");
}

#[test]
fn boxed_strategy_object() {
    let mut p: Box<dyn Pathfinder> = Box::<AStar>::default();
    p.init(3, 3, Vector2 { x: 0, y: 0 }, Vector2 { x: 2, y: 2 }, vec![vec![false; 3]; 3]);
    assert_eq!(p.step(), Some(Vector2 { x: 0, y: 0 }));
}
