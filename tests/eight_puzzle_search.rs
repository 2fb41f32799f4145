use puzzle_search::board::is_valid_board;
use puzzle_search::eight_puzzle::{EightPuzzleState, Heuristic, InvalidMove, Move};

const GOAL: [u8; 9] = [1, 2, 3, 4, 5, 6, 7, 8, 0];
const NEAR: [u8; 9] = [1, 2, 3, 0, 4, 6, 7, 5, 8];
const FIVE_AWAY: [u8; 9] = [2, 0, 3, 1, 4, 5, 7, 8, 6];

fn replay(start: [u8; 9], target: [u8; 9], moves: &Vec<Move>) -> [u8; 9] {
    let mut s = EightPuzzleState::new(start, target);
    for m in moves {
        assert!(s.make_move(*m));
    }
    s.board()
}

fn assert_cumulative(graphs: &Vec<String>) {
    assert!(!graphs.is_empty());
    for g in graphs {
        assert!(g.starts_with("digraph {\n"));
        assert!(g.ends_with('}'));
    }
    for w in graphs.windows(2) {
        let open = &w[0][..w[0].len() - 1];
        assert!(w[1].starts_with(open));
    }
}

#[test]
fn test_build_tree() {
    let (ret, _) = EightPuzzleState::astar_search(true, Heuristic::Manhattan, NEAR, GOAL);
    assert!(ret.len() > 1);
    assert_cumulative(&ret);
}

#[test]
fn astar_manhattan_reaches_goal_from_scenario_start() {
    let (_, sol) = EightPuzzleState::astar_search(false, Heuristic::Manhattan, NEAR, GOAL);
    let sol = sol.expect("the goal is reachable");
    assert_eq!(sol.board(), GOAL);
    assert_eq!(replay(NEAR, GOAL, sol.move_history()), GOAL);
    assert_eq!(sol.move_history(), &vec![Move::Right, Move::Down, Move::Right]);
}

#[test]
fn astar_misplaced_reaches_goal() {
    let (_, sol) = EightPuzzleState::astar_search(false, Heuristic::MisplacedTiles, FIVE_AWAY, GOAL);
    let sol = sol.expect("the goal is reachable");
    assert_eq!(replay(FIVE_AWAY, GOAL, sol.move_history()), GOAL);
}

#[test]
fn breadth_first_finds_shortest_path() {
    let (graphs, sol) = EightPuzzleState::build_tree_breadth_first(true, NEAR, GOAL);
    let sol = sol.expect("the goal is reachable");
    assert_eq!(sol.move_history(), &vec![Move::Right, Move::Down, Move::Right]);
    assert_eq!(replay(NEAR, GOAL, sol.move_history()), GOAL);
    assert_cumulative(&graphs);
}

#[test]
fn breadth_first_five_moves() {
    let (_, sol) = EightPuzzleState::build_tree_breadth_first(false, FIVE_AWAY, GOAL);
    let sol = sol.expect("the goal is reachable");
    assert_eq!(sol.move_history().len(), 5);
    assert_eq!(replay(FIVE_AWAY, GOAL, sol.move_history()), GOAL);
}

#[test]
fn astar_not_shorter_than_breadth_first() {
    let (_, bfs) = EightPuzzleState::build_tree_breadth_first(false, NEAR, GOAL);
    let (_, astar) = EightPuzzleState::astar_search(false, Heuristic::Manhattan, NEAR, GOAL);
    let b = bfs.unwrap().move_history().len();
    let a = astar.unwrap().move_history().len();
    assert!(b <= a);
    assert_eq!(a, 3);
}

#[test]
fn breadth_first_start_is_goal() {
    let (graphs, sol) = EightPuzzleState::build_tree_breadth_first(false, GOAL, GOAL);
    assert_eq!(sol.unwrap().move_history().len(), 0);
    assert_eq!(graphs, vec!["digraph {\n}".to_string()]);
}

#[test]
fn depth_limited_too_shallow_is_exhausted() {
    let (_, sol) = EightPuzzleState::build_tree_depth_first(false, 3, FIVE_AWAY, GOAL);
    assert!(sol.is_none());
}

#[test]
fn depth_limited_deep_enough_finds_solution() {
    let (graphs, sol) = EightPuzzleState::build_tree_depth_first(true, 3, NEAR, GOAL);
    let sol = sol.expect("three moves suffice");
    assert!(sol.move_history().len() <= 3);
    assert_eq!(replay(NEAR, GOAL, sol.move_history()), GOAL);
    assert_cumulative(&graphs);
}

#[test]
fn first_snapshot_declares_start() {
    let (graphs, _) = EightPuzzleState::build_tree_breadth_first(true, NEAR, GOAL);
    assert_eq!(
        graphs[0],
        "digraph {\n    123046758 [label=\"     1  2  3     \\n     0  4  6     \\n     7  5  8     \", fillcolor=blue];\n}"
    );
    assert!(graphs[1].contains(
        "    023146758 [label=\"     0  2  3     \\n     1  4  6     \\n     7  5  8     \", fillcolor=blue];\n"
    ));
    assert!(graphs[1].ends_with("    123046758 -> 023146758 [label=\"Up\", color=red];\n}"));
}

#[test]
fn astar_labels_carry_score() {
    let (graphs, _) = EightPuzzleState::astar_search(true, Heuristic::Manhattan, NEAR, GOAL);
    assert!(graphs[0].contains("\\n\\nh=3\""));
}

#[test]
fn key_packs_four_bits_per_cell() {
    let s = EightPuzzleState::new(GOAL, GOAL);
    assert_eq!(s.int_repr(), 0x0_8765_4321);
    let t = EightPuzzleState::new(NEAR, GOAL);
    assert_ne!(s.int_repr(), t.int_repr());
}

#[test]
fn text_forms() {
    let s = EightPuzzleState::new(NEAR, GOAL);
    assert_eq!(s.repr(), "123046758");
    assert_eq!(s.to_string(), "     1  2  3     \\n     0  4  6     \\n     7  5  8     ");
}

#[test]
fn heuristics_exact_values() {
    let s = EightPuzzleState::new(FIVE_AWAY, GOAL);
    assert_eq!(s.manhattan_distance(), 5);
    assert_eq!(s.misplaced_tiles(), 5);
    let g = EightPuzzleState::new(GOAL, GOAL);
    assert_eq!(g.manhattan_distance(), 0);
    assert_eq!(g.misplaced_tiles(), 0);
    let n = EightPuzzleState::new(NEAR, GOAL);
    assert_eq!(n.manhattan_distance(), 3);
    assert_eq!(n.misplaced_tiles(), 3);
    assert_eq!(n.astar_evaluation(Heuristic::Manhattan), 3);
}

#[test]
fn blank_moves_and_rejections() {
    let mut s = EightPuzzleState::new(NEAR, GOAL);
    assert_eq!(s.blank_position(), 3);
    assert!(!s.make_move(Move::Left));
    assert_eq!(s.board(), NEAR);
    assert_eq!(s.last_move(), None);
    assert!(s.make_move(Move::Up));
    assert_eq!(s.board(), [0, 2, 3, 1, 4, 6, 7, 5, 8]);
    assert_eq!(s.last_move(), Some(Move::Up));
    assert!(!s.make_move(Move::Up));
    assert_eq!(s.blank_position(), 0);
}

#[test]
fn attempt_move_reports_invalid_move() {
    let s = EightPuzzleState::new(NEAR, GOAL);
    assert_eq!(s.attempt_move(Move::Left).err(), Some(InvalidMove));
    let n = s.attempt_move(Move::Right).unwrap();
    assert_eq!(n.board(), [1, 2, 3, 4, 0, 6, 7, 5, 8]);
    assert_eq!(s.board(), NEAR);
}

#[test]
fn neighbours_in_fixed_order() {
    let mut s = EightPuzzleState::new(NEAR, GOAL);
    assert!(s.is_terminal());
    let ns = s.discover_neighbours(false);
    let moves: Vec<Move> = ns.iter().map(|n| n.last_move().unwrap()).collect();
    assert_eq!(moves, vec![Move::Up, Move::Down, Move::Right]);
    assert!(!s.is_terminal());
    let rev = s.discover_neighbours(true);
    let moves: Vec<Move> = rev.iter().map(|n| n.last_move().unwrap()).collect();
    assert_eq!(moves, vec![Move::Right, Move::Down, Move::Up]);
}

#[test]
fn goal_check() {
    assert!(EightPuzzleState::new(GOAL, GOAL).is_game_complete());
    assert!(!EightPuzzleState::new(NEAR, GOAL).is_game_complete());
    assert_eq!(EightPuzzleState::new(NEAR, GOAL).target(), GOAL);
}

#[test]
fn board_validity() {
    assert!(is_valid_board(&GOAL));
    assert!(!is_valid_board(&[1, 1, 3, 4, 5, 6, 7, 8, 0]));
    assert!(!is_valid_board(&[1, 2, 3, 4, 5, 6, 7, 8, 9]));
}

#[test]
fn tile_equality_ignores_history() {
    let mut a = EightPuzzleState::new(NEAR, GOAL);
    assert!(a.make_move(Move::Up));
    assert!(a.make_move(Move::Down));
    assert!(a == EightPuzzleState::new(NEAR, GOAL));
    assert!(a != EightPuzzleState::new(GOAL, GOAL));
}

#[test]
fn depth_limited_start_is_goal() {
    let (_, sol) = EightPuzzleState::build_tree_depth_first(false, 0, GOAL, GOAL);
    assert_eq!(sol.unwrap().move_history().len(), 0);
}

#[test]
fn depth_limited_one_move_away() {
    let start = [1, 2, 3, 4, 5, 6, 7, 0, 8];
    let (_, sol) = EightPuzzleState::build_tree_depth_first(false, 1, start, GOAL);
    assert_eq!(sol.unwrap().move_history(), &vec![Move::Right]);
}
