use puzzle_search::crossing::{Move, State};

fn replay(moves: &Vec<Move>) -> (u8, u8, bool) {
    let mut s = State::new();
    for m in moves {
        assert!(s.sail(*m));
    }
    (s.missionaries(), s.cannibals(), s.boat())
}

#[test]
fn test_game() {
    let gviz = State::build_tree();
    assert!(gviz.starts_with(
        "digraph {\n    331 [label=\"<< 3, 3, true>>\", fillcolor=blue];\n"
    ));
    assert!(gviz.ends_with("}"));
    assert!(gviz.contains("    000 ["));
}

#[test]
fn breadth_first_crossing_takes_eleven() {
    let (graphs, sol) = State::build_breadth_first_tree();
    let sol = sol.expect("the crossing is solvable");
    assert_eq!(sol.missionaries(), 0);
    assert_eq!(sol.cannibals(), 0);
    assert_eq!(sol.sail_history().len(), 11);
    assert_eq!(replay(sol.sail_history()), (0, 0, false));
    assert!(graphs.last().unwrap().contains("    000 [label=\"<< 0, 0, false>>\", fillcolor=green, style=filled];\n"));
}

#[test]
fn depth_first_crossing_reaches_goal() {
    let (graphs, sol) = State::build_depth_first_tree();
    let sol = sol.expect("the crossing is solvable");
    assert!(sol.is_game_complete());
    let (m, c, _) = replay(sol.sail_history());
    assert_eq!((m, c), (0, 0));
    assert!(sol.sail_history().len() >= 11);
    for w in graphs.windows(2) {
        assert!(w[1].starts_with(&w[0][..w[0].len() - 1]));
    }
}

#[test]
fn crossing_first_snapshot() {
    let (graphs, _) = State::build_breadth_first_tree();
    assert_eq!(
        graphs[0],
        "digraph {\n    331 [label=\"<< 3, 3, true>>\", fillcolor=blue, style=filled];\n}"
    );
    assert_eq!(
        graphs[1],
        "digraph {\n    331 [label=\"<< 3, 3, true>>\", fillcolor=blue, style=filled];\n    320 [label=\"<< 3, 2, false>>\", fillcolor=white, style=filled];\n    331 -> 320 [label=\"Cannibal\", color=red];\n}"
    );
}

#[test]
fn sail_rejects_unsafe_crossings() {
    let mut s = State::new();
    assert!(!s.sail(Move::Missionary));
    assert!(!s.sail(Move::TwoMissionaries));
    assert_eq!((s.missionaries(), s.cannibals(), s.boat()), (3, 3, true));
    assert_eq!(s.last_move(), None);
    assert!(s.sail(Move::MissionaryCannibal));
    assert_eq!((s.missionaries(), s.cannibals(), s.boat()), (2, 2, false));
    assert_eq!(s.last_move(), Some(Move::MissionaryCannibal));
    assert!(!s.sail(Move::TwoCannibals));
}

#[test]
fn neighbours_never_leave_a_bank_outnumbered() {
    let mut s = State::new();
    assert!(s.is_terminal());
    let ns = s.discover_neighbours();
    assert!(!s.is_terminal());
    let moves: Vec<Move> = ns.iter().map(|n| n.last_move().unwrap()).collect();
    assert_eq!(moves, vec![Move::Cannibal, Move::TwoCannibals, Move::MissionaryCannibal]);
    for n in &ns {
        let (m, c) = (n.missionaries(), n.cannibals());
        assert!(m == 0 || c <= m);
        assert!(3 - m == 0 || 3 - c <= 3 - m);
    }
}

#[test]
fn crossing_text_and_key() {
    let s = State::new();
    assert_eq!(s.repr(), 133);
    assert_eq!(s.to_string(), "331");
    assert_eq!(s.label(), "<< 3, 3, true>>");
    assert!(!s.is_game_complete());
}

#[test]
fn crossing_equality_ignores_history() {
    let mut s = State::new();
    assert!(s.sail(Move::MissionaryCannibal));
    assert!(s != State::new());
    assert!(s.sail(Move::MissionaryCannibal));
    assert!(s == State::new());
}

#[test]
fn depth_first_crossing_first_snapshot() {
    let (graphs, _) = State::build_depth_first_tree();
    assert_eq!(
        graphs[0],
        "digraph {\n    331 [label=\"<< 3, 3, true>>\", fillcolor=blue];\n}"
    );
    assert!(graphs[1].ends_with("    331 -> 320 [label=\"Cannibal\", color=red];\n}"));
}

#[test]
fn build_tree_declares_every_reachable_configuration() {
    let gviz = State::build_tree();
    for id in ["331", "320", "310", "220", "321", "300", "311", "110", "221", "020", "031", "010", "021", "000"] {
        assert!(gviz.contains(&format!("    {} [label=", id)), "{}", id);
    }
}

fn parse_move(name: &str) -> Move {
    match name {
        "Missionary" => Move::Missionary,
        "Cannibal" => Move::Cannibal,
        "TwoMissionaries" => Move::TwoMissionaries,
        "TwoCannibals" => Move::TwoCannibals,
        _ => Move::MissionaryCannibal,
    }
}

#[test]
fn breadth_first_edges_are_legal_crossings() {
    let (graphs, _) = State::build_breadth_first_tree();
    let last = graphs.last().unwrap();
    let mut edges = 0;
    for line in last.lines().filter(|l| l.contains(" -> ")) {
        let parts: Vec<&str> = line.trim().split(' ').collect();
        let (from, to) = (parts[0], parts[2]);
        let name = line.split("label=\"").nth(1).unwrap().split('"').next().unwrap();
        let d: Vec<u8> = from.bytes().map(|b| b - b'0').collect();
        let (m, c, boat) = (d[0] as i32, d[1] as i32, d[2] == 1);
        let t: Vec<i32> = to.bytes().map(|b| (b - b'0') as i32).collect();
        let (dm, dc) = match parse_move(name) {
            Move::Missionary => (1, 0),
            Move::Cannibal => (0, 1),
            Move::TwoMissionaries => (2, 0),
            Move::TwoCannibals => (0, 2),
            Move::MissionaryCannibal => (1, 1),
        };
        let sign = if boat { -1 } else { 1 };
        assert_eq!((t[0], t[1], t[2] == 1), (m + sign * dm, c + sign * dc, !boat), "{}", line);
        edges += 1;
    }
    assert!(edges >= 11);
}
