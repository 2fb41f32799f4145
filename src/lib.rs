// Exploration of small puzzles by breadth-first, depth-limited depth-first and A* search.
//
// board:        the 3x3 sliding-tile board as a mathematical model, and its canonical key
// eight_puzzle: sliding-tile states, their successors, heuristics and the three searches
// crossing:     the missionaries-and-cannibals crossing puzzle and its searches
// frontier:     bounds on the set of expanded keys
// trace:        cumulative graph snapshots of a search
// graph:        a tree of values with preorder and level-order lookup
pub mod board;
pub mod crossing;
pub mod eight_puzzle;
pub mod frontier;
pub mod graph;
pub mod trace;
