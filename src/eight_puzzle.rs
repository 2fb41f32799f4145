use std::collections::HashSet;
use vstd::prelude::*;

use crate::board::{
    apply_moves, cell_distance, first_index, is_board, is_first_index, key_of, legal_moves,
    lemma_apply_moves_board, lemma_apply_push, lemma_key_bound, lemma_key_injective,
    lemma_legal_moves_complete, lemma_legal_moves_sound, lemma_step_board, manhattan,
    manhattan_from, misplaced, misplaced_from, position, reachable, reachable_within, step,
};
use crate::frontier::lemma_visited_bound;
use crate::trace::{
    decimal, edge_line, graph_text, is_cumulative, is_graph, statements_ok, node_line, opens_with, push_decimal, NodeColor, Trace,
};

pub use crate::board::Move;

verus! {

/// A move was rejected: the blank would leave the board.
#[derive(Clone, Copy, Debug, PartialEq, Eq, Structural)]
pub struct InvalidMove;

/// How A* estimates the distance left to the goal.
#[derive(Clone, Copy, Debug, PartialEq, Eq, Structural)]
pub enum Heuristic {
    MisplacedTiles,
    Manhattan,
}

/// A sliding-tile configuration, its goal, and the moves that led to it.
#[derive(Debug)]
pub struct EightPuzzleState {
    board: [u8; 9],
    target: [u8; 9],
    move_history: Vec<Move>,
    children: Vec<EightPuzzleState>,
}

/// Text of a move, as in an edge label.
pub open spec fn move_name(m: Move) -> Seq<char> {
    match m {
        Move::Left => "Left"@,
        Move::Up => "Up"@,
        Move::Down => "Down"@,
        Move::Right => "Right"@,
    }
}

/// The decimal text of the first `k` cells, one after the other.
pub open spec fn cells_text(b: Seq<u8>, k: int) -> Seq<char>
    decreases k,
{
    if k <= 0 {
        Seq::empty()
    } else {
        cells_text(b, k - 1) + decimal(b[k - 1] as nat)
    }
}

/// The cells of a board written one after the other, used as a node name.
pub open spec fn board_digits(b: Seq<u8>) -> Seq<char> {
    cells_text(b, 9)
}

/// One row of the 3x3 rendering.
pub open spec fn row_text(b: Seq<u8>, r: int) -> Seq<char> {
    "     "@ + decimal(b[3 * r] as nat) + "  "@ + decimal(b[3 * r + 1] as nat) + "  "@ + decimal(
        b[3 * r + 2] as nat,
    ) + "     "@
}

/// The 3x3 rendering of a board, rows joined by an escaped line break.
pub open spec fn board_text(b: Seq<u8>) -> Seq<char> {
    row_text(b, 0) + "\\n"@ + row_text(b, 1) + "\\n"@ + row_text(b, 2)
}

/// The successor moves in the order they are handed out.
pub open spec fn neighbour_moves(b: Seq<u8>, reverse: bool) -> Seq<Move> {
    if reverse {
        legal_moves(b).reverse()
    } else {
        legal_moves(b)
    }
}

pub open spec fn heuristic_value(h: Heuristic, b: Seq<u8>, t: Seq<u8>) -> nat {
    match h {
        Heuristic::MisplacedTiles => misplaced(b, t),
        Heuristic::Manhattan => manhattan(b, t),
    }
}

fn push_move_name(s: &mut String, m: Move)
    ensures
        final(s)@ == old(s)@ + move_name(m),
{
    match m {
        Move::Left => s.append("Left"),
        Move::Up => s.append("Up"),
        Move::Down => s.append("Down"),
        Move::Right => s.append("Right"),
    }
}

impl EightPuzzleState {
    pub closed spec fn board_view(&self) -> Seq<u8> {
        self.board@
    }

    pub closed spec fn target_view(&self) -> Seq<u8> {
        self.target@
    }

    pub closed spec fn history(&self) -> Seq<Move> {
        self.move_history@
    }

    /// How many successors the last expansion of this state recorded.
    pub closed spec fn child_count(&self) -> nat {
        self.children@.len()
    }

    /// A state at `board` with no moves played yet.
    pub fn new(board: [u8; 9], target: [u8; 9]) -> (r: EightPuzzleState)
        ensures
            r.board_view() == board@,
            r.target_view() == target@,
            r.history() == Seq::<Move>::empty(),
            r.child_count() == 0,
    {
        EightPuzzleState { board, target, move_history: Vec::new(), children: Vec::new() }
    }

    /// The same configuration, goal and history, with no recorded successors.
    fn leaf_copy(&self) -> (r: EightPuzzleState)
        ensures
            r.board_view() == self.board_view(),
            r.target_view() == self.target_view(),
            r.history() == self.history(),
            r.child_count() == 0,
    {
        EightPuzzleState {
            board: self.board,
            target: self.target,
            move_history: self.move_history.clone(),
            children: Vec::new(),
        }
    }

    /// The canonical key of the configuration.
    pub fn int_repr(&self) -> (r: u64)
        ensures
            r == key_of(self.board_view()),
    {
        let b = &self.board;
        (b[0] as u64) | ((b[1] as u64) << 4u64) | ((b[2] as u64) << 8u64) | ((b[3] as u64) << 12u64)
            | ((b[4] as u64) << 16u64) | ((b[5] as u64) << 20u64) | ((b[6] as u64) << 24u64) | ((
        b[7] as u64) << 28u64) | ((b[8] as u64) << 32u64)
    }

    /// The cells of the configuration written one after the other, used as a node name.
    pub fn repr(&self) -> (r: String)
        ensures
            r@ == board_digits(self.board_view()),
    {
        let mut s = String::new();
        let mut i: usize = 0;
        while i < 9
            invariant
                i <= 9,
                self.board@.len() == 9,
                s@ == cells_text(self.board@, i as int),
            decreases 9 - i,
        {
            push_decimal(&mut s, self.board[i] as u64);
            i = i + 1;
        }
        s
    }

    fn push_row(&self, s: &mut String, r: usize)
        requires
            r < 3,
        ensures
            final(s)@ == old(s)@ + row_text(self.board_view(), r as int),
    {
        s.append("     ");
        push_decimal(s, self.board[3 * r] as u64);
        s.append("  ");
        push_decimal(s, self.board[3 * r + 1] as u64);
        s.append("  ");
        push_decimal(s, self.board[3 * r + 2] as u64);
        s.append("     ");
        assert(final(s)@ =~= old(s)@ + row_text(self.board_view(), r as int));
    }

    /// The configuration as three rows of three, for node labels.
    pub fn to_string(&self) -> (r: String)
        ensures
            r@ == board_text(self.board_view()),
    {
        let mut s = String::new();
        self.push_row(&mut s, 0);
        s.append("\\n");
        self.push_row(&mut s, 1);
        s.append("\\n");
        self.push_row(&mut s, 2);
        assert(s@ =~= board_text(self.board_view()));
        s
    }

    /// The move that led here, if any.
    pub fn last_move(&self) -> (r: Option<Move>)
        ensures
            r == (if self.history().len() == 0 {
                None
            } else {
                Some(self.history().last())
            }),
    {
        let n = self.move_history.len();
        if n == 0 {
            None
        } else {
            Some(self.move_history[n - 1])
        }
    }

    /// The cell of the blank.
    pub fn blank_position(&self) -> (r: usize)
        requires
            self.board_view().contains(0u8),
        ensures
            r == first_index(self.board_view(), 0u8),
            is_first_index(self.board_view(), 0u8, r as int),
    {
        position(&self.board, 0)
    }

    /// Number of tiles, the blank excluded, that are not where the goal has them.
    pub fn misplaced_tiles(&self) -> (r: usize)
        ensures
            r == misplaced(self.board_view(), self.target_view()),
            r <= 9,
    {
        let mut count: usize = 0;
        let mut i: usize = 0;
        while i < 9
            invariant
                i <= 9,
                count <= i,
                count + misplaced_from(self.board@, self.target@, i as int) == misplaced(
                    self.board@,
                    self.target@,
                ),
            decreases 9 - i,
        {
            if self.board[i] != 0 && self.board[i] != self.target[i] {
                count = count + 1;
            }
            i = i + 1;
        }
        count
    }

    /// Sum over the tiles 1..=8 of the grid distance between their cell here and in the goal.
    pub fn manhattan_distance(&self) -> (r: usize)
        requires
            is_board(self.board_view()),
            is_board(self.target_view()),
        ensures
            r == manhattan(self.board_view(), self.target_view()),
            r <= 32,
    {
        let mut distance: usize = 0;
        let mut v: u8 = 1;
        while v < 9
            invariant
                1 <= v <= 9,
                is_board(self.board@),
                is_board(self.target@),
                distance <= 4 * (v - 1),
                distance + manhattan_from(self.board@, self.target@, v as int) == manhattan(
                    self.board@,
                    self.target@,
                ),
            decreases 9 - v,
        {
            assert(self.board@.contains(v));
            assert(self.target@.contains(v));
            let s = position(&self.board, v);
            let t = position(&self.target, v);
            let dx = if s % 3 >= t % 3 {
                s % 3 - t % 3
            } else {
                t % 3 - s % 3
            };
            let dy = if s / 3 >= t / 3 {
                s / 3 - t / 3
            } else {
                t / 3 - s / 3
            };
            assert(dx + dy == cell_distance(s as int, t as int));
            distance = distance + dx + dy;
            v = v + 1;
        }
        distance
    }

    /// Whether no successor has been recorded for this state.
    pub fn is_terminal(&self) -> (r: bool)
        ensures
            r == (self.child_count() == 0),
    {
        self.children.len() == 0
    }

    /// Whether the configuration is the goal.
    pub fn is_game_complete(&self) -> (r: bool)
        ensures
            r == (self.board_view() == self.target_view()),
    {
        same_cells(&self.board, &self.target)
    }

    /// Shifts the blank; a rejected move changes nothing.
    pub fn make_move(&mut self, kind: Move) -> (r: bool)
        requires
            is_board(old(self).board_view()),
        ensures
            r == step(old(self).board_view(), kind) is Some,
            r ==> final(self).board_view() == step(old(self).board_view(), kind)->0,
            r ==> final(self).history() == old(self).history().push(kind),
            !r ==> final(self).board_view() == old(self).board_view(),
            !r ==> final(self).history() == old(self).history(),
            final(self).target_view() == old(self).target_view(),
            final(self).child_count() == old(self).child_count(),
    {
        let blank = self.blank_position();
        let dest: Option<usize> = match kind {
            Move::Left => if blank % 3 != 0 {
                Some(blank - 1)
            } else {
                None
            },
            Move::Up => if blank >= 3 {
                Some(blank - 3)
            } else {
                None
            },
            Move::Down => if blank < 6 {
                Some(blank + 3)
            } else {
                None
            },
            Move::Right => if blank % 3 != 2 {
                Some(blank + 1)
            } else {
                None
            },
        };
        match dest {
            Some(d) => {
                self.board[blank] = self.board[d];
                self.board[d] = 0;
                self.move_history.push(kind);
                true
            },
            None => false,
        }
    }

    /// The state one move further, or `InvalidMove` where the move is rejected.
    pub fn attempt_move(&self, kind: Move) -> (r: Result<EightPuzzleState, InvalidMove>)
        requires
            is_board(self.board_view()),
        ensures
            r is Ok <==> step(self.board_view(), kind) is Some,
            r matches Ok(n) ==> {
                &&& n.board_view() == step(self.board_view(), kind)->0
                &&& n.history() == self.history().push(kind)
                &&& n.target_view() == self.target_view()
                &&& n.child_count() == 0
            },
    {
        let mut next = self.leaf_copy();
        if next.make_move(kind) {
            Ok(next)
        } else {
            Err(InvalidMove)
        }
    }

    /// All successors, in the order Left, Up, Down, Right (reversed on request); they are
    /// also recorded as this state's children.
    pub fn discover_neighbours(&mut self, reverse: bool) -> (r: Vec<EightPuzzleState>)
        requires
            is_board(old(self).board_view()),
        ensures
            final(self).board_view() == old(self).board_view(),
            final(self).target_view() == old(self).target_view(),
            final(self).history() == old(self).history(),
            final(self).child_count() == r@.len(),
            r@.len() == neighbour_moves(old(self).board_view(), reverse).len(),
            forall|i: int|
                0 <= i < r@.len() ==> {
                    let m = #[trigger] neighbour_moves(old(self).board_view(), reverse)[i];
                    &&& r@[i].board_view() == step(old(self).board_view(), m)->0
                    &&& r@[i].history() == old(self).history().push(m)
                    &&& r@[i].target_view() == old(self).target_view()
                    &&& r@[i].child_count() == 0
                },
    {
        let ghost b = self.board@;
        let mut found: Vec<EightPuzzleState> = Vec::new();
        let mut copies: Vec<EightPuzzleState> = Vec::new();
        let moves = [Move::Left, Move::Up, Move::Down, Move::Right];
        let ghost order = seq![Move::Left, Move::Up, Move::Down, Move::Right];
        assert(moves@ == order);
        let mut k: usize = 0;
        while k < 4
            invariant
                k <= 4,
                moves@ == order,
                self.board@ == b,
                is_board(b),
                found@.len() == copies@.len(),
                found@.len() == legal_of_prefix(b, order, k as int).len(),
                forall|i: int|
                    0 <= i < found@.len() ==> {
                        let m = #[trigger] legal_of_prefix(b, order, k as int)[i];
                        &&& found@[i].board_view() == step(b, m)->0
                        &&& found@[i].history() == self.history().push(m)
                        &&& found@[i].target_view() == self.target_view()
                        &&& found@[i].child_count() == 0
                        &&& copies@[i].board_view() == step(b, m)->0
                        &&& copies@[i].history() == self.history().push(m)
                        &&& copies@[i].target_view() == self.target_view()
                        &&& copies@[i].child_count() == 0
                    },
            decreases 4 - k,
        {
            let m = moves[k];
            match self.attempt_move(m) {
                Ok(n) => {
                    copies.push(n.leaf_copy());
                    found.push(n);
                },
                Err(_) => {},
            }
            k = k + 1;
        }
        proof {
            reveal_with_fuel(legal_of_prefix, 5);
        }
        assert(legal_of_prefix(b, order, 4) =~= legal_moves(b));
        self.children = copies;
        if reverse {
            let mut rev: Vec<EightPuzzleState> = Vec::new();
            let ghost fwd = found@;
            while found.len() > 0
                invariant
                    found@.len() + rev@.len() == fwd.len(),
                    forall|i: int| 0 <= i < found@.len() ==> found@[i] == fwd[i],
                    forall|i: int| 0 <= i < rev@.len() ==> rev@[i] == fwd[fwd.len() - 1 - i],
                decreases found@.len(),
            {
                let n = found.pop().unwrap();
                rev.push(n);
            }
            rev
        } else {
            found
        }
    }
}

/// The node statement of an A* start: the board and its heuristic score.
pub open spec fn astar_start_line(h: Heuristic, b: Seq<u8>, t: Seq<u8>) -> Seq<char> {
    node_line(
        board_digits(b),
        board_text(b) + "\\n\\nh="@ + decimal(heuristic_value(h, b, t)),
        NodeColor::Blue,
        false,
    )
}

fn same_cells(a: &[u8; 9], b: &[u8; 9]) -> (r: bool)
    ensures
        r == (a@ == b@),
{
    let mut i: usize = 0;
    while i < 9
        invariant
            i <= 9,
            forall|k: int| 0 <= k < i ==> a@[k] == b@[k],
        decreases 9 - i,
    {
        if a[i] != b[i] {
            return false;
        }
        i = i + 1;
    }
    assert(a@ =~= b@);
    true
}

/// Two states are equal when their configurations are; history and children do not count.
impl PartialEq for EightPuzzleState {
    fn eq(&self, other: &EightPuzzleState) -> (r: bool) {
        same_cells(&self.board, &other.board)
    }
}

impl vstd::std_specs::cmp::PartialEqSpecImpl for EightPuzzleState {
    open spec fn obeys_eq_spec() -> bool {
        true
    }

    open spec fn eq_spec(&self, other: &EightPuzzleState) -> bool {
        self.board_view() == other.board_view()
    }
}

/// The label a search gives to a node for `c`, reached in `n` moves: the board, and under A*
/// also its score.
pub open spec fn node_label_for(c: Seq<u8>, t: Seq<u8>, n: nat, h: Option<Heuristic>) -> Seq<char> {
    match h {
        None => board_text(c),
        Some(h) => board_text(c) + "\\n\\nh="@ + decimal((n + heuristic_value(h, c, t)) as nat),
    }
}

/// `l` declares a configuration that `start` reaches by some `ms`, or the edge of an accepted
/// move between two configurations that `start` reaches.
#[verifier::opaque]
pub open spec fn tile_statement(
    start: Seq<u8>,
    target: Seq<u8>,
    h: Option<Heuristic>,
    l: Seq<char>,
) -> bool {
    ||| exists|ms: Seq<Move>|
        #[trigger] apply_moves(start, ms) is Some && l == node_line(
            board_digits(apply_moves(start, ms)->0),
            node_label_for(apply_moves(start, ms)->0, target, ms.len(), h),
            NodeColor::Blue,
            false,
        )
    ||| exists|ms: Seq<Move>|
        ms.len() > 0 && #[trigger] apply_moves(start, ms) is Some && l == edge_line(
            board_digits(apply_moves(start, ms.drop_last())->0),
            board_digits(apply_moves(start, ms)->0),
            move_name(ms.last()),
        )
}

/// Expanding a reached configuration `hb` by move `m` writes two statements that
/// `tile_statement` accepts: the node of the successor and the edge to it.
proof fn lemma_expansion_statements(
    start: Seq<u8>,
    goal: Seq<u8>,
    h: Option<Heuristic>,
    hh: Seq<Move>,
    hb: Seq<u8>,
    m: Move,
    nb: Seq<u8>,
)
    requires
        apply_moves(start, hh) == Some(hb),
        step(hb, m) == Some(nb),
    ensures
        tile_statement(
            start,
            goal,
            h,
            node_line(board_digits(nb), node_label_for(nb, goal, hh.len() + 1, h), NodeColor::Blue, false),
        ),
        tile_statement(start, goal, h, edge_line(board_digits(hb), board_digits(nb), move_name(m))),
{
    reveal(tile_statement);
    let ms = hh.push(m);
    lemma_apply_push(start, hh, m);
    assert(ms.drop_last() =~= hh);
    assert(apply_moves(start, ms) is Some);
}

/// `b` is one accepted move away from `a`.
pub open spec fn one_move(a: Seq<u8>, b: Seq<u8>) -> bool {
    exists|m: Move| step(a, m) == Some(b)
}

/// The accepted moves among the first `k` of `order`, in that order.
pub open spec fn legal_of_prefix(b: Seq<u8>, order: Seq<Move>, k: int) -> Seq<Move>
    decreases k,
{
    if k <= 0 {
        Seq::empty()
    } else if step(b, order[k - 1]) is Some {
        legal_of_prefix(b, order, k - 1).push(order[k - 1])
    } else {
        legal_of_prefix(b, order, k - 1)
    }
}


/// Canonical keys stay below this bound.
pub const KEY_BOUND: u64 = 0x10_0000_0000;

/// Path length of a state.
pub open spec fn depth(e: EightPuzzleState) -> int {
    e.history().len() as int
}

/// Some frontier entry has key `k`.
pub open spec fn has_key(f: Seq<EightPuzzleState>, k: u64) -> bool {
    exists|i: int| 0 <= i < f.len() && key_of(#[trigger] f[i].board_view()) == k
}

/// Configuration `c` was expanded or waits on the frontier.
pub open spec fn covered(v: Set<u64>, f: Seq<EightPuzzleState>, c: Seq<u8>) -> bool {
    v.contains(key_of(c)) || has_key(f, key_of(c))
}

/// `e` was reached from `start` by its own history and aims at `target`.
pub open spec fn entry_ok(e: EightPuzzleState, start: Seq<u8>, target: Seq<u8>) -> bool {
    &&& e.target_view() == target
    &&& is_board(e.board_view())
    &&& apply_moves(start, e.history()) == Some(e.board_view())
}

/// Every successor of `c` was expanded or waits on the frontier.
pub open spec fn successors_covered(v: Set<u64>, f: Seq<EightPuzzleState>, c: Seq<u8>) -> bool {
    forall|m: Move| (#[trigger] step(c, m)) is Some ==> covered(v, f, step(c, m)->0)
}

/// What a search hands back as a solution: the goal, reached from `start` by its history.
pub open spec fn is_solution(s: EightPuzzleState, start: Seq<u8>, target: Seq<u8>) -> bool {
    &&& s.board_view() == target
    &&& s.target_view() == target
    &&& apply_moves(start, s.history()) == Some(target)
}

/// No move sequence from `start` to `target` is shorter than `n`.
pub open spec fn no_shorter_path(start: Seq<u8>, target: Seq<u8>, n: nat) -> bool {
    forall|ms: Seq<Move>| #[trigger] apply_moves(start, ms) == Some(target) ==> n <= ms.len()
}

proof fn lemma_covered_push(v: Set<u64>, f: Seq<EightPuzzleState>, n: EightPuzzleState, c: Seq<u8>)
    ensures
        covered(v, f.push(n), c) == (covered(v, f, c) || key_of(c) == key_of(n.board_view())),
{
    let g = f.push(n);
    if has_key(f, key_of(c)) {
        let i = choose|i: int| 0 <= i < f.len() && key_of(#[trigger] f[i].board_view()) == key_of(c);
        assert(g[i] == f[i]);
    }
    if key_of(c) == key_of(n.board_view()) {
        assert(g[f.len() as int] == n);
    }
    if has_key(g, key_of(c)) {
        let i = choose|i: int| 0 <= i < g.len() && key_of(#[trigger] g[i].board_view()) == key_of(c);
        if i < f.len() {
            assert(f[i] == g[i]);
        }
    }
}

proof fn lemma_covered_pop(v: Set<u64>, f: Seq<EightPuzzleState>, c: Seq<u8>)
    requires
        f.len() > 0,
    ensures
        covered(v.insert(key_of(f[0].board_view())), f.remove(0), c) == covered(v, f, c),
{
    let g = f.remove(0);
    let w = v.insert(key_of(f[0].board_view()));
    if has_key(f, key_of(c)) {
        let i = choose|i: int| 0 <= i < f.len() && key_of(#[trigger] f[i].board_view()) == key_of(c);
        if i > 0 {
            assert(g[i - 1] == f[i]);
        }
    }
    if has_key(g, key_of(c)) {
        let i = choose|i: int| 0 <= i < g.len() && key_of(#[trigger] g[i].board_view()) == key_of(c);
        assert(f[i + 1] == g[i]);
    }
}

/// Once every entry is deeper than `level`, the configurations within `level + 1` moves are
/// all covered.
proof fn lemma_advance_level(
    start: Seq<u8>,
    target: Seq<u8>,
    v: Set<u64>,
    f: Seq<EightPuzzleState>,
    level: int,
)
    requires
        is_board(start),
        level >= 0,
        forall|i: int| 0 <= i < f.len() ==> entry_ok(#[trigger] f[i], start, target),
        forall|i: int| 0 <= i < f.len() ==> depth(#[trigger] f[i]) >= level + 1,
        forall|i: int|
            0 <= i < f.len() ==> !reachable_within(start, (#[trigger] f[i]).board_view(), depth(f[i]) - 1),
        forall|c: Seq<u8>| reachable_within(start, c, level) ==> #[trigger] covered(v, f, c),
        forall|c: Seq<u8>|
            is_board(c) && v.contains(key_of(c)) ==> #[trigger] successors_covered(v, f, c),
    ensures
        forall|c: Seq<u8>| reachable_within(start, c, level + 1) ==> #[trigger] covered(v, f, c),
{
    assert forall|c: Seq<u8>| reachable_within(start, c, level + 1) implies #[trigger] covered(
        v,
        f,
        c,
    ) by {
        let ms = choose|ms: Seq<Move>| ms.len() <= level + 1 && #[trigger] apply_moves(start, ms) == Some(c);
        if ms.len() <= level {
            assert(reachable_within(start, c, level));
        } else {
            let pre = ms.drop_last();
            let p = apply_moves(start, pre)->0;
            assert(apply_moves(start, pre) == Some(p));
            assert(reachable_within(start, p, level));
            lemma_apply_moves_board(start, pre);
            assert(covered(v, f, p));
            if v.contains(key_of(p)) {
                assert(successors_covered(v, f, p));
                assert(step(p, ms.last()) == Some(c));
            } else {
                let i = choose|i: int| 0 <= i < f.len() && key_of(#[trigger] f[i].board_view()) == key_of(p);
                assert(entry_ok(f[i], start, target));
                if f[i].board_view() != p {
                    lemma_key_injective(f[i].board_view(), p);
                }
                assert(depth(f[i]) >= level + 1);
                assert(apply_moves(start, pre) == Some(f[i].board_view()));
                assert(reachable_within(start, f[i].board_view(), depth(f[i]) - 1));
            }
        }
    }
}

/// With an empty frontier and every expanded configuration closed under moves, whatever the
/// start reaches was expanded.
proof fn lemma_closed_reach(start: Seq<u8>, v: Set<u64>, f: Seq<EightPuzzleState>, ms: Seq<Move>)
    requires
        f.len() == 0,
        is_board(start),
        covered(v, f, start),
        forall|c: Seq<u8>|
            is_board(c) && v.contains(key_of(c)) ==> #[trigger] successors_covered(v, f, c),
    ensures
        apply_moves(start, ms) matches Some(c) ==> v.contains(key_of(c)),
    decreases ms.len(),
{
    if ms.len() > 0 {
        let pre = ms.drop_last();
        lemma_closed_reach(start, v, f, pre);
        lemma_apply_moves_board(start, pre);
        if let Some(p) = apply_moves(start, pre) {
            assert(successors_covered(v, f, p));
            if let Some(c) = step(p, ms.last()) {
                assert(covered(v, f, c));
            }
        }
    }
}

/// Takes the front entry of `queue` for expansion and marks its key visited. No waiting entry
/// has a visited key, so a key already in `visited` is never expanded again.
pub fn take_front(queue: &mut Vec<EightPuzzleState>, visited: &mut HashSet<u64>) -> (r:
    EightPuzzleState)
    requires
        old(queue)@.len() > 0,
        forall|i: int|
            0 <= i < old(queue)@.len() ==> !old(visited)@.contains(
                key_of((#[trigger] old(queue)@[i]).board_view()),
            ),
    ensures
        r == old(queue)@[0],
        final(queue)@ == old(queue)@.remove(0),
        !old(visited)@.contains(key_of(r.board_view())),
        final(visited)@ == old(visited)@.insert(key_of(r.board_view())),
{
    let r = queue.remove(0);
    let k = r.int_repr();
    visited.insert(k);
    r
}

fn frontier_has_key(f: &Vec<EightPuzzleState>, k: u64) -> (r: bool)
    ensures
        r == has_key(f@, k),
{
    let mut i: usize = 0;
    while i < f.len()
        invariant
            i <= f@.len(),
            forall|j: int| 0 <= j < i ==> key_of(#[trigger] f@[j].board_view()) != k,
        decreases f@.len() - i,
    {
        if f[i].int_repr() == k {
            return true;
        }
        i = i + 1;
    }
    false
}

/// The text of the edge label for the last move of `n`.
fn last_move_label(n: &EightPuzzleState) -> (r: String)
    requires
        n.history().len() > 0,
    ensures
        r@ == move_name(n.history().last()),
{
    let mut s = String::new();
    match n.last_move() {
        Some(m) => push_move_name(&mut s, m),
        None => {},
    }
    s
}

impl EightPuzzleState {
    /// Breadth-first search from `state` to `target`: the snapshots of the search graph (empty
    /// graphs unless `visualize`) and a shortest solution, if the target can be reached.
    pub fn build_tree_breadth_first(visualize: bool, state: [u8; 9], target: [u8; 9]) -> (r: (
        Vec<String>,
        Option<EightPuzzleState>,
    ))
        requires
            is_board(state@),
            is_board(target@),
        ensures
            r.0@.len() >= 1,
            is_cumulative(r.0@),
            forall|i: int| 0 <= i < r.0@.len() ==> is_graph(#[trigger] r.0@[i]@),
            statements_ok(r.0@, |l: Seq<char>| tile_statement(state@, target@, None, l)),
            visualize ==> r.0@[0]@ == graph_text(node_line(board_digits(state@), board_text(state@), NodeColor::Blue, false)),
            !visualize ==> r.0@.len() == 1 && r.0@[0]@ == graph_text(Seq::<char>::empty()),
            r.1 is Some <==> reachable(state@, target@),
            r.1 matches Some(s) ==> is_solution(s, state@, target@),
            r.1 matches Some(s) ==> no_shorter_path(state@, target@, s.history().len()),
    {
        let ghost start = state@;
        let ghost goal = target@;
        let mut trace = Trace::new(visualize);
        let game = EightPuzzleState::new(state, target);
        trace.add_node(&game.repr(), &game.to_string(), NodeColor::Blue, false);
        trace.snapshot();
        proof {
            assert(apply_moves(start, Seq::<Move>::empty()) == Some(start));
            reveal(tile_statement);
            assert(tile_statement(start, goal, None, node_line(board_digits(start), node_label_for(start, goal, 0, None), NodeColor::Blue, false)));
        }
        let ghost first = node_line(board_digits(state@), board_text(state@), NodeColor::Blue, false);
        assert(opens_with(trace, visualize, first));
        if game.is_game_complete() {
            return (trace.graphs(), Some(game));
        }
        let mut queue: Vec<EightPuzzleState> = Vec::new();
        let mut visited: HashSet<u64> = HashSet::new();
        queue.push(game);
        let ghost mut level: int = 0;
        proof {
            assert(apply_moves(start, Seq::<Move>::empty()) == Some(start));
            assert(key_of(queue@[0].board_view()) == key_of(start));
            lemma_key_injective(start, goal);
            assert forall|c: Seq<u8>| reachable_within(start, c, 0) implies #[trigger] covered(
                visited@,
                queue@,
                c,
            ) by {
                let ms = choose|ms: Seq<Move>| ms.len() <= 0 && #[trigger] apply_moves(start, ms) == Some(c);
                assert(ms =~= Seq::<Move>::empty());
                assert(key_of(queue@[0].board_view()) == key_of(c));
            }
        }
        while queue.len() > 0
            invariant
                start == state@,
                goal == target@,
                is_board(start),
                is_board(goal),
                trace.wf(),
                opens_with(trace, visualize, first),
                forall|i: int|
                    0 <= i < trace.lines().len() ==> tile_statement(start, goal, None,
                        #[trigger] trace.lines()[i],
                    ),
                first == node_line(board_digits(state@), board_text(state@), NodeColor::Blue, false),
                level >= 0,
                forall|i: int| 0 <= i < queue@.len() ==> entry_ok(#[trigger] queue@[i], start, goal),
                forall|i: int|
                    0 <= i < queue@.len() ==> !visited@.contains(
                        key_of((#[trigger] queue@[i]).board_view()),
                    ),
                forall|i: int, j: int|
                    0 <= i < j < queue@.len() ==> key_of((#[trigger] queue@[i]).board_view())
                        != key_of((#[trigger] queue@[j]).board_view()),
                forall|i: int|
                    0 <= i < queue@.len() ==> level <= depth(#[trigger] queue@[i]) <= level + 1,
                forall|i: int, j: int|
                    0 <= i < j < queue@.len() ==> depth(#[trigger] queue@[i]) <= depth(
                        #[trigger] queue@[j],
                    ),
                forall|c: Seq<u8>|
                    reachable_within(start, c, level) ==> #[trigger] covered(visited@, queue@, c),
                forall|i: int|
                    0 <= i < queue@.len() ==> !reachable_within(
                        start,
                        (#[trigger] queue@[i]).board_view(),
                        depth(queue@[i]) - 1,
                    ),
                forall|c: Seq<u8>|
                    is_board(c) && visited@.contains(key_of(c)) ==> #[trigger] successors_covered(
                        visited@,
                        queue@,
                        c,
                    ),
                !covered(visited@, queue@, goal),
                covered(visited@, queue@, start),
                visited@.finite(),
                forall|k: u64| visited@.contains(k) ==> k < KEY_BOUND,
                forall|i: int| 0 <= i < queue@.len() ==> depth(#[trigger] queue@[i]) <= visited@.len(),
            decreases KEY_BOUND - visited@.len(),
        {
            proof {
                lemma_visited_bound(visited@, KEY_BOUND);
                if depth(queue@[0]) == level + 1 {
                    lemma_advance_level(start, goal, visited@, queue@, level);
                    level = level + 1;
                }
            }
            let ghost old_v = visited@;
            let ghost old_q = queue@;
            let mut current = take_front(&mut queue, &mut visited);
            let key = current.int_repr();
            proof {
                assert(entry_ok(old_q[0], start, goal));
                lemma_key_bound(current.board_view());
                lemma_visited_bound(visited@, KEY_BOUND);
                assert(old_q.remove(0) =~= queue@);
                assert forall|c: Seq<u8>| #[trigger] covered(visited@, queue@, c) == covered(old_v, old_q, c) by {
                    lemma_covered_pop(old_v, old_q, c);
                }
                assert forall|i: int| 0 <= i < queue@.len() implies !visited@.contains(
                    key_of((#[trigger] queue@[i]).board_view()),
                ) by {
                    assert(queue@[i] == old_q[i + 1]);
                }
                assert forall|c: Seq<u8>|
                    is_board(c) && visited@.contains(key_of(c)) && key_of(c) != key
                        implies #[trigger] successors_covered(visited@, queue@, c) by {
                    assert(successors_covered(old_v, old_q, c));
                }
            }
            let ghost hb = current.board_view();
            let ghost hh = current.history();
            let current_id = current.repr();
            let neighbours = current.discover_neighbours(false);
            let ghost nm = neighbour_moves(hb, false);
            let mut j: usize = 0;
            while j < neighbours.len()
                invariant
                    start == state@,
                    goal == target@,
                    is_board(start),
                    is_board(goal),
                    is_board(hb),
                    trace.wf(),
                    opens_with(trace, visualize, first),
                    forall|i: int|
                        0 <= i < trace.lines().len() ==> tile_statement(start, goal, None,
                            #[trigger] trace.lines()[i],
                        ),
                    first == node_line(board_digits(state@), board_text(state@), NodeColor::Blue, false),
                    level >= 0,
                    apply_moves(start, hh) == Some(hb),
                    current_id@ == board_digits(hb),
                    hh.len() == level,
                    key == key_of(hb),
                    visited@.contains(key),
                    level + 1 <= visited@.len(),
                    nm == legal_moves(hb),
                    neighbours@.len() == nm.len(),
                    forall|i: int|
                        0 <= i < neighbours@.len() ==> {
                            let m = #[trigger] nm[i];
                            &&& neighbours@[i].board_view() == step(hb, m)->0
                            &&& neighbours@[i].history() == hh.push(m)
                            &&& neighbours@[i].target_view() == goal
                        },
                    forall|i: int| 0 <= i < queue@.len() ==> entry_ok(#[trigger] queue@[i], start, goal),
                    forall|i: int|
                        0 <= i < queue@.len() ==> !visited@.contains(
                            key_of((#[trigger] queue@[i]).board_view()),
                        ),
                    forall|i: int, j: int|
                        0 <= i < j < queue@.len() ==> key_of((#[trigger] queue@[i]).board_view())
                            != key_of((#[trigger] queue@[j]).board_view()),
                    forall|i: int|
                        0 <= i < queue@.len() ==> level <= depth(#[trigger] queue@[i]) <= level + 1,
                    forall|i: int, j: int|
                        0 <= i < j < queue@.len() ==> depth(#[trigger] queue@[i]) <= depth(
                            #[trigger] queue@[j],
                        ),
                    forall|c: Seq<u8>|
                        reachable_within(start, c, level) ==> #[trigger] covered(visited@, queue@, c),
                    forall|i: int|
                        0 <= i < queue@.len() ==> !reachable_within(
                            start,
                            (#[trigger] queue@[i]).board_view(),
                            depth(queue@[i]) - 1,
                        ),
                    forall|c: Seq<u8>|
                        is_board(c) && visited@.contains(key_of(c)) && key_of(c) != key
                            ==> #[trigger] successors_covered(visited@, queue@, c),
                    forall|i: int|
                        0 <= i < j ==> covered(visited@, queue@, (#[trigger] neighbours@[i]).board_view()),
                    j <= neighbours@.len(),
                    !covered(visited@, queue@, goal),
                    covered(visited@, queue@, start),
                    visited@.finite(),
                    forall|k: u64| visited@.contains(k) ==> k < KEY_BOUND,
                    forall|i: int| 0 <= i < queue@.len() ==> depth(#[trigger] queue@[i]) <= visited@.len(),
                decreases neighbours@.len() - j,
            {
                let ghost m = nm[j as int];
                proof {
                    lemma_legal_moves_sound(hb, j as int);
                    lemma_step_board(hb, m);
                    lemma_apply_push(start, hh, m);
                }
                let nk = neighbours[j].int_repr();
                if visited.contains(&nk) || frontier_has_key(&queue, nk) {
                    trace.snapshot();
                } else {
                    let n = neighbours[j].leaf_copy();
                    let ghost nb = n.board_view();
                    proof {
                        assert(neighbours@[j as int].board_view() == step(hb, m)->0);
                        assert(n.history() == hh.push(m));
                        assert(apply_moves(start, n.history()) == Some(nb));
                        assert(n.target_view() == goal);
                        assert(!covered(visited@, queue@, nb));
                        assert(!reachable_within(start, nb, level));
                    }
                    let is_goal = n.is_game_complete();
                    let ghost lines0 = trace.lines();
                    trace.add_node(&n.repr(), &n.to_string(), NodeColor::Blue, false);
                    let label = last_move_label(&n);
                    trace.add_edge(&current_id, &n.repr(), label.as_str());
                    proof {
                        lemma_expansion_statements(start, goal, None, hh, hb, m, n.board_view());
                        assert(n.history().last() == m);
                        let l1 = node_line(board_digits(n.board_view()), node_label_for(n.board_view(), goal, hh.len() + 1, None), NodeColor::Blue, false);
                        let l2 = edge_line(board_digits(hb), board_digits(n.board_view()), move_name(m));
                        if visualize {
                            assert(trace.lines() == lines0.push(l1).push(l2));
                        }
                        assert forall|i: int| 0 <= i < trace.lines().len() implies tile_statement(start, goal, None, #[trigger] trace.lines()[i]) by {
                            if i < lines0.len() {
                                assert(trace.lines()[i] == lines0[i]);
                            }
                        }
                    }
                    trace.snapshot();
                    if is_goal {
                        proof {
                            assert forall|ms: Seq<Move>| #[trigger] apply_moves(start, ms) == Some(goal)
                                implies n.history().len() <= ms.len() by {
                                if ms.len() <= level {
                                    assert(reachable_within(start, goal, level));
                                }
                            }
                            assert(reachable(start, goal)) by {
                                assert(apply_moves(start, n.history()) == Some(goal));
                            }
                        }
                        assert(opens_with(trace, visualize, first));
                        return (trace.graphs(), Some(n));
                    }
                    let ghost old_q2 = queue@;
                    queue.push(n);
                    proof {
                        lemma_key_bound(nb);
                        assert forall|c: Seq<u8>| #[trigger] covered(visited@, queue@, c) == (covered(
                            visited@,
                            old_q2,
                            c,
                        ) || key_of(c) == key_of(nb)) by {
                            lemma_covered_push(visited@, old_q2, n, c);
                        }
                        if key_of(goal) == key_of(nb) {
                            lemma_key_injective(goal, nb);
                        }
                        assert(queue@[old_q2.len() as int] == n);
                        assert forall|i: int| 0 <= i < queue@.len() implies !reachable_within(
                            start,
                            (#[trigger] queue@[i]).board_view(),
                            depth(queue@[i]) - 1,
                        ) by {
                            if i < old_q2.len() {
                                assert(queue@[i] == old_q2[i]);
                            }
                        }
                        assert forall|i: int, k: int| 0 <= i < k < queue@.len() implies key_of(
                            (#[trigger] queue@[i]).board_view(),
                        ) != key_of((#[trigger] queue@[k]).board_view()) by {
                            if k == old_q2.len() {
                                assert(queue@[i] == old_q2[i]);
                                assert(key_of(old_q2[i].board_view()) != nk);
                            }
                        }
                        assert forall|c: Seq<u8>|
                            is_board(c) && visited@.contains(key_of(c)) && key_of(c) != key
                                implies #[trigger] successors_covered(visited@, queue@, c) by {
                            assert(successors_covered(visited@, old_q2, c));
                        }
                    }
                }
                j = j + 1;
            }
            proof {
                assert forall|c: Seq<u8>|
                    is_board(c) && visited@.contains(key_of(c)) implies #[trigger] successors_covered(
                    visited@,
                    queue@,
                    c,
                ) by {
                    if key_of(c) == key {
                        if c != hb {
                            lemma_key_injective(c, hb);
                        }
                        assert forall|m: Move| (#[trigger] step(c, m)) is Some implies covered(
                            visited@,
                            queue@,
                            step(c, m)->0,
                        ) by {
                            lemma_legal_moves_complete(c, m);
                            let i = choose|i: int| 0 <= i < nm.len() && nm[i] == m;
                            assert(covered(visited@, queue@, neighbours@[i].board_view()));
                        }
                    }
                }
            }
        }
        proof {
            assert forall|ms: Seq<Move>| #[trigger] apply_moves(start, ms) != Some(goal) by {
                lemma_closed_reach(start, visited@, queue@, ms);
            }
        }
        (trace.graphs(), None)
    }
}


proof fn lemma_covered_insert(
    v: Set<u64>,
    f: Seq<EightPuzzleState>,
    pos: int,
    n: EightPuzzleState,
    c: Seq<u8>,
)
    requires
        0 <= pos <= f.len(),
    ensures
        covered(v, f.insert(pos, n), c) == (covered(v, f, c) || key_of(c) == key_of(n.board_view())),
{
    let g = f.insert(pos, n);
    if has_key(f, key_of(c)) {
        let i = choose|i: int| 0 <= i < f.len() && key_of(#[trigger] f[i].board_view()) == key_of(c);
        if i < pos {
            assert(g[i] == f[i]);
        } else {
            assert(g[i + 1] == f[i]);
        }
    }
    if key_of(c) == key_of(n.board_view()) {
        assert(g[pos] == n);
    }
    if has_key(g, key_of(c)) {
        let i = choose|i: int| 0 <= i < g.len() && key_of(#[trigger] g[i].board_view()) == key_of(c);
        if i < pos {
            assert(f[i] == g[i]);
        } else if i > pos {
            assert(f[i - 1] == g[i]);
        }
    }
}

impl EightPuzzleState {
    /// The heuristic estimate of the moves left to the goal.
    pub fn heuristic_score(&self, heuristic: Heuristic) -> (r: usize)
        requires
            is_board(self.board_view()),
            is_board(self.target_view()),
        ensures
            r == heuristic_value(heuristic, self.board_view(), self.target_view()),
            r <= 32,
    {
        match heuristic {
            Heuristic::MisplacedTiles => self.misplaced_tiles(),
            Heuristic::Manhattan => self.manhattan_distance(),
        }
    }

    /// The A* score: moves played so far plus the heuristic estimate.
    pub fn astar_evaluation(&self, heuristic: Heuristic) -> (r: u64)
        requires
            is_board(self.board_view()),
            is_board(self.target_view()),
            self.history().len() + 32 <= u64::MAX,
        ensures
            r == self.history().len() + heuristic_value(
                heuristic,
                self.board_view(),
                self.target_view(),
            ),
    {
        self.move_history.len() as u64 + self.heuristic_score(heuristic) as u64
    }

    /// The node label used by A*: the board and its score.
    fn scored_label(&self, heuristic: Heuristic) -> (r: String)
        requires
            is_board(self.board_view()),
            is_board(self.target_view()),
            self.history().len() + 32 <= u64::MAX,
        ensures
            r@ == board_text(self.board_view()) + "\\n\\nh="@ + decimal(
                (self.history().len() + heuristic_value(
                    heuristic,
                    self.board_view(),
                    self.target_view(),
                )) as nat,
            ),
    {
        let mut s = self.to_string();
        s.append("\\n\\nh=");
        push_decimal(&mut s, self.astar_evaluation(heuristic));
        s
    }
}

/// The first index whose entry scores above `score`: inserting there keeps entries of equal
/// score in arrival order.
fn insertion_index(queue: &Vec<EightPuzzleState>, score: u64, heuristic: Heuristic) -> (r: usize)
    requires
        forall|i: int|
            0 <= i < queue@.len() ==> {
                &&& is_board((#[trigger] queue@[i]).board_view())
                &&& is_board(queue@[i].target_view())
                &&& queue@[i].history().len() + 32 <= u64::MAX
            },
    ensures
        r <= queue@.len(),
        forall|i: int|
            0 <= i < r ==> (#[trigger] queue@[i]).history().len() + heuristic_value(
                heuristic,
                queue@[i].board_view(),
                queue@[i].target_view(),
            ) <= score,
        r < queue@.len() ==> queue@[r as int].history().len() + heuristic_value(
            heuristic,
            queue@[r as int].board_view(),
            queue@[r as int].target_view(),
        ) > score,
{
    let mut i: usize = 0;
    while i < queue.len()
        invariant
            i <= queue@.len(),
            forall|k: int|
                0 <= k < queue@.len() ==> {
                    &&& is_board((#[trigger] queue@[k]).board_view())
                    &&& is_board(queue@[k].target_view())
                    &&& queue@[k].history().len() + 32 <= u64::MAX
                },
            forall|k: int|
                0 <= k < i ==> (#[trigger] queue@[k]).history().len() + heuristic_value(
                    heuristic,
                    queue@[k].board_view(),
                    queue@[k].target_view(),
                ) <= score,
        decreases queue@.len() - i,
    {
        if queue[i].astar_evaluation(heuristic) > score {
            return i;
        }
        i = i + 1;
    }
    i
}

impl EightPuzzleState {
    /// A* search from `state` to `target`: the frontier is kept ordered by moves played plus
    /// the heuristic, equal scores in arrival order, and the search stops as soon as a
    /// successor is the goal.
    #[verifier::rlimit(40)]
    pub fn astar_search(
        visualize: bool,
        heuristic: Heuristic,
        state: [u8; 9],
        target: [u8; 9],
    ) -> (r: (Vec<String>, Option<EightPuzzleState>))
        requires
            is_board(state@),
            is_board(target@),
        ensures
            r.0@.len() >= 1,
            is_cumulative(r.0@),
            forall|i: int| 0 <= i < r.0@.len() ==> is_graph(#[trigger] r.0@[i]@),
            statements_ok(r.0@, |l: Seq<char>| tile_statement(state@, target@, Some(heuristic), l)),
            visualize ==> r.0@[0]@ == graph_text(astar_start_line(heuristic, state@, target@)),
            !visualize ==> r.0@.len() == 1 && r.0@[0]@ == graph_text(Seq::<char>::empty()),
            r.1 is Some <==> reachable(state@, target@),
            r.1 matches Some(s) ==> is_solution(s, state@, target@),
    {
        let ghost start = state@;
        let ghost goal = target@;
        let mut trace = Trace::new(visualize);
        let game = EightPuzzleState::new(state, target);
        trace.add_node(&game.repr(), &game.scored_label(heuristic), NodeColor::Blue, false);
        trace.snapshot();
        proof {
            assert(apply_moves(start, Seq::<Move>::empty()) == Some(start));
            reveal(tile_statement);
            assert(tile_statement(start, goal, Some(heuristic), node_line(board_digits(start), node_label_for(start, goal, 0, Some(heuristic)), NodeColor::Blue, false)));
        }
        let ghost first = astar_start_line(heuristic, state@, target@);
        assert(opens_with(trace, visualize, first));
        if game.is_game_complete() {
            return (trace.graphs(), Some(game));
        }
        let mut queue: Vec<EightPuzzleState> = Vec::new();
        let mut visited: HashSet<u64> = HashSet::new();
        queue.push(game);
        proof {
            assert(apply_moves(start, Seq::<Move>::empty()) == Some(start));
            assert(key_of(queue@[0].board_view()) == key_of(start));
            lemma_key_injective(start, goal);
        }
        while queue.len() > 0
            invariant
                start == state@,
                goal == target@,
                is_board(start),
                is_board(goal),
                trace.wf(),
                opens_with(trace, visualize, first),
                forall|i: int|
                    0 <= i < trace.lines().len() ==> tile_statement(start, goal, Some(heuristic),
                        #[trigger] trace.lines()[i],
                    ),
                first == astar_start_line(heuristic, state@, target@),
                forall|i: int| 0 <= i < queue@.len() ==> entry_ok(#[trigger] queue@[i], start, goal),
                forall|i: int|
                    0 <= i < queue@.len() ==> !visited@.contains(
                        key_of((#[trigger] queue@[i]).board_view()),
                    ),
                forall|i: int, j: int|
                    0 <= i < j < queue@.len() ==> key_of((#[trigger] queue@[i]).board_view())
                        != key_of((#[trigger] queue@[j]).board_view()),
                forall|c: Seq<u8>|
                    is_board(c) && visited@.contains(key_of(c)) ==> #[trigger] successors_covered(
                        visited@,
                        queue@,
                        c,
                    ),
                !covered(visited@, queue@, goal),
                covered(visited@, queue@, start),
                visited@.finite(),
                forall|k: u64| visited@.contains(k) ==> k < KEY_BOUND,
                forall|i: int| 0 <= i < queue@.len() ==> depth(#[trigger] queue@[i]) <= visited@.len(),
            decreases KEY_BOUND - visited@.len(),
        {
            proof {
                lemma_visited_bound(visited@, KEY_BOUND);
            }
            let ghost old_v = visited@;
            let ghost old_q = queue@;
            let mut current = take_front(&mut queue, &mut visited);
            let key = current.int_repr();
            proof {
                assert(entry_ok(old_q[0], start, goal));
                lemma_key_bound(current.board_view());
                lemma_visited_bound(visited@, KEY_BOUND);
                assert(old_q.remove(0) =~= queue@);
                assert forall|c: Seq<u8>| #[trigger] covered(visited@, queue@, c) == covered(old_v, old_q, c) by {
                    lemma_covered_pop(old_v, old_q, c);
                }
                assert forall|i: int| 0 <= i < queue@.len() implies !visited@.contains(
                    key_of((#[trigger] queue@[i]).board_view()),
                ) by {
                    assert(queue@[i] == old_q[i + 1]);
                }
                assert forall|c: Seq<u8>|
                    is_board(c) && visited@.contains(key_of(c)) && key_of(c) != key
                        implies #[trigger] successors_covered(visited@, queue@, c) by {
                    assert(successors_covered(old_v, old_q, c));
                }
            }
            let ghost hb = current.board_view();
            let ghost hh = current.history();
            let current_id = current.repr();
            let neighbours = current.discover_neighbours(false);
            let ghost nm = neighbour_moves(hb, false);
            let mut j: usize = 0;
            while j < neighbours.len()
                invariant
                    start == state@,
                    goal == target@,
                    is_board(start),
                    is_board(goal),
                    is_board(hb),
                    trace.wf(),
                    opens_with(trace, visualize, first),
                    forall|i: int|
                        0 <= i < trace.lines().len() ==> tile_statement(start, goal, Some(heuristic),
                            #[trigger] trace.lines()[i],
                        ),
                    first == astar_start_line(heuristic, state@, target@),
                    apply_moves(start, hh) == Some(hb),
                    current_id@ == board_digits(hb),
                    key == key_of(hb),
                    visited@.contains(key),
                    hh.len() + 1 <= visited@.len(),
                    nm == legal_moves(hb),
                    neighbours@.len() == nm.len(),
                    forall|i: int|
                        0 <= i < neighbours@.len() ==> {
                            let m = #[trigger] nm[i];
                            &&& neighbours@[i].board_view() == step(hb, m)->0
                            &&& neighbours@[i].history() == hh.push(m)
                            &&& neighbours@[i].target_view() == goal
                        },
                    forall|i: int| 0 <= i < queue@.len() ==> entry_ok(#[trigger] queue@[i], start, goal),
                    forall|i: int|
                        0 <= i < queue@.len() ==> !visited@.contains(
                            key_of((#[trigger] queue@[i]).board_view()),
                        ),
                    forall|i: int, j: int|
                        0 <= i < j < queue@.len() ==> key_of((#[trigger] queue@[i]).board_view())
                            != key_of((#[trigger] queue@[j]).board_view()),
                    forall|c: Seq<u8>|
                        is_board(c) && visited@.contains(key_of(c)) && key_of(c) != key
                            ==> #[trigger] successors_covered(visited@, queue@, c),
                    forall|i: int|
                        0 <= i < j ==> covered(visited@, queue@, (#[trigger] neighbours@[i]).board_view()),
                    j <= neighbours@.len(),
                    !covered(visited@, queue@, goal),
                    covered(visited@, queue@, start),
                    visited@.finite(),
                    visited@.len() <= KEY_BOUND,
                    forall|k: u64| visited@.contains(k) ==> k < KEY_BOUND,
                    forall|i: int| 0 <= i < queue@.len() ==> depth(#[trigger] queue@[i]) <= visited@.len(),
                decreases neighbours@.len() - j,
            {
                let ghost m = nm[j as int];
                proof {
                    lemma_legal_moves_sound(hb, j as int);
                    lemma_step_board(hb, m);
                    lemma_apply_push(start, hh, m);
                }
                let nk = neighbours[j].int_repr();
                if visited.contains(&nk) || frontier_has_key(&queue, nk) {
                    trace.snapshot();
                } else {
                    let n = neighbours[j].leaf_copy();
                    let ghost nb = n.board_view();
                    proof {
                        assert(neighbours@[j as int].board_view() == step(hb, m)->0);
                        assert(n.history() == hh.push(m));
                        assert(apply_moves(start, n.history()) == Some(nb));
                        assert(n.target_view() == goal);
                        assert(!covered(visited@, queue@, nb));
                    }
                    let is_goal = n.is_game_complete();
                    let ghost lines0 = trace.lines();
                    trace.add_node(&n.repr(), &n.scored_label(heuristic), NodeColor::Blue, false);
                    let label = last_move_label(&n);
                    trace.add_edge(&current_id, &n.repr(), label.as_str());
                    proof {
                        lemma_expansion_statements(start, goal, Some(heuristic), hh, hb, m, n.board_view());
                        assert(n.history().last() == m);
                        let l1 = node_line(board_digits(n.board_view()), node_label_for(n.board_view(), goal, hh.len() + 1, Some(heuristic)), NodeColor::Blue, false);
                        let l2 = edge_line(board_digits(hb), board_digits(n.board_view()), move_name(m));
                        if visualize {
                            assert(trace.lines() == lines0.push(l1).push(l2));
                        }
                        assert forall|i: int| 0 <= i < trace.lines().len() implies tile_statement(start, goal, Some(heuristic), #[trigger] trace.lines()[i]) by {
                            if i < lines0.len() {
                                assert(trace.lines()[i] == lines0[i]);
                            }
                        }
                    }
                    trace.snapshot();
                    if is_goal {
                        proof {
                            assert(reachable(start, goal)) by {
                                assert(apply_moves(start, n.history()) == Some(goal));
                            }
                        }
                        assert(opens_with(trace, visualize, first));
                        return (trace.graphs(), Some(n));
                    }
                    proof {
                        assert forall|i: int|
                            0 <= i < queue@.len() implies #[trigger] queue@[i].history().len() + 32
                            <= u64::MAX by {
                            assert(depth(queue@[i]) <= visited@.len());
                            assert(entry_ok(queue@[i], start, goal));
                        }
                    }
                    let score = n.astar_evaluation(heuristic);
                    let pos = insertion_index(&queue, score, heuristic);
                    let ghost old_q2 = queue@;
                    queue.insert(pos, n);
                    proof {
                        lemma_key_bound(nb);
                        let p = pos as int;
                        assert forall|c: Seq<u8>| #[trigger] covered(visited@, queue@, c) == (covered(
                            visited@,
                            old_q2,
                            c,
                        ) || key_of(c) == key_of(nb)) by {
                            lemma_covered_insert(visited@, old_q2, p, n, c);
                        }
                        if key_of(goal) == key_of(nb) {
                            lemma_key_injective(goal, nb);
                        }
                        assert(queue@[p] == n);
                        assert forall|i: int| 0 <= i < queue@.len() implies entry_ok(
                            #[trigger] queue@[i],
                            start,
                            goal,
                        ) && !visited@.contains(key_of(queue@[i].board_view())) && depth(queue@[i])
                            <= visited@.len() && (i != p ==> key_of(queue@[i].board_view()) != nk) by {
                            if i < p {
                                assert(queue@[i] == old_q2[i]);
                            } else if i > p {
                                assert(queue@[i] == old_q2[i - 1]);
                            }
                        }
                        assert forall|i: int, k: int| 0 <= i < k < queue@.len() implies key_of(
                            (#[trigger] queue@[i]).board_view(),
                        ) != key_of((#[trigger] queue@[k]).board_view()) by {
                            if i != p && k != p {
                                let i0 = if i < p { i } else { i - 1 };
                                let k0 = if k < p { k } else { k - 1 };
                                assert(queue@[i] == old_q2[i0]);
                                assert(queue@[k] == old_q2[k0]);
                            }
                        }
                        assert forall|c: Seq<u8>|
                            is_board(c) && visited@.contains(key_of(c)) && key_of(c) != key
                                implies #[trigger] successors_covered(visited@, queue@, c) by {
                            assert(successors_covered(visited@, old_q2, c));
                        }
                    }
                }
                j = j + 1;
            }
            proof {
                assert forall|c: Seq<u8>|
                    is_board(c) && visited@.contains(key_of(c)) implies #[trigger] successors_covered(
                    visited@,
                    queue@,
                    c,
                ) by {
                    if key_of(c) == key {
                        if c != hb {
                            lemma_key_injective(c, hb);
                        }
                        assert forall|m: Move| (#[trigger] step(c, m)) is Some implies covered(
                            visited@,
                            queue@,
                            step(c, m)->0,
                        ) by {
                            lemma_legal_moves_complete(c, m);
                            let i = choose|i: int| 0 <= i < nm.len() && nm[i] == m;
                            assert(covered(visited@, queue@, neighbours@[i].board_view()));
                        }
                    }
                }
            }
        }
        proof {
            assert forall|ms: Seq<Move>| #[trigger] apply_moves(start, ms) != Some(goal) by {
                lemma_closed_reach(start, visited@, queue@, ms);
            }
        }
        (trace.graphs(), None)
    }
}


/// Takes entries off the top of `stack` until one is found that is within `limit` moves and
/// whose key is not yet in `visited`; marks that key visited and hands the entry out. Entries
/// taken off on the way are dropped. A key already in `visited` is thus never handed out again.
pub fn next_unexpanded(
    stack: &mut Vec<EightPuzzleState>,
    visited: &mut HashSet<u64>,
    limit: usize,
) -> (r: Option<EightPuzzleState>)
    ensures
        final(stack)@.len() <= old(stack)@.len(),
        final(stack)@ == old(stack)@.subrange(0, final(stack)@.len() as int),
        forall|i: int|
            final(stack)@.len() + (if r is Some { 1int } else { 0int }) <= i < old(stack)@.len()
                ==> (#[trigger] old(stack)@[i]).history().len() > limit || old(visited)@.contains(
                key_of(old(stack)@[i].board_view()),
            ),
        r is None ==> final(stack)@.len() == 0 && final(visited)@ == old(visited)@,
        r matches Some(e) ==> {
            &&& final(stack)@.len() < old(stack)@.len()
            &&& e == old(stack)@[final(stack)@.len() as int]
            &&& e.history().len() <= limit
            &&& !old(visited)@.contains(key_of(e.board_view()))
            &&& final(visited)@ == old(visited)@.insert(key_of(e.board_view()))
        },
{
    while stack.len() > 0
        invariant
            stack@.len() <= old(stack)@.len(),
            stack@ == old(stack)@.subrange(0, stack@.len() as int),
            *visited == *old(visited),
            forall|i: int|
                stack@.len() <= i < old(stack)@.len() ==> (#[trigger] old(stack)@[i]).history().len()
                    > limit || old(visited)@.contains(key_of(old(stack)@[i].board_view())),
        decreases stack@.len(),
    {
        let e = stack.pop().unwrap();
        assert(e == old(stack)@[stack@.len() as int]);
        if e.move_history.len() <= limit {
            let k = e.int_repr();
            if !visited.contains(&k) {
                visited.insert(k);
                return Some(e);
            }
        }
    }
    None
}

impl EightPuzzleState {
    /// Depth-limited depth-first search from `state` to `target`: the most recently found
    /// state is expanded first, entries more than `limit` moves deep are dropped unexpanded,
    /// and a configuration is expanded at most once. A successor is dropped when its
    /// configuration was expanded already; one that is still waiting on the stack is pushed
    /// again, so the newer path is explored first. The goal test is made on the state taken
    /// for expansion, so a solution is never more than `limit` moves long.
    pub fn build_tree_depth_first(
        visualize: bool,
        limit: usize,
        state: [u8; 9],
        target: [u8; 9],
    ) -> (r: (Vec<String>, Option<EightPuzzleState>))
        requires
            is_board(state@),
            is_board(target@),
        ensures
            r.0@.len() >= 1,
            is_cumulative(r.0@),
            forall|i: int| 0 <= i < r.0@.len() ==> is_graph(#[trigger] r.0@[i]@),
            statements_ok(r.0@, |l: Seq<char>| tile_statement(state@, target@, None, l)),
            visualize ==> r.0@[0]@ == graph_text(node_line(board_digits(state@), board_text(state@), NodeColor::Blue, false)),
            !visualize ==> r.0@.len() == 1 && r.0@[0]@ == graph_text(Seq::<char>::empty()),
            r.1 matches Some(s) ==> is_solution(s, state@, target@),
            r.1 matches Some(s) ==> s.history().len() <= limit,
            !reachable_within(state@, target@, limit as int) ==> r.1 is None,
            state@ == target@ ==> (r.1 matches Some(s) && s.history().len() == 0),
            limit >= 1 && one_move(state@, target@) ==> r.1 is Some,
    {
        let ghost start = state@;
        let ghost goal = target@;
        let mut trace = Trace::new(visualize);
        let game = EightPuzzleState::new(state, target);
        trace.add_node(&game.repr(), &game.to_string(), NodeColor::Blue, false);
        trace.snapshot();
        proof {
            assert(apply_moves(start, Seq::<Move>::empty()) == Some(start));
            reveal(tile_statement);
            assert(tile_statement(start, goal, None, node_line(board_digits(start), node_label_for(start, goal, 0, None), NodeColor::Blue, false)));
        }
        let ghost first = node_line(board_digits(state@), board_text(state@), NodeColor::Blue, false);
        assert(opens_with(trace, visualize, first));
        let mut stack: Vec<EightPuzzleState> = Vec::new();
        let mut visited: HashSet<u64> = HashSet::new();
        stack.push(game);
        assert(apply_moves(start, Seq::<Move>::empty()) == Some(start));
        let ghost mut seen = false;
        while stack.len() > 0
            invariant
                start == state@,
                goal == target@,
                is_board(start),
                is_board(goal),
                visited@.len() == 0 ==> stack@.len() == 1 && stack@[0].board_view() == start
                    && stack@[0].history().len() == 0,
                start == goal ==> visited@.len() == 0,
                !visited@.contains(key_of(goal)),
                seen ==> exists|i: int|
                    0 <= i < stack@.len() && (#[trigger] stack@[i]).board_view() == goal
                        && stack@[i].history().len() <= limit,
                visited@.len() > 0 && limit >= 1 && one_move(start, goal) ==> seen,
                trace.wf(),
                opens_with(trace, visualize, first),
                forall|i: int|
                    0 <= i < trace.lines().len() ==> tile_statement(start, goal, None,
                        #[trigger] trace.lines()[i],
                    ),
                first == node_line(board_digits(state@), board_text(state@), NodeColor::Blue, false),
                forall|i: int| 0 <= i < stack@.len() ==> entry_ok(#[trigger] stack@[i], start, goal),
                visited@.finite(),
                forall|k: u64| visited@.contains(k) ==> k < KEY_BOUND,
            decreases KEY_BOUND - visited@.len(), stack@.len(),
        {
            proof {
                lemma_visited_bound(visited@, KEY_BOUND);
            }
            let ghost old_s = stack@;
            let ghost old_v = visited@;
            let next = next_unexpanded(&mut stack, &mut visited, limit);
            proof {
                assert forall|i: int| 0 <= i < stack@.len() implies entry_ok(#[trigger] stack@[i], start, goal) by {
                    assert(stack@[i] == old_s[i]);
                }
                if seen {
                    let i = choose|i: int|
                        0 <= i < old_s.len() && (#[trigger] old_s[i]).board_view() == goal
                            && old_s[i].history().len() <= limit;
                    if i < stack@.len() {
                        assert(stack@[i] == old_s[i]);
                    }
                }
                if old_v.len() == 0 && next is Some {
                    assert(stack@.len() == 0);
                }
            }
            match next {
                None => {},
                Some(mut current) => {
                    proof {
                        assert(entry_ok(old_s[stack@.len() as int], start, goal));
                        lemma_key_bound(current.board_view());
                        lemma_visited_bound(visited@, KEY_BOUND);
                    }
                    let ghost first_expansion = old_v.len() == 0;
                    if current.is_game_complete() {
                        proof {
                            assert(reachable_within(start, goal, limit as int)) by {
                                assert(apply_moves(start, current.history()) == Some(goal));
                            }
                        }
                        assert(opens_with(trace, visualize, first));
                        return (trace.graphs(), Some(current));
                    }
                    let ghost hb = current.board_view();
                    let ghost hh = current.history();
                    proof {
                        if hb != goal {
                            lemma_key_injective(hb, goal);
                        }
                    }
                    let current_id = current.repr();
                    let neighbours = current.discover_neighbours(true);
                    let ghost nm = neighbour_moves(hb, true);
                    let mut j: usize = 0;
                    while j < neighbours.len()
                        invariant
                            start == state@,
                            goal == target@,
                            is_board(start),
                            is_board(hb),
                            is_board(goal),
                            trace.wf(),
                            opens_with(trace, visualize, first),
                            forall|i: int|
                                0 <= i < trace.lines().len() ==> tile_statement(start, goal, None,
                                    #[trigger] trace.lines()[i],
                                ),
                            first == node_line(
                                board_digits(state@),
                                board_text(state@),
                                NodeColor::Blue,
                                false,
                            ),
                            apply_moves(start, hh) == Some(hb),
                            current_id@ == board_digits(hb),
                            first_expansion ==> hb == start && hh.len() == 0,
                            hb != goal,
                            !visited@.contains(key_of(goal)),
                            seen ==> exists|i: int|
                                0 <= i < stack@.len() && (#[trigger] stack@[i]).board_view() == goal
                                    && stack@[i].history().len() <= limit,
                            forall|i: int|
                                0 <= i < j && (#[trigger] neighbours@[i]).board_view() == goal
                                    && hh.len() + 1 <= limit ==> seen,
                            !first_expansion ==> (limit >= 1 && one_move(start, goal) ==> seen),
                            nm == legal_moves(hb).reverse(),
                            neighbours@.len() == nm.len(),
                            forall|i: int|
                                0 <= i < neighbours@.len() ==> {
                                    let m = #[trigger] nm[i];
                                    &&& neighbours@[i].board_view() == step(hb, m)->0
                                    &&& neighbours@[i].history() == hh.push(m)
                                    &&& neighbours@[i].target_view() == goal
                                },
                            forall|i: int| 0 <= i < stack@.len() ==> entry_ok(#[trigger] stack@[i], start, goal),
                            visited@.finite(),
                            forall|k: u64| visited@.contains(k) ==> k < KEY_BOUND,
                            j <= neighbours@.len(),
                            visited@ == old_v.insert(key_of(hb)),
                        decreases neighbours@.len() - j,
                    {
                        let ghost m = nm[j as int];
                        proof {
                            let l = legal_moves(hb);
                            assert(m == l[l.len() - 1 - j]);
                            lemma_legal_moves_sound(hb, l.len() - 1 - j);
                            lemma_step_board(hb, m);
                            lemma_apply_push(start, hh, m);
                        }
                        let nk = neighbours[j].int_repr();
                        if visited.contains(&nk) {
                            trace.snapshot();
                        } else {
                            let n = neighbours[j].leaf_copy();
                            let ghost lines0 = trace.lines();
                            trace.add_node(&n.repr(), &n.to_string(), NodeColor::Blue, false);
                            let label = last_move_label(&n);
                            trace.add_edge(&current_id, &n.repr(), label.as_str());
                            proof {
                                lemma_expansion_statements(start, goal, None, hh, hb, m, n.board_view());
                                assert(n.history().last() == m);
                                let l1 = node_line(board_digits(n.board_view()), node_label_for(n.board_view(), goal, hh.len() + 1, None), NodeColor::Blue, false);
                                let l2 = edge_line(board_digits(hb), board_digits(n.board_view()), move_name(m));
                                if visualize {
                                    assert(trace.lines() == lines0.push(l1).push(l2));
                                }
                                assert forall|i: int| 0 <= i < trace.lines().len() implies tile_statement(start, goal, None, #[trigger] trace.lines()[i]) by {
                                    if i < lines0.len() {
                                        assert(trace.lines()[i] == lines0[i]);
                                    }
                                }
                            }
                            trace.snapshot();
                            let ghost old_s2 = stack@;
                            stack.push(n);
                            proof {
                                assert forall|i: int| 0 <= i < stack@.len() implies entry_ok(
                                    #[trigger] stack@[i],
                                    start,
                                    goal,
                                ) by {
                                    if i < old_s2.len() {
                                        assert(stack@[i] == old_s2[i]);
                                    }
                                }
                                if seen {
                                    let i = choose|i: int|
                                        0 <= i < old_s2.len() && (#[trigger] old_s2[i]).board_view()
                                            == goal && old_s2[i].history().len() <= limit;
                                    assert(stack@[i] == old_s2[i]);
                                }
                                if n.board_view() == goal && hh.len() + 1 <= limit {
                                    assert(stack@[old_s2.len() as int] == n);
                                    seen = true;
                                }
                            }
                        }
                        j = j + 1;
                    }
                    proof {
                        if first_expansion && limit >= 1 && one_move(start, goal) {
                            let m = choose|m: Move| step(start, m) == Some(goal);
                            lemma_legal_moves_complete(start, m);
                            let l = legal_moves(start);
                            let k = choose|k: int| 0 <= k < l.len() && l[k] == m;
                            assert(nm[l.len() - 1 - k] == m);
                            assert(neighbours@[l.len() - 1 - k].board_view() == goal);
                        }
                    }
                },
            }
        }
        (trace.graphs(), None)
    }
}


/// A breadth-first solution is never longer than one that A* returns for the same start and
/// goal.
pub proof fn lemma_breadth_first_not_longer(
    start: Seq<u8>,
    target: Seq<u8>,
    breadth_first: EightPuzzleState,
    astar: EightPuzzleState,
)
    requires
        no_shorter_path(start, target, breadth_first.history().len()),
        is_solution(astar, start, target),
    ensures
        breadth_first.history().len() <= astar.history().len(),
{
    assert(apply_moves(start, astar.history()) == Some(target));
}

impl EightPuzzleState {
    /// The cells of the configuration.
    pub fn board(&self) -> (r: [u8; 9])
        ensures
            r@ == self.board_view(),
    {
        self.board
    }

    /// The goal configuration.
    pub fn target(&self) -> (r: [u8; 9])
        ensures
            r@ == self.target_view(),
    {
        self.target
    }

    /// The moves that led here from the start.
    pub fn move_history(&self) -> (r: &Vec<Move>)
        ensures
            r@ == self.history(),
    {
        &self.move_history
    }
}

} // verus!
