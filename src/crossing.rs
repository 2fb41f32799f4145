use std::collections::HashSet;
use vstd::prelude::*;

use crate::frontier::lemma_visited_bound;
use crate::trace::{
    decimal, digit_char, edge_line, graph_text, statements_ok, is_cumulative, is_graph, lemma_occurs_append, occurs_in, node_line, opens_with, push_decimal, push_digit,
    NodeColor, Trace,
};

verus! {

/// People of each kind on the starting bank at the outset.
pub const N: u8 = 3;

/// Who crosses in the boat.
#[derive(Clone, Copy, Debug, PartialEq, Eq, Structural)]
pub enum Move {
    Missionary,
    Cannibal,
    TwoMissionaries,
    TwoCannibals,
    MissionaryCannibal,
}

/// A crossing configuration and the crossings that led to it. The counts are those on the
/// starting bank; `boat` tells whether the boat is there.
#[derive(Debug)]
pub struct State {
    missionaries: u8,
    cannibals: u8,
    boat: bool,
    sail_history: Vec<Move>,
    children: Vec<State>,
}

/// Missionaries, cannibals on the starting bank, and whether the boat is there.
pub type Config = (int, int, bool);

/// Missionaries and cannibals that a crossing carries.
pub open spec fn load(mv: Move) -> (int, int) {
    match mv {
        Move::Missionary => (1, 0),
        Move::Cannibal => (0, 1),
        Move::TwoMissionaries => (2, 0),
        Move::TwoCannibals => (0, 2),
        Move::MissionaryCannibal => (1, 1),
    }
}

/// Both counts within `0..=N`, and on each bank missionaries, where there are any, are not
/// outnumbered.
pub open spec fn is_safe(m: int, c: int) -> bool {
    &&& 0 <= m <= N
    &&& 0 <= c <= N
    &&& (m == 0 || m >= c)
    &&& (N - m == 0 || N - m >= N - c)
}

/// On neither bank do cannibals outnumber missionaries, where missionaries are present.
pub open spec fn no_bank_outnumbered(cfg: Config) -> bool {
    &&& (cfg.0 > 0 ==> cfg.1 <= cfg.0)
    &&& (N - cfg.0 > 0 ==> N - cfg.1 <= N - cfg.0)
}

/// The configuration after a crossing, or `None` where it is rejected.
pub open spec fn sail_to(cfg: Config, mv: Move) -> Option<Config> {
    let (dm, dc) = load(mv);
    let m = if cfg.2 { cfg.0 - dm } else { cfg.0 + dm };
    let c = if cfg.2 { cfg.1 - dc } else { cfg.1 + dc };
    if is_safe(m, c) {
        Some((m, c, !cfg.2))
    } else {
        None
    }
}

/// The configuration reached by making the crossings `ms` in order from `cfg`.
pub open spec fn apply_sails(cfg: Config, ms: Seq<Move>) -> Option<Config>
    decreases ms.len(),
{
    if ms.len() == 0 {
        Some(cfg)
    } else {
        match apply_sails(cfg, ms.drop_last()) {
            Some(d) => sail_to(d, ms.last()),
            None => None,
        }
    }
}

/// The starting configuration: everyone and the boat on the starting bank.
pub open spec fn initial() -> Config {
    (N as int, N as int, true)
}

/// Everyone has crossed.
pub open spec fn is_goal(cfg: Config) -> bool {
    cfg.0 == 0 && cfg.1 == 0
}

/// Some goal configuration is reached from the start.
pub open spec fn goal_reachable() -> bool {
    exists|ms: Seq<Move>| #[trigger] apply_sails(initial(), ms) matches Some(g) && is_goal(g)
}

/// The canonical key: missionaries, ten times the cannibals, a hundred for the boat.
pub open spec fn config_key(cfg: Config) -> u64 {
    (cfg.0 + 10 * cfg.1 + (if cfg.2 { 100int } else { 0int })) as u64
}

/// The accepted crossings among the first `k` of `order`, in that order.
pub open spec fn sails_of_prefix(cfg: Config, order: Seq<Move>, k: int) -> Seq<Move>
    decreases k,
{
    if k <= 0 {
        Seq::empty()
    } else if sail_to(cfg, order[k - 1]) is Some {
        sails_of_prefix(cfg, order, k - 1).push(order[k - 1])
    } else {
        sails_of_prefix(cfg, order, k - 1)
    }
}

pub open spec fn move_order() -> Seq<Move> {
    seq![
        Move::Missionary,
        Move::Cannibal,
        Move::TwoMissionaries,
        Move::TwoCannibals,
        Move::MissionaryCannibal,
    ]
}

/// The accepted crossings, in the fixed order of `Move`.
pub open spec fn legal_sails(cfg: Config) -> Seq<Move> {
    sails_of_prefix(cfg, move_order(), 5)
}

/// Text of a crossing, as in an edge label.
pub open spec fn move_name(m: Move) -> Seq<char> {
    match m {
        Move::Missionary => "Missionary"@,
        Move::Cannibal => "Cannibal"@,
        Move::TwoMissionaries => "TwoMissionaries"@,
        Move::TwoCannibals => "TwoCannibals"@,
        Move::MissionaryCannibal => "MissionaryCannibal"@,
    }
}

pub open spec fn bool_text(b: bool) -> Seq<char> {
    if b {
        "true"@
    } else {
        "false"@
    }
}

/// The node name: the two counts and 1 or 0 for the boat.
pub open spec fn config_id(cfg: Config) -> Seq<char> {
    decimal(cfg.0 as nat) + decimal(cfg.1 as nat) + seq![digit_char(if cfg.2 { 1nat } else { 0nat })]
}

/// The node label.
pub open spec fn config_label(cfg: Config) -> Seq<char> {
    "<< "@ + decimal(cfg.0 as nat) + ", "@ + decimal(cfg.1 as nat) + ", "@ + bool_text(cfg.2)
        + ">>"@
}

pub proof fn lemma_sails_sound(cfg: Config, i: int)
    requires
        0 <= i < legal_sails(cfg).len(),
    ensures
        sail_to(cfg, legal_sails(cfg)[i]) is Some,
{
    lemma_prefix_sound(cfg, move_order(), 5, i);
}

proof fn lemma_prefix_sound(cfg: Config, order: Seq<Move>, k: int, i: int)
    requires
        0 <= i < sails_of_prefix(cfg, order, k).len(),
    ensures
        sail_to(cfg, sails_of_prefix(cfg, order, k)[i]) is Some,
    decreases k,
{
    if k > 0 {
        let before = sails_of_prefix(cfg, order, k - 1);
        if i < before.len() {
            lemma_prefix_sound(cfg, order, k - 1, i);
        }
    }
}

pub proof fn lemma_sails_complete(cfg: Config, mv: Move)
    requires
        sail_to(cfg, mv) is Some,
    ensures
        legal_sails(cfg).contains(mv),
{
    reveal_with_fuel(sails_of_prefix, 6);
    let l = legal_sails(cfg);
    let o = move_order();
    let k: int = match mv {
        Move::Missionary => 0,
        Move::Cannibal => 1,
        Move::TwoMissionaries => 2,
        Move::TwoCannibals => 3,
        Move::MissionaryCannibal => 4,
    };
    assert(o[k] == mv);
    let before = sails_of_prefix(cfg, o, k);
    assert(sails_of_prefix(cfg, o, k + 1) == before.push(mv));
    assert(sails_of_prefix(cfg, o, k + 1)[before.len() as int] == mv);
    lemma_prefix_extends(cfg, o, k + 1, 5);
    assert(l[before.len() as int] == mv);
}

proof fn lemma_prefix_extends(cfg: Config, order: Seq<Move>, k: int, n: int)
    requires
        0 <= k <= n,
    ensures
        sails_of_prefix(cfg, order, k).is_prefix_of(sails_of_prefix(cfg, order, n)),
    decreases n - k,
{
    if k < n {
        lemma_prefix_extends(cfg, order, k, n - 1);
    }
}

/// Every accepted crossing leaves no bank where cannibals outnumber missionaries.
pub proof fn lemma_sail_keeps_banks_safe(cfg: Config, mv: Move)
    ensures
        sail_to(cfg, mv) matches Some(d) ==> no_bank_outnumbered(d),
{
}

/// Distinct safe configurations have distinct keys.
pub proof fn lemma_config_key_injective(a: Config, b: Config)
    requires
        is_safe(a.0, a.1),
        is_safe(b.0, b.1),
        a != b,
    ensures
        config_key(a) != config_key(b),
{
}

/// A crossing keeps a configuration safe.
pub proof fn lemma_apply_sails_safe(ms: Seq<Move>)
    ensures
        apply_sails(initial(), ms) matches Some(c) ==> is_safe(c.0, c.1),
    decreases ms.len(),
{
    if ms.len() > 0 {
        lemma_apply_sails_safe(ms.drop_last());
    }
}

pub proof fn lemma_apply_sails_push(cfg: Config, ms: Seq<Move>, mv: Move)
    ensures
        apply_sails(cfg, ms.push(mv)) == (match apply_sails(cfg, ms) {
            Some(d) => sail_to(d, mv),
            None => None,
        }),
{
    assert(ms.push(mv).drop_last() == ms);
}

fn push_move_name(s: &mut String, m: Move)
    ensures
        final(s)@ == old(s)@ + move_name(m),
{
    match m {
        Move::Missionary => s.append("Missionary"),
        Move::Cannibal => s.append("Cannibal"),
        Move::TwoMissionaries => s.append("TwoMissionaries"),
        Move::TwoCannibals => s.append("TwoCannibals"),
        Move::MissionaryCannibal => s.append("MissionaryCannibal"),
    }
}

impl State {
    pub closed spec fn config(&self) -> Config {
        (self.missionaries as int, self.cannibals as int, self.boat)
    }

    pub closed spec fn history(&self) -> Seq<Move> {
        self.sail_history@
    }

    /// How many successors the last expansion of this state recorded.
    pub closed spec fn child_count(&self) -> nat {
        self.children@.len()
    }

    /// Everyone on the starting bank with the boat, no crossing made.
    pub fn new() -> (r: State)
        ensures
            r.config() == initial(),
            r.history() == Seq::<Move>::empty(),
            r.child_count() == 0,
    {
        State {
            missionaries: N,
            cannibals: N,
            boat: true,
            sail_history: Vec::new(),
            children: Vec::new(),
        }
    }

    fn leaf_copy(&self) -> (r: State)
        ensures
            r.config() == self.config(),
            r.history() == self.history(),
            r.child_count() == 0,
    {
        State {
            missionaries: self.missionaries,
            cannibals: self.cannibals,
            boat: self.boat,
            sail_history: self.sail_history.clone(),
            children: Vec::new(),
        }
    }

    /// The crossing that led here, if any.
    pub fn last_move(&self) -> (r: Option<Move>)
        ensures
            r == (if self.history().len() == 0 {
                None
            } else {
                Some(self.history().last())
            }),
    {
        let n = self.sail_history.len();
        if n == 0 {
            None
        } else {
            Some(self.sail_history[n - 1])
        }
    }

    /// Whether no successor has been recorded for this state.
    pub fn is_terminal(&self) -> (r: bool)
        ensures
            r == (self.child_count() == 0),
    {
        self.children.len() == 0
    }

    /// Whether everyone has crossed.
    pub fn is_game_complete(&self) -> (r: bool)
        ensures
            r == is_goal(self.config()),
    {
        self.missionaries == 0 && self.cannibals == 0
    }

    /// The canonical key of the configuration.
    pub fn repr(&self) -> (r: u64)
        ensures
            r == config_key(self.config()),
    {
        self.missionaries as u64 + (self.cannibals as u64 * 10) + (if self.boat {
            100u64
        } else {
            0u64
        })
    }

    /// The node name: both counts and 1 or 0 for the boat.
    pub fn to_string(&self) -> (r: String)
        ensures
            r@ == config_id(self.config()),
    {
        let mut s = String::new();
        push_decimal(&mut s, self.missionaries as u64);
        push_decimal(&mut s, self.cannibals as u64);
        push_digit(&mut s, if self.boat { 1 } else { 0 });
        assert(s@ =~= config_id(self.config()));
        s
    }

    /// The node label: both counts and the side of the boat.
    pub fn label(&self) -> (r: String)
        ensures
            r@ == config_label(self.config()),
    {
        let mut s = String::from_str("<< ");
        push_decimal(&mut s, self.missionaries as u64);
        s.append(", ");
        push_decimal(&mut s, self.cannibals as u64);
        s.append(", ");
        if self.boat {
            s.append("true");
        } else {
            s.append("false");
        }
        s.append(">>");
        assert(s@ =~= config_label(self.config()));
        s
    }

    /// Makes a crossing; a rejected one changes nothing.
    pub fn sail(&mut self, kind: Move) -> (r: bool)
        ensures
            r == sail_to(old(self).config(), kind) is Some,
            r ==> final(self).config() == sail_to(old(self).config(), kind)->0,
            r ==> final(self).history() == old(self).history().push(kind),
            !r ==> final(self).config() == old(self).config(),
            !r ==> final(self).history() == old(self).history(),
            final(self).child_count() == old(self).child_count(),
    {
        let mut valid = true;
        let mut m = self.missionaries;
        let mut c = self.cannibals;
        match kind {
            Move::Missionary => {
                if m > 0 && self.boat {
                    m = m - 1;
                } else if m < N && !self.boat {
                    m = m + 1;
                } else {
                    valid = false;
                }
            },
            Move::Cannibal => {
                if c > 0 && self.boat {
                    c = c - 1;
                } else if c < N && !self.boat {
                    c = c + 1;
                } else {
                    valid = false;
                }
            },
            Move::TwoMissionaries => {
                if m > 1 && self.boat {
                    m = m - 2;
                } else if m < N && !self.boat {
                    m = m + 2;
                } else {
                    valid = false;
                }
            },
            Move::TwoCannibals => {
                if c > 1 && self.boat {
                    c = c - 2;
                } else if c < N && !self.boat {
                    c = c + 2;
                } else {
                    valid = false;
                }
            },
            Move::MissionaryCannibal => {
                if m > 0 && c > 0 && self.boat {
                    m = m - 1;
                    c = c - 1;
                } else if m < N && c < N && !self.boat {
                    m = m + 1;
                    c = c + 1;
                } else {
                    valid = false;
                }
            },
        }
        if m != 0 && m < c {
            valid = false;
        }
        if m > N || c > N {
            valid = false;
        } else if N - m != 0 && N - m < N - c {
            valid = false;
        }
        if valid {
            self.boat = !self.boat;
            self.missionaries = m;
            self.cannibals = c;
            self.sail_history.push(kind);
        }
        valid
    }

    /// The state after a crossing, if it is accepted.
    fn attempt_sail(&self, kind: Move) -> (r: Option<State>)
        ensures
            r is Some <==> sail_to(self.config(), kind) is Some,
            r matches Some(n) ==> {
                &&& n.config() == sail_to(self.config(), kind)->0
                &&& n.history() == self.history().push(kind)
                &&& n.child_count() == 0
            },
    {
        let mut next = self.leaf_copy();
        if next.sail(kind) {
            Some(next)
        } else {
            None
        }
    }

    /// All successors, in the order of `Move`; they are also recorded as this state's children.
    pub fn discover_neighbours(&mut self) -> (r: Vec<State>)
        ensures
            final(self).config() == old(self).config(),
            final(self).history() == old(self).history(),
            final(self).child_count() == r@.len(),
            r@.len() == legal_sails(old(self).config()).len(),
            forall|i: int| 0 <= i < r@.len() ==> no_bank_outnumbered(#[trigger] r@[i].config()),
            forall|i: int|
                0 <= i < r@.len() ==> {
                    let m = #[trigger] legal_sails(old(self).config())[i];
                    &&& r@[i].config() == sail_to(old(self).config(), m)->0
                    &&& r@[i].history() == old(self).history().push(m)
                    &&& r@[i].child_count() == 0
                },
    {
        let ghost cfg = self.config();
        let mut found: Vec<State> = Vec::new();
        let mut copies: Vec<State> = Vec::new();
        let moves = [
            Move::Missionary,
            Move::Cannibal,
            Move::TwoMissionaries,
            Move::TwoCannibals,
            Move::MissionaryCannibal,
        ];
        assert(moves@ == move_order());
        let mut k: usize = 0;
        while k < 5
            invariant
                k <= 5,
                moves@ == move_order(),
                self.config() == cfg,
                found@.len() == copies@.len(),
                found@.len() == sails_of_prefix(cfg, move_order(), k as int).len(),
                forall|i: int|
                    0 <= i < found@.len() ==> {
                        let m = #[trigger] sails_of_prefix(cfg, move_order(), k as int)[i];
                        &&& found@[i].config() == sail_to(cfg, m)->0
                        &&& found@[i].history() == self.history().push(m)
                        &&& found@[i].child_count() == 0
                        &&& copies@[i].config() == sail_to(cfg, m)->0
                        &&& copies@[i].history() == self.history().push(m)
                        &&& copies@[i].child_count() == 0
                    },
            decreases 5 - k,
        {
            let m = moves[k];
            match self.attempt_sail(m) {
                Some(n) => {
                    copies.push(n.leaf_copy());
                    found.push(n);
                },
                None => {},
            }
            k = k + 1;
        }
        self.children = copies;
        proof {
            assert forall|i: int| 0 <= i < found@.len() implies no_bank_outnumbered(
                #[trigger] found@[i].config(),
            ) by {
                lemma_sails_sound(cfg, i);
            }
        }
        found
    }
}


/// Keys of safe configurations stay below this bound.
pub const KEY_BOUND: u64 = 256;

pub open spec fn depth(e: State) -> int {
    e.history().len() as int
}

/// `c` is reached from the start in at most `k` crossings.
pub open spec fn reached_within(c: Config, k: int) -> bool {
    exists|ms: Seq<Move>| ms.len() <= k && #[trigger] apply_sails(initial(), ms) == Some(c)
}

/// Some frontier entry has key `k`.
pub open spec fn has_key(f: Seq<State>, k: u64) -> bool {
    exists|i: int| 0 <= i < f.len() && config_key(#[trigger] f[i].config()) == k
}

/// Configuration `c` was expanded or waits on the frontier.
pub open spec fn covered(v: Set<u64>, f: Seq<State>, c: Config) -> bool {
    v.contains(config_key(c)) || has_key(f, config_key(c))
}

/// `e` is safe and was reached from the start by its own history.
pub open spec fn entry_ok(e: State) -> bool {
    &&& is_safe(e.config().0, e.config().1)
    &&& apply_sails(initial(), e.history()) == Some(e.config())
}

/// Every successor of `c` was expanded or waits on the frontier.
pub open spec fn successors_covered(v: Set<u64>, f: Seq<State>, c: Config) -> bool {
    forall|mv: Move| (#[trigger] sail_to(c, mv)) is Some ==> covered(v, f, sail_to(c, mv)->0)
}

/// What a search hands back as a solution: a goal, reached from the start by its history.
pub open spec fn is_solution(s: State) -> bool {
    &&& is_goal(s.config())
    &&& apply_sails(initial(), s.history()) == Some(s.config())
}

/// No sequence of crossings from the start to a goal is shorter than `n`.
pub open spec fn no_shorter_crossing(n: nat) -> bool {
    forall|ms: Seq<Move>|
        #[trigger] apply_sails(initial(), ms) matches Some(g) && is_goal(g) ==> n <= ms.len()
}

proof fn lemma_key_bound(c: Config)
    requires
        is_safe(c.0, c.1),
    ensures
        config_key(c) < KEY_BOUND,
{
}

proof fn lemma_covered_push(v: Set<u64>, f: Seq<State>, n: State, c: Config)
    ensures
        covered(v, f.push(n), c) == (covered(v, f, c) || config_key(c) == config_key(n.config())),
{
    let g = f.push(n);
    if has_key(f, config_key(c)) {
        let i = choose|i: int| 0 <= i < f.len() && config_key(#[trigger] f[i].config()) == config_key(c);
        assert(g[i] == f[i]);
    }
    if config_key(c) == config_key(n.config()) {
        assert(g[f.len() as int] == n);
    }
    if has_key(g, config_key(c)) {
        let i = choose|i: int| 0 <= i < g.len() && config_key(#[trigger] g[i].config()) == config_key(c);
        if i < f.len() {
            assert(f[i] == g[i]);
        }
    }
}

proof fn lemma_covered_pop(v: Set<u64>, f: Seq<State>, c: Config)
    requires
        f.len() > 0,
    ensures
        covered(v.insert(config_key(f[0].config())), f.remove(0), c) == covered(v, f, c),
{
    let g = f.remove(0);
    if has_key(f, config_key(c)) {
        let i = choose|i: int| 0 <= i < f.len() && config_key(#[trigger] f[i].config()) == config_key(c);
        if i > 0 {
            assert(g[i - 1] == f[i]);
        }
    }
    if has_key(g, config_key(c)) {
        let i = choose|i: int| 0 <= i < g.len() && config_key(#[trigger] g[i].config()) == config_key(c);
        assert(f[i + 1] == g[i]);
    }
}

proof fn lemma_advance_level(v: Set<u64>, f: Seq<State>, level: int)
    requires
        level >= 0,
        forall|i: int| 0 <= i < f.len() ==> entry_ok(#[trigger] f[i]),
        forall|i: int| 0 <= i < f.len() ==> depth(#[trigger] f[i]) >= level + 1,
        forall|i: int|
            0 <= i < f.len() ==> !reached_within((#[trigger] f[i]).config(), depth(f[i]) - 1),
        forall|c: Config| reached_within(c, level) ==> #[trigger] covered(v, f, c),
        forall|c: Config|
            is_safe(c.0, c.1) && v.contains(config_key(c)) ==> #[trigger] successors_covered(v, f, c),
    ensures
        forall|c: Config| reached_within(c, level + 1) ==> #[trigger] covered(v, f, c),
{
    assert forall|c: Config| reached_within(c, level + 1) implies #[trigger] covered(v, f, c) by {
        let ms = choose|ms: Seq<Move>| ms.len() <= level + 1 && #[trigger] apply_sails(initial(), ms) == Some(c);
        if ms.len() <= level {
            assert(reached_within(c, level));
        } else {
            let pre = ms.drop_last();
            let p = apply_sails(initial(), pre)->0;
            assert(apply_sails(initial(), pre) == Some(p));
            assert(reached_within(p, level));
            lemma_apply_sails_safe(pre);
            assert(covered(v, f, p));
            if v.contains(config_key(p)) {
                assert(successors_covered(v, f, p));
                assert(sail_to(p, ms.last()) == Some(c));
            } else {
                let i = choose|i: int| 0 <= i < f.len() && config_key(#[trigger] f[i].config()) == config_key(p);
                assert(entry_ok(f[i]));
                if f[i].config() != p {
                    lemma_config_key_injective(f[i].config(), p);
                }
                assert(apply_sails(initial(), pre) == Some(f[i].config()));
                assert(reached_within(f[i].config(), depth(f[i]) - 1));
            }
        }
    }
}

proof fn lemma_closed_reach(v: Set<u64>, f: Seq<State>, ms: Seq<Move>)
    requires
        f.len() == 0,
        covered(v, f, initial()),
        forall|c: Config|
            is_safe(c.0, c.1) && v.contains(config_key(c)) ==> #[trigger] successors_covered(v, f, c),
    ensures
        apply_sails(initial(), ms) matches Some(c) ==> v.contains(config_key(c)),
    decreases ms.len(),
{
    if ms.len() > 0 {
        let pre = ms.drop_last();
        lemma_closed_reach(v, f, pre);
        lemma_apply_sails_safe(pre);
        if let Some(p) = apply_sails(initial(), pre) {
            assert(successors_covered(v, f, p));
            if let Some(c) = sail_to(p, ms.last()) {
                assert(covered(v, f, c));
            }
        }
    }
}

/// Takes the front entry of `queue` for expansion and marks its key visited. No waiting entry
/// has a visited key, so a key already in `visited` is never expanded again.
pub fn take_front(queue: &mut Vec<State>, visited: &mut HashSet<u64>) -> (r: State)
    requires
        old(queue)@.len() > 0,
        forall|i: int|
            0 <= i < old(queue)@.len() ==> !old(visited)@.contains(
                config_key((#[trigger] old(queue)@[i]).config()),
            ),
    ensures
        r == old(queue)@[0],
        final(queue)@ == old(queue)@.remove(0),
        !old(visited)@.contains(config_key(r.config())),
        final(visited)@ == old(visited)@.insert(config_key(r.config())),
{
    let r = queue.remove(0);
    let k = r.repr();
    visited.insert(k);
    r
}

fn frontier_has_key(f: &Vec<State>, k: u64) -> (r: bool)
    ensures
        r == has_key(f@, k),
{
    let mut i: usize = 0;
    while i < f.len()
        invariant
            i <= f@.len(),
            forall|j: int| 0 <= j < i ==> config_key(#[trigger] f@[j].config()) != k,
        decreases f@.len() - i,
    {
        if f[i].repr() == k {
            return true;
        }
        i = i + 1;
    }
    false
}

fn last_move_label(n: &State) -> (r: String)
    requires
        n.history().len() > 0,
    ensures
        r@ == move_name(n.history().last()),
{
    let mut s = String::new();
    match n.last_move() {
        Some(m) => push_move_name(&mut s, m),
        None => {},
    }
    s
}

impl State {
    /// Breadth-first search from the start to a configuration where everyone has crossed:
    /// the snapshots of the search graph and a solution with the fewest crossings, if any.
    pub fn build_breadth_first_tree() -> (r: (Vec<String>, Option<State>))
        ensures
            r.0@.len() >= 1,
            is_cumulative(r.0@),
            forall|i: int| 0 <= i < r.0@.len() ==> is_graph(#[trigger] r.0@[i]@),
            statements_ok(r.0@, |l: Seq<char>| crossing_statement(true, l)),
            r.0@[0]@ == graph_text(node_line(config_id(initial()), config_label(initial()), NodeColor::Blue, true)),
            r.1 is Some <==> goal_reachable(),
            r.1 matches Some(s) ==> is_solution(s),
            r.1 matches Some(s) ==> no_shorter_crossing(s.history().len()),
            r.1 matches Some(s) ==> occurs_in(
                node_line(config_id(s.config()), config_label(s.config()), NodeColor::Green, true),
                r.0@.last()@,
            ),
    {
        let mut trace = Trace::new(true);
        let game = State::new();
        trace.add_node(&game.to_string(), &game.label(), NodeColor::Blue, true);
        trace.snapshot();
        proof {
            reveal(crossing_statement);
            assert(apply_sails(initial(), Seq::<Move>::empty()) == Some(initial()));
            assert(crossing_statement(true, node_line(config_id(initial()), config_label(initial()), crossing_color(initial(), 0, true), true)));
        }
        let ghost first = node_line(config_id(initial()), config_label(initial()), NodeColor::Blue, true);
        assert(opens_with(trace, true, first));
        let mut queue: Vec<State> = Vec::new();
        let mut visited: HashSet<u64> = HashSet::new();
        queue.push(game);
        let ghost mut level: int = 0;
        proof {
            assert(apply_sails(initial(), Seq::<Move>::empty()) == Some(initial()));
            assert(config_key(queue@[0].config()) == config_key(initial()));
            assert forall|c: Config| reached_within(c, 0) implies #[trigger] covered(
                visited@,
                queue@,
                c,
            ) by {
                let ms = choose|ms: Seq<Move>| ms.len() <= 0 && #[trigger] apply_sails(initial(), ms) == Some(c);
                assert(ms =~= Seq::<Move>::empty());
                assert(config_key(queue@[0].config()) == config_key(c));
            }
        }
        while queue.len() > 0
            invariant
                trace.wf(),
                opens_with(trace, true, first),
                forall|i: int|
                    0 <= i < trace.lines().len() ==> crossing_statement(true,
                        #[trigger] trace.lines()[i],
                    ),
                first == node_line(config_id(initial()), config_label(initial()), NodeColor::Blue, true),
                level >= 0,
                forall|i: int| 0 <= i < queue@.len() ==> entry_ok(#[trigger] queue@[i]),
                forall|i: int|
                    0 <= i < queue@.len() ==> !visited@.contains(
                        config_key((#[trigger] queue@[i]).config()),
                    ),
                forall|i: int, j: int|
                    0 <= i < j < queue@.len() ==> config_key((#[trigger] queue@[i]).config())
                        != config_key((#[trigger] queue@[j]).config()),
                forall|i: int|
                    0 <= i < queue@.len() ==> level <= depth(#[trigger] queue@[i]) <= level + 1,
                forall|i: int, j: int|
                    0 <= i < j < queue@.len() ==> depth(#[trigger] queue@[i]) <= depth(
                        #[trigger] queue@[j],
                    ),
                forall|c: Config| reached_within(c, level) ==> #[trigger] covered(visited@, queue@, c),
                forall|i: int|
                    0 <= i < queue@.len() ==> !reached_within(
                        (#[trigger] queue@[i]).config(),
                        depth(queue@[i]) - 1,
                    ),
                forall|c: Config|
                    is_safe(c.0, c.1) && visited@.contains(config_key(c))
                        ==> #[trigger] successors_covered(visited@, queue@, c),
                forall|c: Config| is_goal(c) ==> !#[trigger] covered(visited@, queue@, c),
                covered(visited@, queue@, initial()),
                visited@.finite(),
                forall|k: u64| visited@.contains(k) ==> k < KEY_BOUND,
            decreases KEY_BOUND - visited@.len(),
        {
            proof {
                lemma_visited_bound(visited@, KEY_BOUND);
                if depth(queue@[0]) == level + 1 {
                    lemma_advance_level(visited@, queue@, level);
                    level = level + 1;
                }
            }
            let ghost old_v = visited@;
            let ghost old_q = queue@;
            let mut current = take_front(&mut queue, &mut visited);
            let key = current.repr();
            proof {
                assert(entry_ok(old_q[0]));
                lemma_key_bound(current.config());
                lemma_visited_bound(visited@, KEY_BOUND);
                assert(old_q.remove(0) =~= queue@);
                assert forall|c: Config| #[trigger] covered(visited@, queue@, c) == covered(old_v, old_q, c) by {
                    lemma_covered_pop(old_v, old_q, c);
                }
                assert forall|i: int| 0 <= i < queue@.len() implies !visited@.contains(
                    config_key((#[trigger] queue@[i]).config()),
                ) by {
                    assert(queue@[i] == old_q[i + 1]);
                }
                assert forall|c: Config|
                    is_safe(c.0, c.1) && visited@.contains(config_key(c)) && config_key(c) != key
                        implies #[trigger] successors_covered(visited@, queue@, c) by {
                    assert(successors_covered(old_v, old_q, c));
                }
            }
            let ghost hc = current.config();
            let ghost hh = current.history();
            let current_id = current.to_string();
            let neighbours = current.discover_neighbours();
            let ghost nm = legal_sails(hc);
            let mut j: usize = 0;
            while j < neighbours.len()
                invariant
                    is_safe(hc.0, hc.1),
                    trace.wf(),
                    opens_with(trace, true, first),
                    forall|i: int|
                        0 <= i < trace.lines().len() ==> crossing_statement(true,
                            #[trigger] trace.lines()[i],
                        ),
                    first == node_line(config_id(initial()), config_label(initial()), NodeColor::Blue, true),
                    level >= 0,
                    apply_sails(initial(), hh) == Some(hc),
                    current_id@ == config_id(hc),
                    hh.len() == level,
                    key == config_key(hc),
                    visited@.contains(key),
                    nm == legal_sails(hc),
                    neighbours@.len() == nm.len(),
                    forall|i: int|
                        0 <= i < neighbours@.len() ==> {
                            let m = #[trigger] nm[i];
                            &&& neighbours@[i].config() == sail_to(hc, m)->0
                            &&& neighbours@[i].history() == hh.push(m)
                        },
                    forall|i: int| 0 <= i < queue@.len() ==> entry_ok(#[trigger] queue@[i]),
                    forall|i: int|
                        0 <= i < queue@.len() ==> !visited@.contains(
                            config_key((#[trigger] queue@[i]).config()),
                        ),
                    forall|i: int, j: int|
                        0 <= i < j < queue@.len() ==> config_key((#[trigger] queue@[i]).config())
                            != config_key((#[trigger] queue@[j]).config()),
                    forall|i: int|
                        0 <= i < queue@.len() ==> level <= depth(#[trigger] queue@[i]) <= level + 1,
                    forall|i: int, j: int|
                        0 <= i < j < queue@.len() ==> depth(#[trigger] queue@[i]) <= depth(
                            #[trigger] queue@[j],
                        ),
                    forall|c: Config| reached_within(c, level) ==> #[trigger] covered(visited@, queue@, c),
                    forall|i: int|
                        0 <= i < queue@.len() ==> !reached_within(
                            (#[trigger] queue@[i]).config(),
                            depth(queue@[i]) - 1,
                        ),
                    forall|c: Config|
                        is_safe(c.0, c.1) && visited@.contains(config_key(c)) && config_key(c) != key
                            ==> #[trigger] successors_covered(visited@, queue@, c),
                    forall|i: int|
                        0 <= i < j ==> covered(visited@, queue@, (#[trigger] neighbours@[i]).config()),
                    j <= neighbours@.len(),
                    forall|c: Config| is_goal(c) ==> !#[trigger] covered(visited@, queue@, c),
                    covered(visited@, queue@, initial()),
                    visited@.finite(),
                    forall|k: u64| visited@.contains(k) ==> k < KEY_BOUND,
                decreases neighbours@.len() - j,
            {
                let ghost m = nm[j as int];
                proof {
                    lemma_sails_sound(hc, j as int);
                    lemma_apply_sails_push(initial(), hh, m);
                }
                let nk = neighbours[j].repr();
                if visited.contains(&nk) || frontier_has_key(&queue, nk) {
                    trace.snapshot();
                } else {
                    let n = neighbours[j].leaf_copy();
                    let ghost nc = n.config();
                    proof {
                        assert(neighbours@[j as int].config() == sail_to(hc, m)->0);
                        assert(n.history() == hh.push(m));
                        assert(apply_sails(initial(), n.history()) == Some(nc));
                        assert(!covered(visited@, queue@, nc));
                        assert(!reached_within(nc, level));
                    }
                    let found_goal = n.is_game_complete();
                    let status = if found_goal {
                        NodeColor::Green
                    } else {
                        NodeColor::White
                    };
                    let ghost b0 = trace.bodies().last();
                    let ghost lines0 = trace.lines();
                    trace.add_node(&n.to_string(), &n.label(), status, true);
                    let label = last_move_label(&n);
                    let ghost b1 = trace.bodies().last();
                    trace.add_edge(&current_id, &n.to_string(), label.as_str());
                    proof {
                        lemma_expansion_statements(true, hh, hc, m, n.config());
                        assert(n.history().last() == m);
                        let l1 = node_line(config_id(n.config()), config_label(n.config()), crossing_color(n.config(), hh.len() + 1, true), true);
                        let l2 = edge_line(config_id(hc), config_id(n.config()), move_name(m));
                        assert(trace.lines() == lines0.push(l1).push(l2));
                        assert forall|i: int| 0 <= i < trace.lines().len() implies crossing_statement(true, #[trigger] trace.lines()[i]) by {
                            if i < lines0.len() {
                                assert(trace.lines()[i] == lines0[i]);
                            }
                        }
                    }
                    let ghost b2 = trace.bodies().last();
                    trace.snapshot();
                    if found_goal {
                        let graphs = trace.graphs();
                        proof {
                            let line = node_line(config_id(nc), config_label(nc), NodeColor::Green, true);
                            let e2 = b2.subrange(b1.len() as int, b2.len() as int);
                            assert(b1 =~= b0 + line);
                            assert(b2 =~= b1 + e2);
                            lemma_occurs_append(line, b0, line);
                            lemma_occurs_append(line, b1, e2);
                            lemma_occurs_append(line, "digraph {\n"@, b2);
                            lemma_occurs_append(line, "digraph {\n"@ + b2, "}"@);
                            let k = graphs@.len() - 1;
                            assert(graphs@[k]@ == graph_text(trace.bodies()[k]));
                            assert(trace.bodies()[k] == b2);
                            assert(graph_text(b2) == "digraph {\n"@ + b2 + "}"@);
                            assert forall|ms: Seq<Move>|
                                (#[trigger] apply_sails(initial(), ms) matches Some(g) && is_goal(g))
                                implies n.history().len() <= ms.len() by {
                                let g = apply_sails(initial(), ms)->0;
                                assert(apply_sails(initial(), ms) == Some(g));
                                assert(is_goal(g));
                                if ms.len() <= level {
                                    assert(reached_within(g, level));
                                    assert(covered(visited@, queue@, g));
                                }
                            }
                            assert(goal_reachable()) by {
                                assert(apply_sails(initial(), n.history()) == Some(nc));
                            }
                        }
                        assert(opens_with(trace, true, first));
                        return (graphs, Some(n));
                    }
                    let ghost old_q2 = queue@;
                    queue.push(n);
                    proof {
                        lemma_key_bound(nc);
                        assert forall|c: Config| #[trigger] covered(visited@, queue@, c) == (covered(
                            visited@,
                            old_q2,
                            c,
                        ) || config_key(c) == config_key(nc)) by {
                            lemma_covered_push(visited@, old_q2, n, c);
                        }
                        assert forall|c: Config| is_goal(c) implies !#[trigger] covered(visited@, queue@, c) by {
                            if config_key(c) == config_key(nc) {
                                lemma_config_key_injective(c, nc);
                            }
                        }
                        assert(queue@[old_q2.len() as int] == n);
                        assert forall|i: int| 0 <= i < queue@.len() implies !reached_within(
                            (#[trigger] queue@[i]).config(),
                            depth(queue@[i]) - 1,
                        ) by {
                            if i < old_q2.len() {
                                assert(queue@[i] == old_q2[i]);
                            }
                        }
                        assert forall|i: int, k: int| 0 <= i < k < queue@.len() implies config_key(
                            (#[trigger] queue@[i]).config(),
                        ) != config_key((#[trigger] queue@[k]).config()) by {
                            if k == old_q2.len() {
                                assert(queue@[i] == old_q2[i]);
                                assert(config_key(old_q2[i].config()) != nk);
                            }
                        }
                        assert forall|c: Config|
                            is_safe(c.0, c.1) && visited@.contains(config_key(c)) && config_key(c) != key
                                implies #[trigger] successors_covered(visited@, queue@, c) by {
                            assert(successors_covered(visited@, old_q2, c));
                        }
                    }
                }
                j = j + 1;
            }
            proof {
                assert forall|c: Config|
                    is_safe(c.0, c.1) && visited@.contains(config_key(c)) implies #[trigger] successors_covered(
                    visited@,
                    queue@,
                    c,
                ) by {
                    if config_key(c) == key {
                        if c != hc {
                            lemma_config_key_injective(c, hc);
                        }
                        assert forall|mv: Move| (#[trigger] sail_to(c, mv)) is Some implies covered(
                            visited@,
                            queue@,
                            sail_to(c, mv)->0,
                        ) by {
                            lemma_sails_complete(c, mv);
                            let i = choose|i: int| 0 <= i < nm.len() && nm[i] == mv;
                            assert(covered(visited@, queue@, neighbours@[i].config()));
                        }
                    }
                }
            }
        }
        proof {
            assert forall|ms: Seq<Move>| !(#[trigger] apply_sails(initial(), ms) matches Some(g) && is_goal(g)) by {
                lemma_closed_reach(visited@, queue@, ms);
                if let Some(g) = apply_sails(initial(), ms) {
                    if is_goal(g) {
                        assert(covered(visited@, queue@, g));
                    }
                }
            }
        }
        (trace.graphs(), None)
    }
}


/// Takes entries off the top of `stack` until one is found whose key is not yet in `visited`;
/// marks that key visited and hands the entry out. The entries dropped on the way all had
/// visited keys, and a key already in `visited` is never handed out again.
pub fn next_unexpanded(stack: &mut Vec<State>, visited: &mut HashSet<u64>) -> (r: Option<State>)
    ensures
        final(stack)@.len() <= old(stack)@.len(),
        final(stack)@ == old(stack)@.subrange(0, final(stack)@.len() as int),
        forall|i: int|
            final(stack)@.len() + (if r is Some { 1int } else { 0int }) <= i < old(stack)@.len()
                ==> old(visited)@.contains(config_key((#[trigger] old(stack)@[i]).config())),
        r is None ==> final(stack)@.len() == 0 && final(visited)@ == old(visited)@,
        r matches Some(e) ==> {
            &&& final(stack)@.len() < old(stack)@.len()
            &&& e == old(stack)@[final(stack)@.len() as int]
            &&& !old(visited)@.contains(config_key(e.config()))
            &&& final(visited)@ == old(visited)@.insert(config_key(e.config()))
        },
{
    while stack.len() > 0
        invariant
            stack@.len() <= old(stack)@.len(),
            stack@ == old(stack)@.subrange(0, stack@.len() as int),
            *visited == *old(visited),
            forall|i: int|
                stack@.len() <= i < old(stack)@.len() ==> old(visited)@.contains(
                    config_key((#[trigger] old(stack)@[i]).config()),
                ),
        decreases stack@.len(),
    {
        let ghost before = stack@;
        let e = stack.pop().unwrap();
        let k = e.repr();
        if !visited.contains(&k) {
            visited.insert(k);
            return Some(e);
        }
        assert(e == old(stack)@[stack@.len() as int]);
    }
    None
}

proof fn lemma_covered_after_pop(
    v: Set<u64>,
    f: Seq<State>,
    v2: Set<u64>,
    f2: Seq<State>,
    extra: int,
    c: Config,
)
    requires
        v.subset_of(v2),
        f2 == f.subrange(0, f2.len() as int),
        f2.len() + extra <= f.len(),
        0 <= extra <= 1,
        extra == 1 ==> v2.contains(config_key(f[f2.len() as int].config())),
        forall|i: int|
            f2.len() + extra <= i < f.len() ==> v.contains(config_key((#[trigger] f[i]).config())),
    ensures
        covered(v, f, c) ==> covered(v2, f2, c),
{
    if has_key(f, config_key(c)) {
        let i = choose|i: int| 0 <= i < f.len() && config_key(#[trigger] f[i].config()) == config_key(c);
        if i < f2.len() {
            assert(f2[i] == f[i]);
        }
    }
}

impl State {
    /// Depth-first search from the start: the most recently found state is expanded first,
    /// each configuration at most once, and the search stops when the state taken for
    /// expansion is a goal. A successor is dropped when its configuration was expanded
    /// already; one that is still waiting on the stack is pushed again.
    pub fn build_depth_first_tree() -> (r: (Vec<String>, Option<State>))
        ensures
            r.0@.len() >= 1,
            is_cumulative(r.0@),
            forall|i: int| 0 <= i < r.0@.len() ==> is_graph(#[trigger] r.0@[i]@),
            statements_ok(r.0@, |l: Seq<char>| crossing_statement(false, l)),
            r.0@[0]@ == graph_text(node_line(config_id(initial()), config_label(initial()), NodeColor::Blue, false)),
            r.1 is Some <==> goal_reachable(),
            r.1 matches Some(s) ==> is_solution(s),
    {
        let mut trace = Trace::new(true);
        let game = State::new();
        trace.add_node(&game.to_string(), &game.label(), NodeColor::Blue, false);
        trace.snapshot();
        proof {
            reveal(crossing_statement);
            assert(apply_sails(initial(), Seq::<Move>::empty()) == Some(initial()));
            assert(crossing_statement(false, node_line(config_id(initial()), config_label(initial()), crossing_color(initial(), 0, false), false)));
        }
        let ghost first = node_line(config_id(initial()), config_label(initial()), NodeColor::Blue, false);
        assert(opens_with(trace, true, first));
        let mut stack: Vec<State> = Vec::new();
        let mut visited: HashSet<u64> = HashSet::new();
        stack.push(game);
        proof {
            assert(apply_sails(initial(), Seq::<Move>::empty()) == Some(initial()));
            assert(config_key(stack@[0].config()) == config_key(initial()));
        }
        while stack.len() > 0
            invariant
                trace.wf(),
                opens_with(trace, true, first),
                forall|i: int|
                    0 <= i < trace.lines().len() ==> crossing_statement(false,
                        #[trigger] trace.lines()[i],
                    ),
                first == node_line(config_id(initial()), config_label(initial()), NodeColor::Blue, false),
                forall|i: int| 0 <= i < stack@.len() ==> entry_ok(#[trigger] stack@[i]),
                forall|c: Config|
                    is_safe(c.0, c.1) && visited@.contains(config_key(c))
                        ==> #[trigger] successors_covered(visited@, stack@, c),
                forall|c: Config| is_goal(c) ==> !#[trigger] visited@.contains(config_key(c)),
                covered(visited@, stack@, initial()),
                visited@.finite(),
                forall|k: u64| visited@.contains(k) ==> k < KEY_BOUND,
            decreases KEY_BOUND - visited@.len(), stack@.len(),
        {
            proof {
                lemma_visited_bound(visited@, KEY_BOUND);
            }
            let ghost old_s = stack@;
            let ghost old_v = visited@;
            let next = next_unexpanded(&mut stack, &mut visited);
            let ghost extra: int = if next is Some { 1int } else { 0int };
            proof {
                assert forall|c: Config| #[trigger] covered(old_v, old_s, c) implies covered(
                    visited@,
                    stack@,
                    c,
                ) by {
                    lemma_covered_after_pop(old_v, old_s, visited@, stack@, extra, c);
                }
                assert forall|i: int| 0 <= i < stack@.len() implies entry_ok(#[trigger] stack@[i]) by {
                    assert(stack@[i] == old_s[i]);
                }
                assert forall|c: Config|
                    is_safe(c.0, c.1) && old_v.contains(config_key(c)) implies #[trigger] successors_covered(
                    visited@,
                    stack@,
                    c,
                ) by {
                    assert(successors_covered(old_v, old_s, c));
                }
            }
            match next {
                None => {},
                Some(mut current) => {
                    let ghost hc = current.config();
                    let ghost hh = current.history();
                    proof {
                        assert(entry_ok(old_s[stack@.len() as int]));
                        lemma_key_bound(hc);
                        lemma_visited_bound(visited@, KEY_BOUND);
                    }
                    if current.is_game_complete() {
                        proof {
                            assert(goal_reachable()) by {
                                assert(apply_sails(initial(), hh) == Some(hc));
                            }
                        }
                        assert(opens_with(trace, true, first));
                        return (trace.graphs(), Some(current));
                    }
                    proof {
                        assert forall|c: Config| is_goal(c) implies !#[trigger] visited@.contains(
                            config_key(c),
                        ) by {
                            if config_key(c) == config_key(hc) {
                                lemma_config_key_injective(c, hc);
                            }
                        }
                    }
                    let current_id = current.to_string();
                    let key = current.repr();
                    let neighbours = current.discover_neighbours();
                    let ghost nm = legal_sails(hc);
                    let mut j: usize = 0;
                    while j < neighbours.len()
                        invariant
                            is_safe(hc.0, hc.1),
                            trace.wf(),
                            opens_with(trace, true, first),
                            forall|i: int|
                                0 <= i < trace.lines().len() ==> crossing_statement(false,
                                    #[trigger] trace.lines()[i],
                                ),
                            first == node_line(config_id(initial()), config_label(initial()), NodeColor::Blue, false),
                            apply_sails(initial(), hh) == Some(hc),
                            current_id@ == config_id(hc),
                            key == config_key(hc),
                            visited@.contains(key),
                            nm == legal_sails(hc),
                            neighbours@.len() == nm.len(),
                            forall|i: int|
                                0 <= i < neighbours@.len() ==> {
                                    let m = #[trigger] nm[i];
                                    &&& neighbours@[i].config() == sail_to(hc, m)->0
                                    &&& neighbours@[i].history() == hh.push(m)
                                },
                            forall|i: int| 0 <= i < stack@.len() ==> entry_ok(#[trigger] stack@[i]),
                            forall|c: Config|
                                is_safe(c.0, c.1) && visited@.contains(config_key(c)) && config_key(c)
                                    != key ==> #[trigger] successors_covered(visited@, stack@, c),
                            forall|i: int|
                                0 <= i < j ==> covered(
                                    visited@,
                                    stack@,
                                    (#[trigger] neighbours@[i]).config(),
                                ),
                            j <= neighbours@.len(),
                            forall|c: Config| is_goal(c) ==> !#[trigger] visited@.contains(config_key(c)),
                            covered(visited@, stack@, initial()),
                            visited@.finite(),
                            forall|k: u64| visited@.contains(k) ==> k < KEY_BOUND,
                        decreases neighbours@.len() - j,
                    {
                        let ghost m = nm[j as int];
                        proof {
                            lemma_sails_sound(hc, j as int);
                            lemma_apply_sails_push(initial(), hh, m);
                        }
                        let nk = neighbours[j].repr();
                        if visited.contains(&nk) {
                            trace.snapshot();
                        } else {
                            let n = neighbours[j].leaf_copy();
                            let ghost nc = n.config();
                            assert(neighbours@[j as int].config() == sail_to(hc, m)->0);
                            let ghost lines0 = trace.lines();
                            trace.add_node(&n.to_string(), &n.label(), NodeColor::Blue, false);
                            let label = last_move_label(&n);
                            trace.add_edge(&current_id, &n.to_string(), label.as_str());
                            proof {
                                lemma_expansion_statements(false, hh, hc, m, n.config());
                                assert(n.history().last() == m);
                                let l1 = node_line(config_id(n.config()), config_label(n.config()), crossing_color(n.config(), hh.len() + 1, false), false);
                                let l2 = edge_line(config_id(hc), config_id(n.config()), move_name(m));
                                assert(trace.lines() == lines0.push(l1).push(l2));
                                assert forall|i: int| 0 <= i < trace.lines().len() implies crossing_statement(false, #[trigger] trace.lines()[i]) by {
                                    if i < lines0.len() {
                                        assert(trace.lines()[i] == lines0[i]);
                                    }
                                }
                            }
                            trace.snapshot();
                            let ghost old_s2 = stack@;
                            stack.push(n);
                            proof {
                                assert forall|c: Config| #[trigger] covered(visited@, stack@, c) == (
                                covered(visited@, old_s2, c) || config_key(c) == config_key(nc)) by {
                                    lemma_covered_push(visited@, old_s2, n, c);
                                }
                                assert forall|i: int| 0 <= i < stack@.len() implies entry_ok(
                                    #[trigger] stack@[i],
                                ) by {
                                    if i < old_s2.len() {
                                        assert(stack@[i] == old_s2[i]);
                                    }
                                }
                                assert forall|c: Config|
                                    is_safe(c.0, c.1) && visited@.contains(config_key(c))
                                        && config_key(c) != key implies #[trigger] successors_covered(
                                    visited@,
                                    stack@,
                                    c,
                                ) by {
                                    assert(successors_covered(visited@, old_s2, c));
                                }
                            }
                        }
                        j = j + 1;
                    }
                    proof {
                        assert forall|c: Config|
                            is_safe(c.0, c.1) && visited@.contains(config_key(c)) implies #[trigger] successors_covered(
                            visited@,
                            stack@,
                            c,
                        ) by {
                            if config_key(c) == key {
                                if c != hc {
                                    lemma_config_key_injective(c, hc);
                                }
                                assert forall|mv: Move| (#[trigger] sail_to(c, mv)) is Some implies covered(
                                    visited@,
                                    stack@,
                                    sail_to(c, mv)->0,
                                ) by {
                                    lemma_sails_complete(c, mv);
                                    let i = choose|i: int| 0 <= i < nm.len() && nm[i] == mv;
                                    assert(covered(visited@, stack@, neighbours@[i].config()));
                                }
                            }
                        }
                    }
                },
            }
        }
        proof {
            assert forall|ms: Seq<Move>| !(#[trigger] apply_sails(initial(), ms) matches Some(g) && is_goal(g)) by {
                lemma_closed_reach(visited@, stack@, ms);
            }
        }
        (trace.graphs(), None)
    }
}


/// Two states are equal when their configurations are; history and children do not count.
impl PartialEq for State {
    fn eq(&self, other: &State) -> (r: bool) {
        self.missionaries == other.missionaries && self.cannibals == other.cannibals && self.boat
            == other.boat
    }
}

impl vstd::std_specs::cmp::PartialEqSpecImpl for State {
    open spec fn obeys_eq_spec() -> bool {
        true
    }

    open spec fn eq_spec(&self, other: &State) -> bool {
        self.config() == other.config()
    }
}

proof fn lemma_prefix_append(p: Seq<char>, a: Seq<char>, b: Seq<char>)
    requires
        p.is_prefix_of(a),
    ensures
        p.is_prefix_of(a + b),
{
    assert((a + b).subrange(0, p.len() as int) =~= a.subrange(0, p.len() as int));
}

/// The fill colour of a node for `c`, reached in `n` crossings: blue throughout unless
/// `colored`; otherwise blue for the start, green for a goal and white for the rest.
pub open spec fn crossing_color(c: Config, n: nat, colored: bool) -> NodeColor {
    if !colored || n == 0 {
        NodeColor::Blue
    } else if is_goal(c) {
        NodeColor::Green
    } else {
        NodeColor::White
    }
}

/// `l` declares a configuration that the start reaches by some `ms`, or the edge of an
/// accepted crossing between two configurations that the start reaches.
#[verifier::opaque]
pub open spec fn crossing_statement(colored: bool, l: Seq<char>) -> bool {
    ||| exists|ms: Seq<Move>|
        #[trigger] apply_sails(initial(), ms) is Some && l == node_line(
            config_id(apply_sails(initial(), ms)->0),
            config_label(apply_sails(initial(), ms)->0),
            crossing_color(apply_sails(initial(), ms)->0, ms.len(), colored),
            colored,
        )
    ||| exists|ms: Seq<Move>|
        ms.len() > 0 && #[trigger] apply_sails(initial(), ms) is Some && l == edge_line(
            config_id(apply_sails(initial(), ms.drop_last())->0),
            config_id(apply_sails(initial(), ms)->0),
            move_name(ms.last()),
        )
}

/// Expanding a reached configuration `hc` by crossing `m` writes two statements that
/// `crossing_statement` accepts: the node of the successor and the edge to it.
proof fn lemma_expansion_statements(colored: bool, hh: Seq<Move>, hc: Config, m: Move, nc: Config)
    requires
        apply_sails(initial(), hh) == Some(hc),
        sail_to(hc, m) == Some(nc),
    ensures
        crossing_statement(
            colored,
            node_line(
                config_id(nc),
                config_label(nc),
                crossing_color(nc, hh.len() + 1, colored),
                colored,
            ),
        ),
        crossing_statement(colored, edge_line(config_id(hc), config_id(nc), move_name(m))),
{
    reveal(crossing_statement);
    let ms = hh.push(m);
    lemma_apply_sails_push(initial(), hh, m);
    assert(ms.drop_last() =~= hh);
    assert(apply_sails(initial(), ms) is Some);
}

/// The statement `build_tree` writes for configuration `c`.
pub open spec fn plain_node(c: Config) -> Seq<char> {
    node_line(config_id(c), config_label(c), NodeColor::Blue, false)
}

impl State {
    /// One graph of the whole breadth-first exploration from the start: every state taken
    /// off the queue whose configuration was not expanded before is expanded, and each new
    /// successor is declared with the edge that reached it. The graph opens with the start
    /// and declares every configuration that the start can reach.
    pub fn build_tree() -> (r: String)
        ensures
            exists|body: Seq<char>|
                {
                    &&& r@ == graph_text(body)
                    &&& plain_node(initial()).is_prefix_of(body)
                    &&& forall|ms: Seq<Move>|
                        #[trigger] apply_sails(initial(), ms) matches Some(c) ==> occurs_in(
                            plain_node(c),
                            body,
                        )
                },
            statements_ok(seq![r], |l: Seq<char>| crossing_statement(false, l)),
    {
        let mut trace = Trace::new(true);
        let game = State::new();
        trace.add_node(&game.to_string(), &game.label(), NodeColor::Blue, false);
        let ghost first = plain_node(initial());
        assert(trace.bodies()[0] =~= first);
        proof {
            reveal(crossing_statement);
            assert(apply_sails(initial(), Seq::<Move>::empty()) == Some(initial()));
            assert(crossing_statement(false, plain_node(initial())));
            lemma_occurs_append(first, Seq::empty(), first);
            assert(Seq::<char>::empty() + first =~= first);
        }
        let mut queue: Vec<State> = Vec::new();
        let mut visited: HashSet<u64> = HashSet::new();
        queue.push(game);
        assert(config_key(queue@[0].config()) == config_key(initial()));
        while queue.len() > 0
            invariant
                trace.wf(),
                forall|i: int|
                    0 <= i < trace.lines().len() ==> crossing_statement(false,
                        #[trigger] trace.lines()[i],
                    ),
                forall|i: int| 0 <= i < queue@.len() ==> entry_ok(#[trigger] queue@[i]),
                trace.is_enabled(),
                trace.bodies().len() == 1,
                first == plain_node(initial()),
                first.is_prefix_of(trace.bodies()[0]),
                forall|i: int|
                    0 <= i < queue@.len() ==> is_safe(
                        (#[trigger] queue@[i]).config().0,
                        queue@[i].config().1,
                    ),
                forall|i: int|
                    0 <= i < queue@.len() ==> occurs_in(
                        plain_node((#[trigger] queue@[i]).config()),
                        trace.bodies()[0],
                    ),
                forall|c: Config|
                    is_safe(c.0, c.1) && visited@.contains(config_key(c)) ==> occurs_in(
                        #[trigger] plain_node(c),
                        trace.bodies()[0],
                    ),
                forall|c: Config|
                    is_safe(c.0, c.1) && visited@.contains(config_key(c))
                        ==> #[trigger] successors_covered(visited@, queue@, c),
                covered(visited@, queue@, initial()),
                visited@.finite(),
                forall|k: u64| visited@.contains(k) ==> k < KEY_BOUND,
            decreases KEY_BOUND - visited@.len(), queue@.len(),
        {
            proof {
                lemma_visited_bound(visited@, KEY_BOUND);
            }
            let ghost old_q = queue@;
            let ghost old_v = visited@;
            let mut current = queue.remove(0);
            let key = current.repr();
            let ghost hc = current.config();
            let ghost hh = current.history();
            proof {
                assert(entry_ok(old_q[0]));
                assert forall|i: int| 0 <= i < queue@.len() implies entry_ok(#[trigger] queue@[i]) by {
                    assert(queue@[i] == old_q[i + 1]);
                }
                assert(is_safe(old_q[0].config().0, old_q[0].config().1));
                assert(occurs_in(plain_node(old_q[0].config()), trace.bodies()[0]));
                assert(old_q.remove(0) =~= queue@);
                assert forall|i: int| 0 <= i < queue@.len() implies is_safe(
                    (#[trigger] queue@[i]).config().0,
                    queue@[i].config().1,
                ) && occurs_in(plain_node(queue@[i].config()), trace.bodies()[0]) by {
                    assert(queue@[i] == old_q[i + 1]);
                }
            }
            if !visited.contains(&key) {
                visited.insert(key);
                proof {
                    lemma_key_bound(hc);
                    lemma_visited_bound(visited@, KEY_BOUND);
                    assert forall|c: Config| #[trigger] covered(visited@, queue@, c) == covered(
                        old_v,
                        old_q,
                        c,
                    ) by {
                        lemma_covered_pop(old_v, old_q, c);
                    }
                    assert forall|c: Config|
                        is_safe(c.0, c.1) && visited@.contains(config_key(c)) implies occurs_in(
                        #[trigger] plain_node(c),
                        trace.bodies()[0],
                    ) by {
                        if config_key(c) == key && c != hc {
                            lemma_config_key_injective(c, hc);
                        }
                    }
                    assert forall|c: Config|
                        is_safe(c.0, c.1) && visited@.contains(config_key(c)) && config_key(c)
                            != key implies #[trigger] successors_covered(visited@, queue@, c) by {
                        assert(successors_covered(old_v, old_q, c));
                    }
                }
                let current_id = current.to_string();
                let neighbours = current.discover_neighbours();
                let ghost nm = legal_sails(hc);
                let mut j: usize = 0;
                while j < neighbours.len()
                    invariant
                        trace.wf(),
                        forall|i: int|
                            0 <= i < trace.lines().len() ==> crossing_statement(false,
                                #[trigger] trace.lines()[i],
                            ),
                        forall|i: int| 0 <= i < queue@.len() ==> entry_ok(#[trigger] queue@[i]),
                        apply_sails(initial(), hh) == Some(hc),
                        current_id@ == config_id(hc),
                        forall|i: int|
                            0 <= i < neighbours@.len() ==> (#[trigger] neighbours@[i]).history() == hh.push(nm[i]),
                        trace.is_enabled(),
                        trace.bodies().len() == 1,
                        first.is_prefix_of(trace.bodies()[0]),
                        is_safe(hc.0, hc.1),
                        key == config_key(hc),
                        visited@.contains(key),
                        nm == legal_sails(hc),
                        neighbours@.len() == nm.len(),
                        forall|i: int|
                            0 <= i < neighbours@.len() ==> (#[trigger] neighbours@[i]).config()
                                == sail_to(hc, nm[i])->0 && neighbours@[i].history().len() > 0,
                        forall|i: int|
                            0 <= i < queue@.len() ==> is_safe(
                                (#[trigger] queue@[i]).config().0,
                                queue@[i].config().1,
                            ),
                        forall|i: int|
                            0 <= i < queue@.len() ==> occurs_in(
                                plain_node((#[trigger] queue@[i]).config()),
                                trace.bodies()[0],
                            ),
                        forall|c: Config|
                            is_safe(c.0, c.1) && visited@.contains(config_key(c)) ==> occurs_in(
                                #[trigger] plain_node(c),
                                trace.bodies()[0],
                            ),
                        forall|c: Config|
                            is_safe(c.0, c.1) && visited@.contains(config_key(c)) && config_key(c)
                                != key ==> #[trigger] successors_covered(visited@, queue@, c),
                        forall|i: int|
                            0 <= i < j ==> covered(visited@, queue@, (#[trigger] neighbours@[i]).config()),
                        j <= neighbours@.len(),
                        covered(visited@, queue@, initial()),
                        visited@.finite(),
                        visited@.len() <= KEY_BOUND,
                        forall|k: u64| visited@.contains(k) ==> k < KEY_BOUND,
                    decreases neighbours@.len() - j,
                {
                    proof {
                        lemma_sails_sound(hc, j as int);
                    }
                    let nk = neighbours[j].repr();
                    if !visited.contains(&nk) {
                        let n = neighbours[j].leaf_copy();
                        let ghost nc = n.config();
                        let ghost b0 = trace.bodies()[0];
                        let ghost lines0 = trace.lines();
                        let ghost m = nm[j as int];
                        proof {
                            lemma_apply_sails_push(initial(), hh, m);
                        }
                        let id = n.to_string();
                        trace.add_node(&id, &n.label(), NodeColor::Blue, false);
                        let ghost b1 = trace.bodies()[0];
                        let label = last_move_label(&n);
                        trace.add_edge(&current_id, &id, label.as_str());
                        let ghost b2 = trace.bodies()[0];
                        proof {
                            lemma_expansion_statements(false, hh, hc, m, nc);
                            assert(n.history().last() == m);
                            let l2 = edge_line(config_id(hc), config_id(nc), move_name(m));
                            assert(crossing_color(nc, hh.len() + 1, false) == NodeColor::Blue);
                            assert(trace.lines() == lines0.push(plain_node(nc)).push(l2));
                            assert forall|i: int| 0 <= i < trace.lines().len() implies crossing_statement(false, #[trigger] trace.lines()[i]) by {
                                if i < lines0.len() {
                                    assert(trace.lines()[i] == lines0[i]);
                                }
                            }
                        }
                        let ghost e1 = b1.subrange(b0.len() as int, b1.len() as int);
                        let ghost e2 = b2.subrange(b1.len() as int, b2.len() as int);
                        proof {
                            assert(b1 =~= b0 + e1);
                            assert(b2 =~= b1 + e2);
                            assert(e1 =~= plain_node(nc));
                            lemma_prefix_append(first, b0, e1);
                            lemma_prefix_append(first, b1, e2);
                            lemma_occurs_append(plain_node(nc), b0, plain_node(nc));
                            lemma_occurs_append(plain_node(nc), b1, e2);
                            assert forall|x: Seq<char>| occurs_in(x, b0) implies occurs_in(x, b2) by {
                                lemma_occurs_append(x, b0, e1);
                                lemma_occurs_append(x, b1, e2);
                            }
                        }
                        let ghost old_q2 = queue@;
                        queue.push(n);
                        proof {
                            lemma_key_bound(nc);
                            assert forall|c: Config| #[trigger] covered(visited@, queue@, c) == (
                            covered(visited@, old_q2, c) || config_key(c) == config_key(nc)) by {
                                lemma_covered_push(visited@, old_q2, n, c);
                            }
                            assert forall|i: int| 0 <= i < queue@.len() implies entry_ok(#[trigger] queue@[i]) by {
                                if i < old_q2.len() {
                                    assert(queue@[i] == old_q2[i]);
                                }
                            }
                            assert forall|i: int| 0 <= i < queue@.len() implies is_safe(
                                (#[trigger] queue@[i]).config().0,
                                queue@[i].config().1,
                            ) && occurs_in(plain_node(queue@[i].config()), trace.bodies()[0]) by {
                                if i < old_q2.len() {
                                    assert(queue@[i] == old_q2[i]);
                                    assert(occurs_in(plain_node(old_q2[i].config()), b0));
                                }
                            }
                            assert forall|c: Config|
                                is_safe(c.0, c.1) && visited@.contains(config_key(c)) implies occurs_in(
                                #[trigger] plain_node(c),
                                trace.bodies()[0],
                            ) by {
                                assert(occurs_in(plain_node(c), b0));
                            }
                            assert forall|c: Config|
                                is_safe(c.0, c.1) && visited@.contains(config_key(c)) && config_key(c)
                                    != key implies #[trigger] successors_covered(visited@, queue@, c) by {
                                assert(successors_covered(visited@, old_q2, c));
                            }
                        }
                    }
                    j = j + 1;
                }
                proof {
                    assert forall|c: Config|
                        is_safe(c.0, c.1) && visited@.contains(config_key(c)) implies #[trigger] successors_covered(
                        visited@,
                        queue@,
                        c,
                    ) by {
                        if config_key(c) == key {
                            if c != hc {
                                lemma_config_key_injective(c, hc);
                            }
                            assert forall|mv: Move| (#[trigger] sail_to(c, mv)) is Some implies covered(
                                visited@,
                                queue@,
                                sail_to(c, mv)->0,
                            ) by {
                                lemma_sails_complete(c, mv);
                                let i = choose|i: int| 0 <= i < nm.len() && nm[i] == mv;
                                assert(covered(visited@, queue@, neighbours@[i].config()));
                            }
                        }
                    }
                }
            } else {
                proof {
                    assert(old_v.insert(key) =~= old_v);
                    assert forall|c: Config| #[trigger] covered(visited@, queue@, c) == covered(
                        old_v,
                        old_q,
                        c,
                    ) by {
                        lemma_covered_pop(old_v, old_q, c);
                    }
                    assert forall|c: Config|
                        is_safe(c.0, c.1) && visited@.contains(config_key(c)) implies #[trigger] successors_covered(
                        visited@,
                        queue@,
                        c,
                    ) by {
                        assert(successors_covered(old_v, old_q, c));
                    }
                }
            }
        }
        proof {
            assert forall|ms: Seq<Move>| (#[trigger] apply_sails(initial(), ms)) is Some implies occurs_in(
                plain_node(apply_sails(initial(), ms)->0),
                trace.bodies()[0],
            ) by {
                lemma_closed_reach(visited@, queue@, ms);
                lemma_apply_sails_safe(ms);
            }
        }
        let mut graphs = trace.graphs();
        let ghost all = graphs@;
        let r = graphs.swap_remove(0);
        proof {
            assert(r@ == graph_text(trace.bodies()[0]));
            assert(r == all[0]);
            let p = |l: Seq<char>| crossing_statement(false, l);
            assert(statements_ok(all, p));
            assert(seq![r][0] == all[0]);
        }
        r
    }
}


impl State {
    /// Missionaries on the starting bank.
    pub fn missionaries(&self) -> (r: u8)
        ensures
            r as int == self.config().0,
    {
        self.missionaries
    }

    /// Cannibals on the starting bank.
    pub fn cannibals(&self) -> (r: u8)
        ensures
            r as int == self.config().1,
    {
        self.cannibals
    }

    /// Whether the boat is on the starting bank.
    pub fn boat(&self) -> (r: bool)
        ensures
            r == self.config().2,
    {
        self.boat
    }

    /// The crossings that led here from the start.
    pub fn sail_history(&self) -> (r: &Vec<Move>)
        ensures
            r@ == self.history(),
    {
        &self.sail_history
    }
}

} // verus!
