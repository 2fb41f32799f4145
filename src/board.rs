use vstd::prelude::*;

verus! {

/// A shift of the blank cell on the 3x3 board.
#[derive(Clone, Copy, Debug, PartialEq, Eq, Structural)]
pub enum Move {
    Left,
    Up,
    Down,
    Right,
}

/// Nine cells holding the tiles 1..=8 and the blank 0, each of them once.
pub open spec fn is_board(b: Seq<u8>) -> bool {
    &&& b.len() == 9
    &&& forall|i: int| 0 <= i < 9 ==> #[trigger] b[i] < 9
    &&& forall|v: u8| v < 9 ==> #[trigger] b.contains(v)
}

pub open spec fn is_first_index(b: Seq<u8>, v: u8, i: int) -> bool {
    &&& 0 <= i < b.len()
    &&& b[i] == v
    &&& forall|j: int| 0 <= j < i ==> b[j] != v
}

/// The first cell that holds `v`.
pub open spec fn first_index(b: Seq<u8>, v: u8) -> int {
    choose|i: int| is_first_index(b, v, i)
}

/// The cell the blank moves to from `blank`, unless the move leaves the board.
pub open spec fn destination(blank: int, m: Move) -> Option<int> {
    match m {
        Move::Left => if blank % 3 != 0 { Some(blank - 1) } else { None },
        Move::Up => if blank >= 3 { Some(blank - 3) } else { None },
        Move::Down => if blank < 6 { Some(blank + 3) } else { None },
        Move::Right => if blank % 3 != 2 { Some(blank + 1) } else { None },
    }
}

/// The board after one move, or `None` where the move is rejected.
pub open spec fn step(b: Seq<u8>, m: Move) -> Option<Seq<u8>> {
    let blank = first_index(b, 0);
    match destination(blank, m) {
        Some(d) => Some(b.update(blank, b[d]).update(d, 0)),
        None => None,
    }
}

/// The board reached by playing `ms` in order from `b`, if every move is accepted.
pub open spec fn apply_moves(b: Seq<u8>, ms: Seq<Move>) -> Option<Seq<u8>>
    decreases ms.len(),
{
    if ms.len() == 0 {
        Some(b)
    } else {
        match apply_moves(b, ms.drop_last()) {
            Some(c) => step(c, ms.last()),
            None => None,
        }
    }
}

/// `c` can be reached from `b` in at most `k` moves.
pub open spec fn reachable_within(b: Seq<u8>, c: Seq<u8>, k: int) -> bool {
    exists|ms: Seq<Move>| ms.len() <= k && #[trigger] apply_moves(b, ms) == Some(c)
}

/// `c` can be reached from `b` by some sequence of moves.
pub open spec fn reachable(b: Seq<u8>, c: Seq<u8>) -> bool {
    exists|ms: Seq<Move>| #[trigger] apply_moves(b, ms) == Some(c)
}

/// The moves accepted on `b`, in the fixed order Left, Up, Down, Right.
pub open spec fn legal_moves(b: Seq<u8>) -> Seq<Move> {
    let s0 = Seq::<Move>::empty();
    let s1 = if step(b, Move::Left) is Some { s0.push(Move::Left) } else { s0 };
    let s2 = if step(b, Move::Up) is Some { s1.push(Move::Up) } else { s1 };
    let s3 = if step(b, Move::Down) is Some { s2.push(Move::Down) } else { s2 };
    if step(b, Move::Right) is Some { s3.push(Move::Right) } else { s3 }
}

/// The canonical key: cell `i` in bits `4 * i .. 4 * i + 4`.
pub open spec fn key_of(b: Seq<u8>) -> u64 {
    (b[0] as u64) | ((b[1] as u64) << 4u64) | ((b[2] as u64) << 8u64) | ((b[3] as u64) << 12u64)
        | ((b[4] as u64) << 16u64) | ((b[5] as u64) << 20u64) | ((b[6] as u64) << 24u64) | ((
    b[7] as u64) << 28u64) | ((b[8] as u64) << 32u64)
}

/// Number of tiles (the blank excluded) that are not in their cell of `t`, counting cells `i..9`.
pub open spec fn misplaced_from(b: Seq<u8>, t: Seq<u8>, i: int) -> nat
    decreases 9 - i,
{
    if i >= 9 {
        0
    } else {
        (if b[i] != 0 && b[i] != t[i] { 1nat } else { 0nat }) + misplaced_from(b, t, i + 1)
    }
}

pub open spec fn misplaced(b: Seq<u8>, t: Seq<u8>) -> nat {
    misplaced_from(b, t, 0)
}

pub open spec fn abs_diff(x: int, y: int) -> nat {
    if x >= y { (x - y) as nat } else { (y - x) as nat }
}

/// Grid distance between cells `p` and `q`.
pub open spec fn cell_distance(p: int, q: int) -> nat {
    abs_diff(p % 3, q % 3) + abs_diff(p / 3, q / 3)
}

/// Sum of the grid distances of the tiles `v..=8` between `b` and `t`.
pub open spec fn manhattan_from(b: Seq<u8>, t: Seq<u8>, v: int) -> nat
    decreases 9 - v,
{
    if v >= 9 || v < 0 {
        0
    } else {
        cell_distance(first_index(b, v as u8), first_index(t, v as u8)) + manhattan_from(b, t, v + 1)
    }
}

pub open spec fn manhattan(b: Seq<u8>, t: Seq<u8>) -> nat {
    manhattan_from(b, t, 1)
}

pub proof fn lemma_first_index_unique(b: Seq<u8>, v: u8, i: int)
    requires
        is_first_index(b, v, i),
    ensures
        first_index(b, v) == i,
{
    let k = first_index(b, v);
    assert(is_first_index(b, v, k));
    if k < i {
        assert(b[k] != v);
    } else if i < k {
        assert(b[i] != v);
    }
}

pub proof fn lemma_first_index_exists(b: Seq<u8>, v: u8, k: int)
    requires
        0 <= k < b.len(),
        b[k] == v,
    ensures
        is_first_index(b, v, first_index(b, v)),
        first_index(b, v) <= k,
    decreases k,
{
    if exists|j: int| 0 <= j < k && b[j] == v {
        let j = choose|j: int| 0 <= j < k && b[j] == v;
        lemma_first_index_exists(b, v, j);
    } else {
        assert(is_first_index(b, v, k));
        lemma_first_index_unique(b, v, k);
    }
}

/// A move keeps a board a board.
pub proof fn lemma_step_board(b: Seq<u8>, m: Move)
    requires
        is_board(b),
    ensures
        step(b, m) matches Some(c) ==> is_board(c),
{
    if let Some(c) = step(b, m) {
        assert(b.contains(0u8));
        let w = choose|i: int| 0 <= i < b.len() && b[i] == 0u8;
        lemma_first_index_exists(b, 0u8, w);
        let blank = first_index(b, 0u8);
        let d = destination(blank, m)->0;
        assert forall|v: u8| v < 9 implies #[trigger] c.contains(v) by {
            assert(b.contains(v));
            let p = choose|i: int| 0 <= i < b.len() && b[i] == v;
            if p == blank {
                assert(c[d] == v);
            } else if p == d {
                assert(c[blank] == v);
            } else {
                assert(c[p] == v);
            }
        }
    }
}

/// Every board reached from a board is a board.
pub proof fn lemma_apply_moves_board(b: Seq<u8>, ms: Seq<Move>)
    requires
        is_board(b),
    ensures
        apply_moves(b, ms) matches Some(c) ==> is_board(c),
    decreases ms.len(),
{
    if ms.len() > 0 {
        lemma_apply_moves_board(b, ms.drop_last());
        if let Some(c) = apply_moves(b, ms.drop_last()) {
            lemma_step_board(c, ms.last());
        }
    }
}

/// Playing one more move extends the reached board by that move.
pub proof fn lemma_apply_push(b: Seq<u8>, ms: Seq<Move>, m: Move)
    ensures
        apply_moves(b, ms.push(m)) == (match apply_moves(b, ms) {
            Some(c) => step(c, m),
            None => None,
        }),
{
    assert(ms.push(m).drop_last() == ms);
}

/// `legal_moves` holds accepted moves only.
pub proof fn lemma_legal_moves_sound(b: Seq<u8>, i: int)
    requires
        0 <= i < legal_moves(b).len(),
    ensures
        step(b, legal_moves(b)[i]) is Some,
{
}

/// Every accepted move appears in `legal_moves`.
pub proof fn lemma_legal_moves_complete(b: Seq<u8>, m: Move)
    requires
        step(b, m) is Some,
    ensures
        legal_moves(b).contains(m),
{
    let l = legal_moves(b);
    match m {
        Move::Left => assert(l[0] == m),
        Move::Up => {
            if step(b, Move::Left) is Some { assert(l[1] == m) } else { assert(l[0] == m) }
        },
        Move::Down => {
            let k: int = (if step(b, Move::Left) is Some { 1int } else { 0int }) + (if step(b, Move::Up) is Some { 1int } else { 0int });
            assert(l[k] == m);
        },
        Move::Right => {
            let k: int = (if step(b, Move::Left) is Some { 1int } else { 0int }) + (if step(b, Move::Up) is Some { 1int } else { 0int }) + (if step(b, Move::Down) is Some { 1int } else { 0int });
            assert(l[k] == m);
        },
    }
}

proof fn lemma_key_cells(b: Seq<u8>)
    requires
        b.len() == 9,
        forall|i: int| 0 <= i < 9 ==> #[trigger] b[i] < 16,
    ensures
        key_of(b) & 15 == b[0] as u64,
        (key_of(b) >> 4u64) & 15 == b[1] as u64,
        (key_of(b) >> 8u64) & 15 == b[2] as u64,
        (key_of(b) >> 12u64) & 15 == b[3] as u64,
        (key_of(b) >> 16u64) & 15 == b[4] as u64,
        (key_of(b) >> 20u64) & 15 == b[5] as u64,
        (key_of(b) >> 24u64) & 15 == b[6] as u64,
        (key_of(b) >> 28u64) & 15 == b[7] as u64,
        (key_of(b) >> 32u64) & 15 == b[8] as u64,
{
    let (x0, x1, x2, x3, x4, x5, x6, x7, x8) = (
        b[0] as u64,
        b[1] as u64,
        b[2] as u64,
        b[3] as u64,
        b[4] as u64,
        b[5] as u64,
        b[6] as u64,
        b[7] as u64,
        b[8] as u64,
    );
    assert(b[0] < 16 && b[1] < 16 && b[2] < 16 && b[3] < 16 && b[4] < 16 && b[5] < 16 && b[6] < 16
        && b[7] < 16 && b[8] < 16);
    let k = key_of(b);
    assert(k == x0 | (x1 << 4u64) | (x2 << 8u64) | (x3 << 12u64) | (x4 << 16u64) | (x5 << 20u64) | (
    x6 << 24u64) | (x7 << 28u64) | (x8 << 32u64));
    assert({
        &&& k & 15 == x0
        &&& (k >> 4u64) & 15 == x1
        &&& (k >> 8u64) & 15 == x2
        &&& (k >> 12u64) & 15 == x3
        &&& (k >> 16u64) & 15 == x4
        &&& (k >> 20u64) & 15 == x5
        &&& (k >> 24u64) & 15 == x6
        &&& (k >> 28u64) & 15 == x7
        &&& (k >> 32u64) & 15 == x8
    }) by (bit_vector)
        requires
            x0 < 16 && x1 < 16 && x2 < 16 && x3 < 16 && x4 < 16 && x5 < 16 && x6 < 16 && x7 < 16
                && x8 < 16,
            k == x0 | (x1 << 4u64) | (x2 << 8u64) | (x3 << 12u64) | (x4 << 16u64) | (x5 << 20u64)
                | (x6 << 24u64) | (x7 << 28u64) | (x8 << 32u64),
    ;
}

/// A key packs nine cells of four bits, so it stays below 2^36.
pub proof fn lemma_key_bound(b: Seq<u8>)
    requires
        is_board(b),
    ensures
        key_of(b) < 0x10_0000_0000,
{
    let (x0, x1, x2, x3, x4, x5, x6, x7, x8) = (
        b[0] as u64,
        b[1] as u64,
        b[2] as u64,
        b[3] as u64,
        b[4] as u64,
        b[5] as u64,
        b[6] as u64,
        b[7] as u64,
        b[8] as u64,
    );
    assert(b[0] < 9 && b[1] < 9 && b[2] < 9 && b[3] < 9 && b[4] < 9 && b[5] < 9 && b[6] < 9 && b[7]
        < 9 && b[8] < 9);
    let k = key_of(b);
    assert(k == x0 | (x1 << 4u64) | (x2 << 8u64) | (x3 << 12u64) | (x4 << 16u64) | (x5 << 20u64) | (
    x6 << 24u64) | (x7 << 28u64) | (x8 << 32u64));
    assert(k < 0x10_0000_0000) by (bit_vector)
        requires
            x0 < 16 && x1 < 16 && x2 < 16 && x3 < 16 && x4 < 16 && x5 < 16 && x6 < 16 && x7 < 16
                && x8 < 16,
            k == x0 | (x1 << 4u64) | (x2 << 8u64) | (x3 << 12u64) | (x4 << 16u64) | (x5 << 20u64)
                | (x6 << 24u64) | (x7 << 28u64) | (x8 << 32u64),
    ;
}

/// Distinct boards have distinct canonical keys.
pub proof fn lemma_key_injective(b: Seq<u8>, c: Seq<u8>)
    requires
        is_board(b),
        is_board(c),
        b != c,
    ensures
        key_of(b) != key_of(c),
{
    lemma_key_cells(b);
    lemma_key_cells(c);
    if key_of(b) == key_of(c) {
        assert(b =~= c);
    }
}

/// The first cell of `b` that holds `v`.
pub fn position(b: &[u8; 9], v: u8) -> (r: usize)
    requires
        b@.contains(v),
    ensures
        r == first_index(b@, v),
        is_first_index(b@, v, r as int),
{
    let mut i: usize = 0;
    while i < 9
        invariant
            i <= 9,
            b@.contains(v),
            forall|j: int| 0 <= j < i ==> b@[j] != v,
        decreases 9 - i,
    {
        if b[i] == v {
            proof {
                lemma_first_index_unique(b@, v, i as int);
            }
            return i;
        }
        i = i + 1;
    }
    proof {
        let w = choose|j: int| 0 <= j < b@.len() && b@[j] == v;
        assert(b@[w] != v);
    }
    0
}

/// Whether `b` holds each of 0..=8 exactly in its nine cells.
pub fn is_valid_board(b: &[u8; 9]) -> (r: bool)
    ensures
        r == is_board(b@),
{
    let mut i: usize = 0;
    while i < 9
        invariant
            i <= 9,
            forall|j: int| 0 <= j < i ==> b@[j] < 9,
        decreases 9 - i,
    {
        if b[i] >= 9 {
            return false;
        }
        i = i + 1;
    }
    let mut v: u8 = 0;
    while v < 9
        invariant
            v <= 9,
            forall|j: int| 0 <= j < 9 ==> b@[j] < 9,
            forall|w: u8| w < v ==> #[trigger] b@.contains(w),
        decreases 9 - v,
    {
        let mut found = false;
        let mut k: usize = 0;
        while k < 9
            invariant
                k <= 9,
                found ==> b@.contains(v),
                !found ==> forall|j: int| 0 <= j < k ==> b@[j] != v,
            decreases 9 - k,
        {
            if b[k] == v {
                found = true;
            }
            k = k + 1;
        }
        if !found {
            assert(!b@.contains(v));
            return false;
        }
        v = v + 1;
    }
    true
}

} // verus!
