use vstd::prelude::*;

verus! {

/// The character of the decimal digit `d`.
pub open spec fn digit_char(d: nat) -> char {
    if d == 0 {
        '0'
    } else if d == 1 {
        '1'
    } else if d == 2 {
        '2'
    } else if d == 3 {
        '3'
    } else if d == 4 {
        '4'
    } else if d == 5 {
        '5'
    } else if d == 6 {
        '6'
    } else if d == 7 {
        '7'
    } else if d == 8 {
        '8'
    } else {
        '9'
    }
}

/// The decimal text of `n`, without leading zeros.
pub open spec fn decimal(n: nat) -> Seq<char>
    decreases n,
{
    if n < 10 {
        seq![digit_char(n)]
    } else {
        decimal(n / 10) + seq![digit_char(n % 10)]
    }
}

/// The fill colour of a node of the graph.
#[derive(Clone, Copy, Debug, PartialEq, Eq, Structural)]
pub enum NodeColor {
    Blue,
    White,
    Green,
}

pub open spec fn color_name(c: NodeColor) -> Seq<char> {
    match c {
        NodeColor::Blue => "blue"@,
        NodeColor::White => "white"@,
        NodeColor::Green => "green"@,
    }
}

/// The statement that declares node `id`; `filled` adds the filled style.
pub open spec fn node_line(id: Seq<char>, label: Seq<char>, c: NodeColor, filled: bool) -> Seq<
    char,
> {
    "    "@ + id + " [label=\""@ + label + "\", fillcolor="@ + color_name(c) + (if filled {
        ", style=filled];\n"@
    } else {
        "];\n"@
    })
}

/// The statement that declares the edge `from -> to`.
pub open spec fn edge_line(from: Seq<char>, to: Seq<char>, label: Seq<char>) -> Seq<char> {
    "    "@ + from + " -> "@ + to + " [label=\""@ + label + "\", color=red];\n"@
}

/// A complete graph description around the statements `body`.
pub open spec fn graph_text(body: Seq<char>) -> Seq<char> {
    "digraph {\n"@ + body + "}"@
}

/// `t` is a complete graph description.
pub open spec fn is_graph(t: Seq<char>) -> bool {
    exists|body: Seq<char>| t == graph_text(body)
}

/// `x` occurs in `s` as a contiguous piece.
pub open spec fn occurs_in(x: Seq<char>, s: Seq<char>) -> bool {
    exists|i: int| 0 <= i && i + x.len() <= s.len() && #[trigger] s.subrange(i, i + x.len()) == x
}

/// A piece of `a` or of `b` is a piece of `a + b`, and `x` is a piece of `a + x`.
pub proof fn lemma_occurs_append(x: Seq<char>, a: Seq<char>, b: Seq<char>)
    ensures
        occurs_in(x, a) ==> occurs_in(x, a + b),
        occurs_in(x, b) ==> occurs_in(x, a + b),
        occurs_in(x, a + x),
{
    if occurs_in(x, a) {
        let i = choose|i: int| 0 <= i && i + x.len() <= a.len() && #[trigger] a.subrange(i, i + x.len()) == x;
        assert((a + b).subrange(i, i + x.len()) =~= a.subrange(i, i + x.len()));
    }
    if occurs_in(x, b) {
        let i = choose|i: int| 0 <= i && i + x.len() <= b.len() && #[trigger] b.subrange(i, i + x.len()) == x;
        assert((a + b).subrange(a.len() + i, a.len() + i + x.len()) =~= b.subrange(i, i + x.len()));
    }
    assert((a + x).subrange(a.len() as int, (a.len() + x.len()) as int) =~= x);
}

/// The statements `ls` written one after the other.
pub open spec fn concat_lines(ls: Seq<Seq<char>>) -> Seq<char>
    decreases ls.len(),
{
    if ls.len() == 0 {
        Seq::empty()
    } else {
        concat_lines(ls.drop_last()) + ls.last()
    }
}

/// Every snapshot in `gs` is a graph whose body is a run of statements, each meeting `p`.
pub open spec fn statements_ok(gs: Seq<String>, p: spec_fn(Seq<char>) -> bool) -> bool {
    forall|k: int|
        0 <= k < gs.len() ==> exists|ls: Seq<Seq<char>>|
            (#[trigger] gs[k]@) == graph_text(concat_lines(ls)) && forall|i: int|
                0 <= i < ls.len() ==> p(#[trigger] ls[i])
}

/// Each snapshot, its closing brace left out, begins the next one.
pub open spec fn is_cumulative(gs: Seq<String>) -> bool {
    forall|i: int, j: int|
        0 <= i < j < gs.len() ==> (#[trigger] gs[i]@).drop_last().is_prefix_of(#[trigger] gs[j]@)
}

/// A recording trace whose first snapshot is `first`, or a silent one with a single empty
/// snapshot.
pub open spec fn opens_with(t: Trace, enabled: bool, first: Seq<char>) -> bool {
    &&& t.is_enabled() == enabled
    &&& enabled ==> t.bodies().len() >= 2 && t.bodies()[0] == first
    &&& !enabled ==> t.bodies() == seq![Seq::<char>::empty()]
}

/// Appends the digit `d` to `s`.
pub fn push_digit(s: &mut String, d: u8)
    requires
        d < 10,
    ensures
        final(s)@ == old(s)@ + seq![digit_char(d as nat)],
{
    proof {
        reveal_strlit("0");
        reveal_strlit("1");
        reveal_strlit("2");
        reveal_strlit("3");
        reveal_strlit("4");
        reveal_strlit("5");
        reveal_strlit("6");
        reveal_strlit("7");
        reveal_strlit("8");
        reveal_strlit("9");
    }
    if d == 0 {
        s.append("0");
    } else if d == 1 {
        s.append("1");
    } else if d == 2 {
        s.append("2");
    } else if d == 3 {
        s.append("3");
    } else if d == 4 {
        s.append("4");
    } else if d == 5 {
        s.append("5");
    } else if d == 6 {
        s.append("6");
    } else if d == 7 {
        s.append("7");
    } else if d == 8 {
        s.append("8");
    } else {
        s.append("9");
    }
    assert(old(s)@ + seq![digit_char(d as nat)] =~= s@);
}

/// Appends the decimal text of `n` to `s`.
pub fn push_decimal(s: &mut String, n: u64)
    ensures
        final(s)@ == old(s)@ + decimal(n as nat),
    decreases n,
{
    if n >= 10 {
        push_decimal(s, n / 10);
    }
    push_digit(s, (n % 10) as u8);
    assert(final(s)@ =~= old(s)@ + decimal(n as nat));
}

/// A growing series of graph snapshots, each holding all the statements of the one before.
pub struct Trace {
    enabled: bool,
    snapshots: Vec<String>,
    lines: Ghost<Seq<Seq<char>>>,
}

impl Trace {
    /// The statements of each snapshot.
    pub closed spec fn bodies(&self) -> Seq<Seq<char>> {
        self.snapshots@.map_values(|s: String| s@)
    }

    /// Whether statements are recorded at all.
    pub closed spec fn is_enabled(&self) -> bool {
        self.enabled
    }

    /// The statements written so far, in order.
    pub closed spec fn lines(&self) -> Seq<Seq<char>> {
        self.lines@
    }

    pub closed spec fn wf(&self) -> bool {
        &&& self.snapshots@.len() >= 1
        &&& self.snapshots@.last()@ == concat_lines(self.lines@)
        &&& forall|k: int|
            0 <= k < self.snapshots@.len() ==> exists|n: int|
                0 <= n <= self.lines@.len() && (#[trigger] self.snapshots@[k])@ == concat_lines(
                    self.lines@.take(n),
                )
        &&& forall|i: int, j: int|
            0 <= i < j < self.snapshots@.len() ==> (#[trigger] self.snapshots@[i]@).is_prefix_of(
                #[trigger] self.snapshots@[j]@,
            )
    }

    /// A trace with one empty snapshot.
    pub fn new(enabled: bool) -> (r: Trace)
        ensures
            r.wf(),
            r.is_enabled() == enabled,
            r.bodies() == seq![Seq::<char>::empty()],
            r.lines() == Seq::<Seq<char>>::empty(),
    {
        let mut snapshots: Vec<String> = Vec::new();
        snapshots.push(String::new());
        let r = Trace { enabled, snapshots, lines: Ghost(Seq::empty()) };
        assert(r.bodies() =~= seq![Seq::<char>::empty()]);
        assert(r.snapshots@[0]@ == concat_lines(r.lines@.take(0)));
        r
    }

    /// Adds `line` to the last snapshot.
    fn append_line(&mut self, line: &String)
        requires
            old(self).wf(),
        ensures
            final(self).wf(),
            final(self).is_enabled() == old(self).is_enabled(),
            final(self).bodies() == old(self).bodies().update(
                old(self).bodies().len() - 1,
                old(self).bodies().last() + line@,
            ),
            final(self).lines() == old(self).lines().push(line@),
    {
        let ghost old_snaps = self.snapshots@;
        let ghost old_lines = self.lines@;
        self.lines = Ghost(self.lines@.push(line@));
        let n = self.snapshots.len();
        let mut last = self.snapshots.pop().unwrap();
        last.append(line.as_str());
        self.snapshots.push(last);
        proof {
            let s = self.snapshots@;
            assert(s =~= old_snaps.update(n - 1, last));
            assert forall|i: int, j: int| 0 <= i < j < s.len() implies (
            #[trigger] s[i]@).is_prefix_of(#[trigger] s[j]@) by {
                if j == n - 1 {
                    assert(old_snaps[i]@.is_prefix_of(old_snaps[j]@));
                    assert(s[j]@.subrange(0, old_snaps[j]@.len() as int) =~= old_snaps[j]@);
                    assert(s[j]@.subrange(0, s[i]@.len() as int) =~= old_snaps[j]@.subrange(
                        0,
                        s[i]@.len() as int,
                    ));
                } else {
                    assert(old_snaps[i]@.is_prefix_of(old_snaps[j]@));
                }
            }
            assert(self.bodies() =~= old_snaps.map_values(|s: String| s@).update(
                n - 1,
                old_snaps.map_values(|s: String| s@).last() + line@,
            ));
            let ls = self.lines@;
            assert(ls.drop_last() =~= old_lines);
            assert(s.last()@ == concat_lines(ls));
            assert forall|k: int| 0 <= k < s.len() implies exists|m: int|
                0 <= m <= ls.len() && (#[trigger] s[k])@ == concat_lines(ls.take(m)) by {
                if k == n - 1 {
                    assert(ls.take(ls.len() as int) =~= ls);
                } else {
                    let m = choose|m: int|
                        0 <= m <= old_lines.len() && (#[trigger] old_snaps[k])@ == concat_lines(
                            old_lines.take(m),
                        );
                    assert(ls.take(m) =~= old_lines.take(m));
                    assert(s[k] == old_snaps[k]);
                }
            }
        }
    }

    /// Declares a node in the last snapshot, when recording.
    pub fn add_node(&mut self, id: &String, label: &String, color: NodeColor, filled: bool)
        requires
            old(self).wf(),
        ensures
            final(self).wf(),
            final(self).is_enabled() == old(self).is_enabled(),
            old(self).is_enabled() ==> final(self).bodies() == old(self).bodies().update(
                old(self).bodies().len() - 1,
                old(self).bodies().last() + node_line(id@, label@, color, filled),
            ),
            old(self).is_enabled() ==> final(self).lines() == old(self).lines().push(
                node_line(id@, label@, color, filled),
            ),
            !old(self).is_enabled() ==> final(self).bodies() == old(self).bodies(),
            !old(self).is_enabled() ==> final(self).lines() == old(self).lines(),
    {
        if self.enabled {
            let mut line = String::from_str("    ");
            line.append(id.as_str());
            line.append(" [label=\"");
            line.append(label.as_str());
            line.append("\", fillcolor=");
            match color {
                NodeColor::Blue => line.append("blue"),
                NodeColor::White => line.append("white"),
                NodeColor::Green => line.append("green"),
            }
            if filled {
                line.append(", style=filled];\n");
            } else {
                line.append("];\n");
            }
            self.append_line(&line);
        }
    }

    /// Declares the edge `from -> to` in the last snapshot, when recording.
    pub fn add_edge(&mut self, from: &String, to: &String, label: &str)
        requires
            old(self).wf(),
        ensures
            final(self).wf(),
            final(self).is_enabled() == old(self).is_enabled(),
            old(self).is_enabled() ==> final(self).bodies() == old(self).bodies().update(
                old(self).bodies().len() - 1,
                old(self).bodies().last() + edge_line(from@, to@, label@),
            ),
            old(self).is_enabled() ==> final(self).lines() == old(self).lines().push(
                edge_line(from@, to@, label@),
            ),
            !old(self).is_enabled() ==> final(self).bodies() == old(self).bodies(),
            !old(self).is_enabled() ==> final(self).lines() == old(self).lines(),
    {
        if self.enabled {
            let mut line = String::from_str("    ");
            line.append(from.as_str());
            line.append(" -> ");
            line.append(to.as_str());
            line.append(" [label=\"");
            line.append(label);
            line.append("\", color=red];\n");
            self.append_line(&line);
        }
    }

    /// Starts a new snapshot holding everything declared so far, when recording.
    pub fn snapshot(&mut self)
        requires
            old(self).wf(),
        ensures
            final(self).wf(),
            final(self).is_enabled() == old(self).is_enabled(),
            old(self).is_enabled() ==> final(self).bodies() == old(self).bodies().push(
                old(self).bodies().last(),
            ),
            !old(self).is_enabled() ==> final(self).bodies() == old(self).bodies(),
            final(self).lines() == old(self).lines(),
    {
        if self.enabled {
            let ghost old_snaps = self.snapshots@;
            let n = self.snapshots.len();
            let copy = self.snapshots[n - 1].clone();
            self.snapshots.push(copy);
            proof {
                let s = self.snapshots@;
                assert forall|i: int, j: int| 0 <= i < j < s.len() implies (
                #[trigger] s[i]@).is_prefix_of(#[trigger] s[j]@) by {
                    if j == n as int {
                        if i < n - 1 {
                            assert(old_snaps[i]@.is_prefix_of(old_snaps[n - 1]@));
                        }
                        assert(s[i]@.is_prefix_of(s[j]@));
                    } else {
                        assert(old_snaps[i]@.is_prefix_of(old_snaps[j]@));
                    }
                }
                assert(self.bodies() =~= old_snaps.map_values(|s: String| s@).push(
                    old_snaps.map_values(|s: String| s@).last(),
                ));
                let ls = self.lines@;
                assert forall|k: int| 0 <= k < s.len() implies exists|m: int|
                    0 <= m <= ls.len() && (#[trigger] s[k])@ == concat_lines(ls.take(m)) by {
                    if k == n as int {
                        assert(ls.take(ls.len() as int) =~= ls);
                    } else {
                        assert(s[k] == old_snaps[k]);
                    }
                }
            }
        }
    }

    /// Every snapshot as a complete graph description.
    pub fn graphs(&self) -> (r: Vec<String>)
        requires
            self.wf(),
        ensures
            r@.len() == self.bodies().len(),
            r@.len() >= 1,
            forall|i: int| 0 <= i < r@.len() ==> #[trigger] r@[i]@ == graph_text(self.bodies()[i]),
            forall|i: int| 0 <= i < r@.len() ==> is_graph(#[trigger] r@[i]@),
            is_cumulative(r@),
            forall|p: spec_fn(Seq<char>) -> bool|
                (forall|i: int| 0 <= i < self.lines().len() ==> p(#[trigger] self.lines()[i]))
                    ==> #[trigger] statements_ok(r@, p),
    {
        proof {
            reveal_strlit("}");
        }
        let mut r: Vec<String> = Vec::new();
        let mut k: usize = 0;
        while k < self.snapshots.len()
            invariant
                self.wf(),
                k <= self.snapshots@.len(),
                r@.len() == k,
                forall|i: int| 0 <= i < k ==> #[trigger] r@[i]@ == graph_text(self.bodies()[i]),
            decreases self.snapshots@.len() - k,
        {
            let mut g = String::from_str("digraph {\n");
            g.append(self.snapshots[k].as_str());
            g.append("}");
            r.push(g);
            k = k + 1;
        }
        proof {
            assert forall|i: int| 0 <= i < r@.len() implies is_graph(#[trigger] r@[i]@) by {
                assert(r@[i]@ == graph_text(self.bodies()[i]));
            }
            assert forall|p: spec_fn(Seq<char>) -> bool|
                (forall|i: int| 0 <= i < self.lines().len() ==> p(#[trigger] self.lines()[i]))
                    implies #[trigger] statements_ok(r@, p) by {
                assert forall|k: int| 0 <= k < r@.len() implies exists|ls: Seq<Seq<char>>|
                    (#[trigger] r@[k]@) == graph_text(concat_lines(ls)) && forall|i: int|
                        0 <= i < ls.len() ==> p(#[trigger] ls[i]) by {
                    let m = choose|m: int|
                        0 <= m <= self.lines@.len() && (#[trigger] self.snapshots@[k])@
                            == concat_lines(self.lines@.take(m));
                    let ls = self.lines@.take(m);
                    assert(r@[k]@ == graph_text(self.bodies()[k]));
                    assert(self.bodies()[k] == self.snapshots@[k]@);
                    assert forall|i: int| 0 <= i < ls.len() implies p(#[trigger] ls[i]) by {
                        assert(ls[i] == self.lines()[i]);
                        assert(p(self.lines()[i]));
                    }
                    assert(r@[k]@ == graph_text(concat_lines(ls)));
                }
            }
            assert forall|i: int, j: int| 0 <= i < j < r@.len() implies (
            #[trigger] r@[i]@).drop_last().is_prefix_of(#[trigger] r@[j]@) by {
                let bi = self.bodies()[i];
                let bj = self.bodies()[j];
                assert(self.snapshots@[i]@.is_prefix_of(self.snapshots@[j]@));
                assert(r@[i]@.drop_last() =~= "digraph {\n"@ + bi);
                let p = "digraph {\n"@ + bi;
                assert(r@[j]@.subrange(0, p.len() as int) =~= p);
            }
        }
        r
    }
}

} // verus!
