use vstd::prelude::*;
use vstd::std_specs::cmp::PartialEqSpec;

verus! {

/// A node of a tree with any number of children.
#[derive(Debug)]
pub struct TreeNode<T> {
    value: T,
    children: Vec<TreeNode<T>>,
}

/// Depth-first and breadth-first lookup of a value in a tree.
pub trait Tree<T> {
    fn root(&self) -> Option<&TreeNode<T>>;

    fn depth_first_search(&self, target: &T) -> Option<&TreeNode<T>>;

    fn breadth_first_search(&self, target: &T) -> Option<&TreeNode<T>>;
}

impl<T> TreeNode<T> {
    pub closed spec fn value_of(self) -> T {
        self.value
    }

    pub closed spec fn children_of(self) -> Seq<TreeNode<T>> {
        self.children@
    }

    /// A leaf holding `value`.
    pub fn new(value: T) -> (r: Self)
        ensures
            r.value_of() == value,
            r.children_of() == Seq::<TreeNode<T>>::empty(),
    {
        TreeNode { value, children: Vec::new() }
    }

    /// The value held by this node.
    pub fn value(&self) -> (r: &T)
        ensures
            *r == self.value_of(),
    {
        &self.value
    }

    /// The children of this node, in order.
    pub fn children(&self) -> (r: &Vec<TreeNode<T>>)
        ensures
            r@ == self.children_of(),
    {
        &self.children
    }

    /// Appends `child` after the existing children.
    pub fn add_child(&mut self, child: TreeNode<T>)
        ensures
            final(self).value_of() == old(self).value_of(),
            final(self).children_of() == old(self).children_of().push(child),
    {
        self.children.push(child);
    }
}

/// The nodes of the tree rooted at `n`, each before its children, children in order.
pub open spec fn preorder<T>(n: TreeNode<T>) -> Seq<TreeNode<T>>
    decreases n, 1nat,
{
    seq![n] + preorder_forest(n.children_of(), n.children_of().len() as int)
}

/// The preorders of the first `k` trees of `s`, one after the other.
pub open spec fn preorder_forest<T>(s: Seq<TreeNode<T>>, k: int) -> Seq<TreeNode<T>>
    decreases s, 0nat, k,
{
    if k <= 0 || k > s.len() {
        Seq::empty()
    } else {
        preorder_forest(s, k - 1) + preorder(s[k - 1])
    }
}

/// The first node of `s` whose value equals `target`.
pub open spec fn first_match<T: PartialEq>(s: Seq<TreeNode<T>>, target: T) -> Option<TreeNode<T>>
    decreases s.len(),
{
    if s.len() == 0 {
        None
    } else if s[0].value_of().eq_spec(&target) {
        Some(s[0])
    } else {
        first_match(s.drop_first(), target)
    }
}

proof fn lemma_first_match_append<T: PartialEq>(a: Seq<TreeNode<T>>, b: Seq<TreeNode<T>>, target: T)
    ensures
        first_match(a + b, target) == (match first_match(a, target) {
            Some(n) => Some(n),
            None => first_match(b, target),
        }),
    decreases a.len(),
{
    if a.len() > 0 {
        assert((a + b).drop_first() =~= a.drop_first() + b);
        lemma_first_match_append(a.drop_first(), b, target);
    } else {
        assert(a + b =~= b);
    }
}

impl<T: PartialEq> TreeNode<T> {
    /// The first node in preorder whose value equals `target`.
    fn find_preorder(&self, target: &T) -> (r: Option<&TreeNode<T>>)
        ensures
            T::obeys_eq_spec() ==> (r matches Some(n) ==> first_match(preorder(*self), *target)
                == Some(*n)),
            T::obeys_eq_spec() ==> (r is None ==> first_match(preorder(*self), *target) is None),
        decreases self,
    {
        assert(preorder(*self)[0] == *self);
        if self.value == *target {
            return Some(self);
        }
        assert(preorder(*self).drop_first() =~= preorder_forest(self.children@, self.children@.len() as int));
        let mut i: usize = 0;
        while i < self.children.len()
            invariant
                i <= self.children@.len(),
                T::obeys_eq_spec() ==> !self.value.eq_spec(target),
                preorder(*self).drop_first() == preorder_forest(self.children@, self.children@.len() as int),
                preorder(*self)[0] == *self,
                T::obeys_eq_spec() ==> first_match(preorder_forest(self.children@, i as int), *target) is None,
            decreases self.children@.len() - i,
        {
            let child = &self.children[i];
            assert(decreases_to!(*self => *child));
            proof {
                lemma_first_match_append(
                    preorder_forest(self.children@, i as int),
                    preorder(*child),
                    *target,
                );
                assert(preorder_forest(self.children@, i as int + 1) == preorder_forest(
                    self.children@,
                    i as int,
                ) + preorder(self.children@[i as int]));
            }
            match child.find_preorder(target) {
                Some(found) => {
                    proof {
                        if T::obeys_eq_spec() {
                            let all = self.children@.len() as int;
                            lemma_forest_prefix(self.children@, i as int + 1, all, *target);
                        }
                    }
                    return Some(found);
                },
                None => {},
            }
            i = i + 1;
        }
        None
    }
}

/// A match in the first `k` trees is the first match of the whole forest.
proof fn lemma_forest_prefix<T: PartialEq>(s: Seq<TreeNode<T>>, k: int, n: int, target: T)
    requires
        0 <= k <= n <= s.len(),
        first_match(preorder_forest(s, k), target) is Some,
    ensures
        first_match(preorder_forest(s, n), target) == first_match(preorder_forest(s, k), target),
    decreases n - k,
{
    if k < n {
        lemma_forest_prefix(s, k, n - 1, target);
        lemma_first_match_append(preorder_forest(s, n - 1), preorder(s[n - 1]), target);
    }
}

/// The nodes at depth `d` below `n`, left to right.
pub open spec fn level<T>(n: TreeNode<T>, d: int) -> Seq<TreeNode<T>>
    decreases n, 1nat,
{
    if d <= 0 {
        seq![n]
    } else {
        level_forest(n.children_of(), n.children_of().len() as int, d - 1)
    }
}

/// The nodes at depth `d` in the first `k` trees of `s`, left to right.
pub open spec fn level_forest<T>(s: Seq<TreeNode<T>>, k: int, d: int) -> Seq<TreeNode<T>>
    decreases s, 0nat, k,
{
    if k <= 0 || k > s.len() {
        Seq::empty()
    } else {
        level_forest(s, k - 1, d) + level(s[k - 1], d)
    }
}

proof fn lemma_first_match_prefix<T: PartialEq>(a: Seq<TreeNode<T>>, b: Seq<TreeNode<T>>, target: T)
    requires
        a.is_prefix_of(b),
        first_match(a, target) is Some,
    ensures
        first_match(b, target) == first_match(a, target),
{
    assert(b =~= a + b.subrange(a.len() as int, b.len() as int));
    lemma_first_match_append(a, b.subrange(a.len() as int, b.len() as int), target);
}

proof fn lemma_level_forest_prefix<T>(s: Seq<TreeNode<T>>, k: int, n: int, d: int)
    requires
        0 <= k <= n <= s.len(),
    ensures
        level_forest(s, k, d).is_prefix_of(level_forest(s, n, d)),
    decreases n - k,
{
    if k < n {
        lemma_level_forest_prefix(s, k, n - 1, d);
        let a = level_forest(s, k, d);
        let b = level_forest(s, n - 1, d);
        assert((b + level(s[n - 1], d)).subrange(0, a.len() as int) =~= b.subrange(0, a.len() as int));
    }
}

proof fn lemma_preorder_forest_grows<T>(s: Seq<TreeNode<T>>, j: int, k: int)
    requires
        0 <= j < k <= s.len(),
    ensures
        preorder(s[j]).len() <= preorder_forest(s, k).len(),
        preorder_forest(s, j).len() <= preorder_forest(s, k).len(),
    decreases k - j,
{
    if j + 1 < k {
        lemma_preorder_forest_grows(s, j, k - 1);
    }
}

/// A node at depth `d` exists only while `d` is below the number of nodes.
proof fn lemma_level_size<T>(n: TreeNode<T>, d: int)
    requires
        0 <= d,
        level(n, d).len() > 0,
    ensures
        d < preorder(n).len(),
    decreases n, 1nat,
{
    if d > 0 {
        let ch = n.children_of();
        lemma_level_forest_size(ch, ch.len() as int, d - 1);
    }
}

proof fn lemma_level_forest_size<T>(s: Seq<TreeNode<T>>, k: int, d: int)
    requires
        0 <= d,
        0 <= k <= s.len(),
        level_forest(s, k, d).len() > 0,
    ensures
        d < preorder_forest(s, k).len(),
    decreases s, 0nat, k,
{
    if k > 0 {
        if level_forest(s, k - 1, d).len() > 0 {
            lemma_level_forest_size(s, k - 1, d);
            lemma_preorder_forest_grows(s, k - 1, k);
        } else {
            assert(decreases_to!(s => s[k - 1]));
            lemma_level_size(s[k - 1], d);
            lemma_preorder_forest_grows(s, k - 1, k);
        }
    }
}

/// Below an empty level every level is empty.
proof fn lemma_level_empty_next<T>(n: TreeNode<T>, d: int)
    requires
        0 <= d,
        level(n, d).len() == 0,
    ensures
        level(n, d + 1).len() == 0,
    decreases n, 1nat,
{
    if d > 0 {
        let ch = n.children_of();
        lemma_level_forest_empty_next(ch, ch.len() as int, d - 1);
    }
}

proof fn lemma_level_forest_empty_next<T>(s: Seq<TreeNode<T>>, k: int, d: int)
    requires
        0 <= d,
        0 <= k <= s.len(),
        level_forest(s, k, d).len() == 0,
    ensures
        level_forest(s, k, d + 1).len() == 0,
    decreases s, 0nat, k,
{
    if k > 0 {
        lemma_level_forest_empty_next(s, k - 1, d);
        assert(decreases_to!(s => s[k - 1]));
        lemma_level_empty_next(s[k - 1], d);
    }
}

proof fn lemma_level_empty_after<T>(n: TreeNode<T>, d: int, e: int)
    requires
        0 <= d <= e,
        level(n, d).len() == 0,
    ensures
        level(n, e).len() == 0,
    decreases e - d,
{
    if d < e {
        lemma_level_empty_next(n, d);
        lemma_level_empty_after(n, d + 1, e);
    }
}

impl<T: PartialEq> TreeNode<T> {
    /// The first node at depth `d` whose value equals `target`, and whether depth `d` holds
    /// any node at all.
    fn find_at_level(&self, target: &T, d: usize) -> (r: (Option<&TreeNode<T>>, bool))
        ensures
            r.1 == (level(*self, d as int).len() > 0),
            r.0 is Some ==> r.1,
            T::obeys_eq_spec() ==> (r.0 matches Some(n) ==> first_match(
                level(*self, d as int),
                *target,
            ) == Some(*n)),
            T::obeys_eq_spec() ==> (r.0 is None ==> first_match(level(*self, d as int), *target) is None),
        decreases self,
    {
        if d == 0 {
            assert(level(*self, 0)[0] == *self);
            assert(level(*self, 0).drop_first() =~= Seq::<TreeNode<T>>::empty());
            if self.value == *target {
                return (Some(self), true);
            }
            assert(first_match(level(*self, 0).drop_first(), *target) is None);
            return (None, true);
        }
        let ghost all = self.children@.len() as int;
        assert(level(*self, d as int) == level_forest(self.children@, all, d - 1));
        let mut any = false;
        let mut i: usize = 0;
        while i < self.children.len()
            invariant
                0 < d,
                all == self.children@.len(),
                level(*self, d as int) == level_forest(self.children@, all, d - 1),
                i <= self.children@.len(),
                any == (level_forest(self.children@, i as int, d - 1).len() > 0),
                T::obeys_eq_spec() ==> first_match(
                    level_forest(self.children@, i as int, d - 1),
                    *target,
                ) is None,
            decreases self.children@.len() - i,
        {
            let child = &self.children[i];
            assert(decreases_to!(*self => *child));
            let (found, child_any) = child.find_at_level(target, d - 1);
            proof {
                lemma_first_match_append(
                    level_forest(self.children@, i as int, d - 1),
                    level(*child, d - 1),
                    *target,
                );
                assert(level_forest(self.children@, i as int + 1, d - 1) == level_forest(
                    self.children@,
                    i as int,
                    d - 1,
                ) + level(self.children@[i as int], d - 1));
                lemma_level_forest_prefix(self.children@, i as int + 1, all, d - 1);
            }
            match found {
                Some(n) => {
                    proof {
                        if T::obeys_eq_spec() {
                            lemma_first_match_prefix(
                                level_forest(self.children@, i as int + 1, d - 1),
                                level_forest(self.children@, all, d - 1),
                                *target,
                            );
                        }
                    }
                    return (Some(n), true);
                },
                None => {},
            }
            any = any || child_any;
            i = i + 1;
        }
        (None, any)
    }
}

impl<T: PartialEq> Tree<T> for TreeNode<T> {
    fn root(&self) -> (r: Option<&TreeNode<T>>)
        ensures
            r == Some(self),
    {
        Some(self)
    }

    /// The first node, in preorder, whose value equals `target`.
    fn depth_first_search(&self, target: &T) -> (r: Option<&TreeNode<T>>)
        ensures
            T::obeys_eq_spec() ==> (r matches Some(n) ==> first_match(preorder(*self), *target)
                == Some(*n)),
            T::obeys_eq_spec() ==> (r is None ==> first_match(preorder(*self), *target) is None),
    {
        self.find_preorder(target)
    }

    /// The first node, in level order, whose value equals `target`: the match of the
    /// shallowest level that holds one, the first of that level.
    fn breadth_first_search(&self, target: &T) -> (r: Option<&TreeNode<T>>)
        ensures
            T::obeys_eq_spec() ==> (r matches Some(n) ==> exists|d: int|
                0 <= d && first_match(level(*self, d), *target) == Some(*n) && forall|e: int|
                    0 <= e < d ==> first_match(#[trigger] level(*self, e), *target) is None),
            T::obeys_eq_spec() ==> (r is None ==> forall|d: int|
                0 <= d <= usize::MAX ==> first_match(#[trigger] level(*self, d), *target) is None),
    {
        let mut d: usize = 0;
        loop
            invariant
                T::obeys_eq_spec() ==> forall|e: int|
                    0 <= e < d ==> first_match(#[trigger] level(*self, e), *target) is None,
                d == 0 || level(*self, d - 1).len() > 0,
            decreases preorder(*self).len() - d,
        {
            proof {
                if d > 0 {
                    lemma_level_size(*self, d - 1);
                }
            }
            let (found, any) = self.find_at_level(target, d);
            match found {
                Some(n) => {
                    return Some(n);
                },
                None => {},
            }
            if !any {
                proof {
                    if T::obeys_eq_spec() {
                        assert forall|e: int| 0 <= e <= usize::MAX implies first_match(
                            #[trigger] level(*self, e),
                            *target,
                        ) is None by {
                            if e >= d {
                                lemma_level_empty_after(*self, d as int, e);
                                assert(level(*self, e).len() == 0);
                            }
                        }
                    }
                }
                return None;
            }
            if d == usize::MAX {
                return None;
            }
            proof {
                lemma_level_size(*self, d as int);
            }
            d = d + 1;
        }
    }
}

} // verus!
