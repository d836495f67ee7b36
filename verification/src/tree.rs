use vstd::prelude::*;

verus! {

/// One stored key position: a payload, two exclusively owned subtrees, and a
/// chain of duplicates whose payloads equal `item`. The `left` subtree holds
/// strictly smaller items and `right` strictly larger ones, so an in-order
/// walk is ascending; `next` links the duplicates in insertion order, and
/// removals take the chain tail first.
pub struct Node {
    item: u64,
    left: Option<Box<Node>>,
    right: Option<Box<Node>>,
    next: Option<Box<Node>>,
}

/// An ordered multiset of `u64` items: an unbalanced binary search tree whose
/// duplicate items sit on a per-node chain rather than as extra tree nodes.
/// Its abstract view (`@`) is the in-order sequence of all stored items.
pub struct Tree {
    root: Option<Box<Node>>,
}

/// Every element of `s` is strictly below `bound`.
pub open spec fn all_lt(s: Seq<u64>, bound: u64) -> bool {
    forall|i: int| 0 <= i < s.len() ==> #[trigger] s[i] < bound
}

/// Every element of `s` is strictly above `bound`.
pub open spec fn all_gt(s: Seq<u64>, bound: u64) -> bool {
    forall|i: int| 0 <= i < s.len() ==> #[trigger] s[i] > bound
}

/// Every element of `s` is at most `bound`.
pub open spec fn all_le(s: Seq<u64>, bound: u64) -> bool {
    forall|i: int| 0 <= i < s.len() ==> #[trigger] s[i] <= bound
}

/// `s` is ascending (duplicates allowed).
pub open spec fn sorted(s: Seq<u64>) -> bool {
    forall|i: int, j: int| 0 <= i <= j < s.len() ==> #[trigger] s[i] <= #[trigger] s[j]
}

/// `s` with `v` inserted after every element at most `v`: the position a new
/// item takes in the in-order view, duplicates appending behind their equals.
pub open spec fn sorted_insert(s: Seq<u64>, v: u64) -> Seq<u64>
    decreases s.len(),
{
    if s.len() == 0 {
        seq![v]
    } else if s[0] <= v {
        seq![s[0]] + sorted_insert(s.subrange(1, s.len() as int), v)
    } else {
        seq![v] + s
    }
}

/// Inserting grows the sequence by exactly one item.
pub proof fn lemma_sorted_insert_len(s: Seq<u64>, v: u64)
    ensures
        sorted_insert(s, v).len() == s.len() + 1,
    decreases s.len(),
{
    if s.len() == 0 {
    } else if s[0] <= v {
        lemma_sorted_insert_len(s.subrange(1, s.len() as int), v);
    }
}

/// Elements at most `v` in front of the insertion point stay in front of it.
pub proof fn lemma_sorted_insert_skips_le(p: Seq<u64>, s: Seq<u64>, v: u64)
    requires
        all_le(p, v),
    ensures
        sorted_insert(p + s, v) == p + sorted_insert(s, v),
    decreases p.len(),
{
    if p.len() == 0 {
        assert(p + s =~= s);
        assert(p + sorted_insert(s, v) =~= sorted_insert(s, v));
    } else {
        let rest = p.subrange(1, p.len() as int);
        assert((p + s)[0] == p[0]);
        assert((p + s).subrange(1, (p + s).len() as int) =~= rest + s);
        assert(all_le(rest, v));
        lemma_sorted_insert_skips_le(rest, s, v);
        assert(seq![p[0]] + (rest + sorted_insert(s, v)) =~= p + sorted_insert(s, v));
    }
}

/// When everything is above `v`, the new item lands in front.
pub proof fn lemma_sorted_insert_front(s: Seq<u64>, v: u64)
    requires
        all_gt(s, v),
    ensures
        sorted_insert(s, v) == seq![v] + s,
{
    if s.len() == 0 {
        assert(seq![v] + s =~= seq![v]);
    } else {
        assert(s[0] > v);
    }
}

/// A tail of elements above `v` is carried along unchanged.
pub proof fn lemma_sorted_insert_keeps_gt(p: Seq<u64>, s: Seq<u64>, v: u64)
    requires
        all_gt(s, v),
    ensures
        sorted_insert(p + s, v) == sorted_insert(p, v) + s,
    decreases p.len(),
{
    if p.len() == 0 {
        assert(p + s =~= s);
        lemma_sorted_insert_front(s, v);
        assert(seq![v] + s =~= (seq![v] + p) + s);
        assert(sorted_insert(p, v) =~= seq![v] + p);
    } else if p[0] <= v {
        let rest = p.subrange(1, p.len() as int);
        assert((p + s)[0] == p[0]);
        assert((p + s).subrange(1, (p + s).len() as int) =~= rest + s);
        lemma_sorted_insert_keeps_gt(rest, s, v);
        assert(seq![p[0]] + (sorted_insert(rest, v) + s) =~= (seq![p[0]] + sorted_insert(
            rest,
            v,
        )) + s);
    } else {
        assert((p + s)[0] == p[0]);
        assert(seq![v] + (p + s) =~= (seq![v] + p) + s);
    }
}

/// Inserting an item below a bound keeps every element below that bound.
pub proof fn lemma_sorted_insert_all_lt(s: Seq<u64>, v: u64, bound: u64)
    requires
        all_lt(s, bound),
        v < bound,
    ensures
        all_lt(sorted_insert(s, v), bound),
    decreases s.len(),
{
    if s.len() == 0 {
    } else if s[0] <= v {
        let rest = s.subrange(1, s.len() as int);
        assert(all_lt(rest, bound));
        lemma_sorted_insert_all_lt(rest, v, bound);
        assert forall|i: int| 0 <= i < sorted_insert(s, v).len() implies #[trigger] sorted_insert(
            s,
            v,
        )[i] < bound by {
            if i > 0 {
                assert(sorted_insert(s, v)[i] == sorted_insert(rest, v)[i - 1]);
            }
        }
    } else {
        assert forall|i: int| 0 <= i < sorted_insert(s, v).len() implies #[trigger] sorted_insert(
            s,
            v,
        )[i] < bound by {
            if i > 0 {
                assert(sorted_insert(s, v)[i] == s[i - 1]);
            }
        }
    }
}

/// Inserting an item above a bound keeps every element above that bound.
pub proof fn lemma_sorted_insert_all_gt(s: Seq<u64>, v: u64, bound: u64)
    requires
        all_gt(s, bound),
        v > bound,
    ensures
        all_gt(sorted_insert(s, v), bound),
    decreases s.len(),
{
    if s.len() == 0 {
    } else if s[0] <= v {
        let rest = s.subrange(1, s.len() as int);
        assert(all_gt(rest, bound));
        lemma_sorted_insert_all_gt(rest, v, bound);
        assert forall|i: int| 0 <= i < sorted_insert(s, v).len() implies #[trigger] sorted_insert(
            s,
            v,
        )[i] > bound by {
            if i > 0 {
                assert(sorted_insert(s, v)[i] == sorted_insert(rest, v)[i - 1]);
            }
        }
    } else {
        assert forall|i: int| 0 <= i < sorted_insert(s, v).len() implies #[trigger] sorted_insert(
            s,
            v,
        )[i] > bound by {
            if i > 0 {
                assert(sorted_insert(s, v)[i] == s[i - 1]);
            }
        }
    }
}

impl Node {
    /// The payloads stored on the duplicate chain hanging off `opt`.
    pub closed spec fn chain_items(opt: Option<Box<Node>>) -> Seq<u64>
        decreases opt,
    {
        match opt {
            None => Seq::empty(),
            Some(n) => seq![n.item] + Node::chain_items(n.next),
        }
    }

    /// The in-order item sequence of an optional subtree.
    pub closed spec fn opt_items(opt: Option<Box<Node>>) -> Seq<u64>
        decreases opt,
    {
        match opt {
            None => Seq::empty(),
            Some(n) => n.items(),
        }
    }

    /// The in-order item sequence of this subtree: smaller items, then this
    /// node's payload and its duplicates, then larger items.
    pub closed spec fn items(self) -> Seq<u64>
        decreases self,
    {
        Node::opt_items(self.left) + seq![self.item] + Node::chain_items(self.next)
            + Node::opt_items(self.right)
    }

    /// A well-formed duplicate chain for key `key`: every link carries `key`
    /// and owns no subtrees.
    pub closed spec fn chain_wf(opt: Option<Box<Node>>, key: u64) -> bool
        decreases opt,
    {
        match opt {
            None => true,
            Some(n) => n.item == key && n.left is None && n.right is None && Node::chain_wf(
                n.next,
                key,
            ),
        }
    }

    /// The search-tree invariant: smaller items left, larger items right,
    /// duplicates of this node's item on its chain, recursively.
    pub closed spec fn wf(self) -> bool
        decreases self,
    {
        &&& match self.left {
            Some(l) => l.wf() && all_lt(l.items(), self.item),
            None => true,
        }
        &&& match self.right {
            Some(r) => r.wf() && all_gt(r.items(), self.item),
            None => true,
        }
        &&& Node::chain_wf(self.next, self.item)
    }

    /// A fresh leaf holding `item` alone.
    pub fn new(item: u64) -> (r: Self)
        ensures
            r.wf(),
            r.items() == seq![item],
    {
        let r = Self { left: None, right: None, next: None, item };
        proof {
            assert(r.items() =~= seq![item]);
        }
        r
    }

    /// A fresh boxed leaf holding `item` alone.
    pub fn boxed(item: u64) -> (r: Box<Self>)
        ensures
            r.wf(),
            r.items() == seq![item],
    {
        Box::new(Self::new(item))
    }

    /// How many items this node holds itself: one for the payload plus one
    /// per duplicate on the chain.
    pub closed spec fn count(self) -> nat {
        1 + Node::chain_items(self.next).len()
    }

    /// Counts this node's payload and its duplicate chain.
    pub fn len(&self) -> (r: usize)
        requires
            self.count() <= usize::MAX,
        ensures
            r == self.count(),
        decreases self,
    {
        match &self.next {
            Some(n) => 1 + n.len(),
            None => 1,
        }
    }

    /// The number of items stored in this subtree, chains included.
    pub fn size(&self) -> (r: usize)
        requires
            self.items().len() <= usize::MAX,
        ensures
            r == self.items().len(),
        decreases self,
    {
        let left_size: usize = match &self.left {
            Some(l) => l.size(),
            None => 0,
        };
        let right_size: usize = match &self.right {
            Some(r) => r.size(),
            None => 0,
        };
        left_size + right_size + self.len()
    }

    /// A well-formed chain for `key` carries `key` in every link.
    proof fn lemma_chain_items_eq(opt: Option<Box<Node>>, key: u64)
        requires
            Node::chain_wf(opt, key),
        ensures
            forall|i: int|
                0 <= i < Node::chain_items(opt).len() ==> #[trigger] Node::chain_items(opt)[i]
                    == key,
        decreases opt,
    {
        match opt {
            None => {},
            Some(n) => {
                Node::lemma_chain_items_eq(n.next, key);
                assert forall|i: int| 0 <= i < Node::chain_items(opt).len() implies #[trigger] Node::chain_items(
                    opt,
                )[i] == key by {
                    if i > 0 {
                        assert(Node::chain_items(opt)[i] == Node::chain_items(n.next)[i - 1]);
                    }
                }
            },
        }
    }

    /// One unfolding of `wf`, for callers that hold `n.wf()` as an opaque
    /// fact about a node reached by recursion.
    proof fn lemma_wf_parts(n: Node)
        requires
            n.wf(),
        ensures
            Node::chain_wf(n.next, n.item),
            match n.left {
                Some(l) => l.wf() && all_lt(l.items(), n.item),
                None => true,
            },
            match n.right {
                Some(r) => r.wf() && all_gt(r.items(), n.item),
                None => true,
            },
    {
    }

    /// Appends a duplicate of this node's payload at the tail of the chain.
    fn push(&mut self, item: u64)
        requires
            Node::chain_wf(old(self).next, old(self).item),
            item == old(self).item,
        ensures
            final(self).item == old(self).item,
            final(self).left == old(self).left,
            final(self).right == old(self).right,
            Node::chain_items(final(self).next) == Node::chain_items(old(self).next).push(item),
            Node::chain_wf(final(self).next, final(self).item),
        decreases *old(self),
    {
        if self.next.is_some() {
            let mut n = self.next.take().unwrap();
            n.push(item);
            self.next = Some(n);
            proof {
                assert(Node::chain_items(self.next) =~= Node::chain_items(old(self).next).push(
                    item,
                ));
            }
        } else {
            self.next = Some(Box::new(Node { left: None, right: None, next: None, item }));
            proof {
                assert(Node::chain_items(self.next) =~= Node::chain_items(old(self).next).push(
                    item,
                ));
            }
        }
    }

    /// Inserts `item` into this subtree: smaller items descend left, larger
    /// ones right, and an equal item joins this node's duplicate chain.
    #[verifier::rlimit(30)]
    pub fn insert(&mut self, item: u64)
        requires
            old(self).wf(),
        ensures
            final(self).wf(),
            final(self).items() == sorted_insert(old(self).items(), item),
        decreases *old(self),
    {
        proof {
            Node::lemma_chain_items_eq(self.next, self.item);
        }
        let ghost l = Node::opt_items(old(self).left);
        let ghost mid = seq![old(self).item] + Node::chain_items(old(self).next);
        let ghost r = Node::opt_items(old(self).right);
        if item < self.item {
            if self.left.is_some() {
                let mut left = self.left.take().unwrap();
                left.insert(item);
                self.left = Some(left);
            } else {
                self.left = Some(Box::new(Node { left: None, right: None, next: None, item }));
                proof {
                    assert(Node::opt_items(self.left) =~= sorted_insert(l, item));
                }
            }
            proof {
                assert(all_gt(mid + r, item));
                assert(old(self).items() =~= l + (mid + r));
                lemma_sorted_insert_keeps_gt(l, mid + r, item);
                lemma_sorted_insert_all_lt(l, item, old(self).item);
                assert(self.items() =~= sorted_insert(l, item) + (mid + r));
                assert(match self.left {
                    Some(l2) => l2.wf() && all_lt(l2.items(), self.item),
                    None => true,
                });
                assert(match self.right {
                    Some(r2) => r2.wf() && all_gt(r2.items(), self.item),
                    None => true,
                });
                assert(Node::chain_wf(self.next, self.item));
                assert(self.wf());
            }
        } else if item == self.item {
            self.push(item);
            proof {
                assert(all_le(l + mid, item));
                assert(all_gt(r, item));
                assert(old(self).items() =~= (l + mid) + r);
                lemma_sorted_insert_keeps_gt(l + mid, r, item);
                lemma_sorted_insert_skips_le(l + mid, Seq::empty(), item);
                assert((l + mid) + Seq::<u64>::empty() =~= l + mid);
                assert(sorted_insert(Seq::<u64>::empty(), item) =~= seq![item]);
                assert(sorted_insert(l + mid, item) == (l + mid) + seq![item]);
                assert(self.items() =~= ((l + mid) + seq![item]) + r);
                assert(self.wf());
            }
        } else {
            if self.right.is_some() {
                let mut right = self.right.take().unwrap();
                right.insert(item);
                self.right = Some(right);
            } else {
                self.right = Some(Box::new(Node { left: None, right: None, next: None, item }));
                proof {
                    assert(Node::opt_items(self.right) =~= sorted_insert(r, item));
                }
            }
            proof {
                assert(all_le(l + mid, item));
                assert(old(self).items() =~= (l + mid) + r);
                lemma_sorted_insert_skips_le(l + mid, r, item);
                lemma_sorted_insert_all_gt(r, item, old(self).item);
                assert(self.items() =~= (l + mid) + sorted_insert(r, item));
                assert(match self.left {
                    Some(l2) => l2.wf() && all_lt(l2.items(), self.item),
                    None => true,
                });
                assert(match self.right {
                    Some(r2) => r2.wf() && all_gt(r2.items(), self.item),
                    None => true,
                });
                assert(Node::chain_wf(self.next, self.item));
                assert(self.wf());
            }
        }
    }

    /// Removes the tail of the duplicate chain, if the chain is not empty:
    /// the most recently appended duplicate leaves first.
    fn pop(&mut self) -> (r: Option<u64>)
        requires
            Node::chain_wf(old(self).next, old(self).item),
        ensures
            final(self).item == old(self).item,
            final(self).left == old(self).left,
            final(self).right == old(self).right,
            Node::chain_wf(final(self).next, final(self).item),
            old(self).next is None ==> r is None && *final(self) == *old(self),
            old(self).next is Some ==> r == Some(old(self).item) && Node::chain_items(
                final(self).next,
            ) == Node::chain_items(old(self).next).drop_last(),
        decreases *old(self),
    {
        if self.next.is_some() {
            let mut n = self.next.take().unwrap();
            if n.next.is_some() {
                let r = n.pop();
                self.next = Some(n);
                proof {
                    assert(Node::chain_items(self.next) =~= Node::chain_items(
                        old(self).next,
                    ).drop_last());
                }
                r
            } else {
                proof {
                    assert(Node::chain_items(self.next) =~= Node::chain_items(
                        old(self).next,
                    ).drop_last());
                }
                Some(n.item)
            }
        } else {
            None
        }
    }

    /// Removes the smallest item of this subtree and returns it. Returns
    /// `None` exactly when this node holds the only item left (no subtrees,
    /// no duplicates): a node cannot unlink itself, so its owner must do it.
    #[verifier::rlimit(50)]
    pub fn pop_min(&mut self) -> (r: Option<u64>)
        requires
            old(self).wf(),
        ensures
            final(self).wf(),
            old(self).items().len() == 1 ==> r is None && *final(self) == *old(self),
            old(self).items().len() > 1 ==> r == Some(old(self).items()[0]) && final(self).items()
                == old(self).items().subrange(1, old(self).items().len() as int),
        decreases *old(self),
    {
        let ghost k = old(self).item;
        let ghost c = Node::chain_items(old(self).next);
        let ghost rs = Node::opt_items(old(self).right);
        proof {
            Node::lemma_chain_items_eq(old(self).next, k);
        }
        if self.left.is_some() {
            let mut l = self.left.take().unwrap();
            let ghost ls = l.items();
            let ghost lk = l.item;
            let ghost lc = Node::chain_items(l.next);
            let ghost lr = Node::opt_items(l.right);
            proof {
                Node::lemma_wf_parts(*l);
                Node::lemma_chain_items_eq(l.next, lk);
            }
            if l.left.is_some() {
                let r = l.pop_min();
                self.left = Some(l);
                proof {
                    assert(old(self).items()[0] == ls[0]);
                    assert(final(self).items() =~= old(self).items().subrange(
                        1,
                        old(self).items().len() as int,
                    ));
                    assert forall|i: int|
                        0 <= i < self.left.unwrap().items().len() implies #[trigger] self.left.unwrap().items()[i]
                        < k by {
                        assert(self.left.unwrap().items()[i] == ls[i + 1]);
                    }
                    assert(self.wf());
                }
                r
            } else if l.next.is_some() {
                let r = l.pop();
                self.left = Some(l);
                proof {
                    let ls2 = self.left.unwrap().items();
                    assert(ls2 =~= seq![lk] + lc.drop_last() + lr);
                    assert(old(self).items()[0] == ls[0]);
                    assert(ls[0] == lk);
                    // every chain element equals the head, so dropping the
                    // chain tail leaves the same sequence as dropping the head
                    assert forall|i: int| 0 <= i < ls2.len() implies ls2[i] == ls.subrange(
                        1,
                        ls.len() as int,
                    )[i] by {
                        if i < lc.len() {
                            assert(ls2[i] == lk);
                            assert(ls[i + 1] == lc[i]);
                        } else {
                            assert(ls2[i] == lr[i - lc.len()]);
                            assert(ls[i + 1] == lr[i - lc.len()]);
                        }
                    }
                    assert(ls2 =~= ls.subrange(1, ls.len() as int));
                    assert(final(self).items() =~= old(self).items().subrange(
                        1,
                        old(self).items().len() as int,
                    ));
                    assert forall|i: int| 0 <= i < ls2.len() implies #[trigger] ls2[i] < k by {
                        assert(ls2[i] == ls[i + 1]);
                    }
                    assert(self.left.unwrap().left is None);
                    assert(match self.left.unwrap().right {
                        Some(r2) => r2.wf() && all_gt(r2.items(), lk),
                        None => true,
                    });
                    assert(Node::chain_wf(self.left.unwrap().next, lk));
                    assert(self.left.unwrap().wf());
                    assert(self.wf());
                }
                r
            } else {
                self.left = l.right;
                proof {
                    assert(ls =~= seq![lk] + lr);
                    assert(old(self).items()[0] == lk);
                    assert forall|i: int|
                        0 <= i < Node::opt_items(self.left).len() implies #[trigger] Node::opt_items(
                        self.left,
                    )[i] < k by {
                        assert(Node::opt_items(self.left)[i] == ls[i + 1]);
                    }
                    assert(final(self).items() =~= old(self).items().subrange(
                        1,
                        old(self).items().len() as int,
                    ));
                    assert(self.wf());
                }
                Some(l.item)
            }
        } else if self.next.is_some() {
            let r = self.pop();
            proof {
                let s2 = self.items();
                assert(s2 =~= seq![k] + c.drop_last() + rs);
                let tail = old(self).items().subrange(1, old(self).items().len() as int);
                assert(tail =~= c + rs);
                assert forall|i: int| 0 <= i < s2.len() implies s2[i] == tail[i] by {
                    if i < c.len() {
                        assert(s2[i] == k);
                        assert(tail[i] == c[i]);
                    } else {
                        assert(s2[i] == rs[i - c.len()]);
                        assert(tail[i] == rs[i - c.len()]);
                    }
                }
                assert(s2 =~= tail);
                assert(old(self).items()[0] == k);
                assert(self.wf());
            }
            r
        } else if self.right.is_some() {
            let rb = self.right.take().unwrap();
            let ghost rn = *rb;
            let out = self.replace(*rb);
            proof {
                assert(self.items() =~= rn.items());
                assert(old(self).items() =~= seq![k] + rn.items());
                assert(final(self).items() =~= old(self).items().subrange(
                    1,
                    old(self).items().len() as int,
                ));
                assert(self.wf());
            }
            Some(out)
        } else {
            proof {
                assert(old(self).items() =~= seq![k]);
            }
            None
        }
    }

    /// Removes the largest item of this subtree and returns it. Returns
    /// `None` exactly when this node holds the only item left (no subtrees,
    /// no duplicates): a node cannot unlink itself, so its owner must do it.
    #[verifier::rlimit(50)]
    pub fn pop_max(&mut self) -> (r: Option<u64>)
        requires
            old(self).wf(),
        ensures
            final(self).wf(),
            old(self).items().len() == 1 ==> r is None && *final(self) == *old(self),
            old(self).items().len() > 1 ==> r == Some(old(self).items().last())
                && final(self).items() == old(self).items().drop_last(),
        decreases *old(self),
    {
        let ghost k = old(self).item;
        let ghost c = Node::chain_items(old(self).next);
        let ghost ls = Node::opt_items(old(self).left);
        proof {
            Node::lemma_chain_items_eq(old(self).next, k);
        }
        if self.right.is_some() {
            let mut rt = self.right.take().unwrap();
            let ghost rs = rt.items();
            let ghost rk = rt.item;
            let ghost rc = Node::chain_items(rt.next);
            let ghost rl = Node::opt_items(rt.left);
            proof {
                Node::lemma_wf_parts(*rt);
                Node::lemma_chain_items_eq(rt.next, rk);
            }
            if rt.right.is_some() {
                let r = rt.pop_max();
                self.right = Some(rt);
                proof {
                    assert(old(self).items().last() == rs.last());
                    assert(final(self).items() =~= old(self).items().drop_last());
                    assert forall|i: int|
                        0 <= i < self.right.unwrap().items().len() implies #[trigger] self.right.unwrap().items()[i]
                        > k by {
                        assert(self.right.unwrap().items()[i] == rs.drop_last()[i]);
                        assert(rs.drop_last()[i] == rs[i]);
                    }
                    assert(self.wf());
                }
                r
            } else if rt.next.is_some() {
                let r = rt.pop();
                self.right = Some(rt);
                proof {
                    let rs2 = self.right.unwrap().items();
                    assert(rs2 =~= rl + seq![rk] + rc.drop_last());
                    assert(rs.last() == rc.last());
                    assert(rs.last() == rk);
                    assert(old(self).items().last() == rs.last());
                    assert forall|i: int| 0 <= i < rs2.len() implies rs2[i] == rs.drop_last()[
                        i
                    ] by {
                        assert(rs.drop_last()[i] == rs[i]);
                        if i < rl.len() {
                            assert(rs2[i] == rl[i]);
                            assert(rs[i] == rl[i]);
                        } else if i == rl.len() {
                            assert(rs2[i] == rk);
                            assert(rs[i] == rk);
                        } else {
                            assert(rs2[i] == rc.drop_last()[i - rl.len() - 1]);
                            assert(rs[i] == rc[i - rl.len() - 1]);
                        }
                    }
                    assert(rs2 =~= rs.drop_last());
                    assert(final(self).items() =~= old(self).items().drop_last());
                    assert forall|i: int| 0 <= i < rs2.len() implies #[trigger] rs2[i] > k by {
                        assert(rs2[i] == rs[i]);
                    }
                    assert(self.right.unwrap().right is None);
                    assert(match self.right.unwrap().left {
                        Some(l2) => l2.wf() && all_lt(l2.items(), rk),
                        None => true,
                    });
                    assert(Node::chain_wf(self.right.unwrap().next, rk));
                    assert(self.right.unwrap().wf());
                    assert(self.wf());
                }
                r
            } else {
                self.right = rt.left;
                proof {
                    assert(rs =~= rl + seq![rk]);
                    assert(old(self).items().last() == rk);
                    assert forall|i: int|
                        0 <= i < Node::opt_items(self.right).len() implies #[trigger] Node::opt_items(
                        self.right,
                    )[i] > k by {
                        assert(Node::opt_items(self.right)[i] == rs[i]);
                    }
                    assert(final(self).items() =~= old(self).items().drop_last());
                    assert(self.wf());
                }
                Some(rt.item)
            }
        } else if self.next.is_some() {
            let r = self.pop();
            proof {
                let s2 = self.items();
                assert(s2 =~= ls + seq![k] + c.drop_last());
                assert(old(self).items().last() == c.last());
                assert(old(self).items().last() == k);
                assert forall|i: int|
                    0 <= i < s2.len() implies s2[i] == old(self).items().drop_last()[i] by {
                    assert(old(self).items().drop_last()[i] == old(self).items()[i]);
                    if i < ls.len() {
                        assert(s2[i] == ls[i]);
                        assert(old(self).items()[i] == ls[i]);
                    } else if i == ls.len() {
                        assert(s2[i] == k);
                        assert(old(self).items()[i] == k);
                    } else {
                        assert(s2[i] == c.drop_last()[i - ls.len() - 1]);
                        assert(old(self).items()[i] == c[i - ls.len() - 1]);
                    }
                }
                assert(s2 =~= old(self).items().drop_last());
                assert(self.wf());
            }
            r
        } else if self.left.is_some() {
            let lb = self.left.take().unwrap();
            let ghost ln = *lb;
            let out = self.replace(*lb);
            proof {
                assert(self.items() =~= ln.items());
                assert(old(self).items() =~= ln.items() + seq![k]);
                assert(old(self).items().last() == k);
                assert(final(self).items() =~= old(self).items().drop_last());
                assert(self.wf());
            }
            Some(out)
        } else {
            proof {
                assert(old(self).items() =~= seq![k]);
            }
            None
        }
    }

    /// Overwrites this node's payload, subtrees and chain with `other`'s and
    /// hands back the payload that was replaced: deletes the node at this
    /// tree position without needing access to its parent.
    fn replace(&mut self, other: Node) -> (r: u64)
        ensures
            r == old(self).item,
            final(self).item == other.item,
            final(self).left == other.left,
            final(self).right == other.right,
            final(self).next == other.next,
    {
        let out = self.item;
        let Node { item, left, right, next } = other;
        self.item = item;
        self.left = left;
        self.right = right;
        self.next = next;
        out
    }

    /// Appends this node's payload and its whole duplicate chain to `out`.
    fn push_chain(&self, out: &mut Vec<u64>)
        ensures
            final(out)@ == old(out)@ + seq![self.item] + Node::chain_items(self.next),
        decreases self,
    {
        out.push(self.item);
        match &self.next {
            Some(n) => {
                n.push_chain(out);
                proof {
                    assert(out@ =~= old(out)@ + seq![self.item] + Node::chain_items(self.next));
                }
            },
            None => {
                proof {
                    assert(out@ =~= old(out)@ + seq![self.item] + Node::chain_items(self.next));
                }
            },
        }
    }

    /// Appends this subtree's items to `out` in order: left subtree, this
    /// node's payload and duplicates, right subtree.
    fn push_all(&self, out: &mut Vec<u64>)
        ensures
            final(out)@ == old(out)@ + self.items(),
        decreases self,
    {
        match &self.left {
            Some(l) => l.push_all(out),
            None => {},
        }
        out.push(self.item);
        match &self.next {
            Some(n) => n.push_chain(out),
            None => {},
        }
        match &self.right {
            Some(r) => r.push_all(out),
            None => {},
        }
        proof {
            assert(out@ =~= old(out)@ + self.items());
        }
    }

    /// The in-order view of a well-formed subtree is ascending.
    proof fn lemma_items_sorted(n: Node)
        requires
            n.wf(),
        ensures
            sorted(n.items()),
        decreases n,
    {
        let ls = Node::opt_items(n.left);
        let c = Node::chain_items(n.next);
        let rs = Node::opt_items(n.right);
        let k = n.item;
        let s = n.items();
        let li = ls.len() as int;
        let ci = c.len() as int;
        Node::lemma_chain_items_eq(n.next, k);
        match n.left {
            Some(l) => Node::lemma_items_sorted(*l),
            None => {},
        }
        match n.right {
            Some(r) => Node::lemma_items_sorted(*r),
            None => {},
        }
        assert forall|i: int, j: int| 0 <= i <= j < s.len() implies s[i] <= s[j] by {
            if j < li {
                assert(s[i] == ls[i]);
                assert(s[j] == ls[j]);
                assert(ls[i] <= ls[j]);
            } else if i < li && j <= li + ci {
                assert(s[i] == ls[i]);
                assert(ls[i] < k);
                if j > li {
                    assert(s[j] == c[j - li - 1]);
                }
                assert(s[j] == k);
            } else if i < li {
                assert(s[i] == ls[i]);
                assert(ls[i] < k);
                assert(s[j] == rs[j - li - 1 - ci]);
                assert(rs[j - li - 1 - ci] > k);
            } else if i <= li + ci && j <= li + ci {
                if i > li {
                    assert(s[i] == c[i - li - 1]);
                }
                if j > li {
                    assert(s[j] == c[j - li - 1]);
                }
                assert(s[i] == k);
                assert(s[j] == k);
            } else if i <= li + ci {
                if i > li {
                    assert(s[i] == c[i - li - 1]);
                }
                assert(s[i] == k);
                assert(s[j] == rs[j - li - 1 - ci]);
                assert(rs[j - li - 1 - ci] > k);
            } else {
                assert(s[i] == rs[i - li - 1 - ci]);
                assert(s[j] == rs[j - li - 1 - ci]);
                assert(rs[i - li - 1 - ci] <= rs[j - li - 1 - ci]);
            }
        }
    }

}

impl Tree {
    /// The in-order sequence of all stored items.
    pub closed spec fn items(self) -> Seq<u64> {
        Node::opt_items(self.root)
    }

    /// The container invariant: the root subtree, if any, is a well-formed
    /// search tree.
    pub closed spec fn wf(self) -> bool {
        match self.root {
            Some(n) => n.wf(),
            None => true,
        }
    }

    /// An empty tree.
    pub fn new() -> (r: Self)
        ensures
            r.wf(),
            r@ == Seq::<u64>::empty(),
    {
        Tree { root: None }
    }

    /// The total number of stored items, duplicates included.
    pub fn size(&self) -> (r: usize)
        requires
            self@.len() <= usize::MAX,
        ensures
            r == self@.len(),
    {
        match &self.root {
            Some(n) => n.size(),
            None => 0,
        }
    }

    /// Removes and returns the smallest stored item; `None` on an empty tree,
    /// which is left untouched. When the root node runs out of items its
    /// owner — this handle — unlinks it, the one removal a node cannot do.
    pub fn pop_min(&mut self) -> (r: Option<u64>)
        requires
            old(self).wf(),
        ensures
            final(self).wf(),
            old(self)@.len() == 0 ==> r is None && *final(self) == *old(self),
            old(self)@.len() > 0 ==> r == Some(old(self)@[0]) && final(self)@ == old(
                self,
            )@.subrange(1, old(self)@.len() as int) && final(self)@.len() == old(self)@.len() - 1,
    {
        if self.root.is_some() {
            let mut root = self.root.take().unwrap();
            let popped = root.pop_min();
            if popped.is_some() {
                self.root = Some(root);
                popped
            } else {
                proof {
                    assert(old(self)@ =~= seq![root.item]);
                    assert(old(self)@.subrange(1, old(self)@.len() as int) =~= Seq::<u64>::empty());
                }
                Some(root.item)
            }
        } else {
            None
        }
    }

    /// Removes and returns the largest stored item; `None` on an empty tree,
    /// which is left untouched. When the root node runs out of items its
    /// owner — this handle — unlinks it, the one removal a node cannot do.
    pub fn pop_max(&mut self) -> (r: Option<u64>)
        requires
            old(self).wf(),
        ensures
            final(self).wf(),
            old(self)@.len() == 0 ==> r is None && *final(self) == *old(self),
            old(self)@.len() > 0 ==> r == Some(old(self)@.last()) && final(self)@ == old(
                self,
            )@.drop_last() && final(self)@.len() == old(self)@.len() - 1,
    {
        if self.root.is_some() {
            let mut root = self.root.take().unwrap();
            let popped = root.pop_max();
            if popped.is_some() {
                self.root = Some(root);
                popped
            } else {
                proof {
                    assert(old(self)@ =~= seq![root.item]);
                    assert(old(self)@.drop_last() =~= Seq::<u64>::empty());
                }
                Some(root.item)
            }
        } else {
            None
        }
    }

    /// The in-order traversal: every stored item, duplicates included, in
    /// ascending order of the view. The testing hook of the container.
    pub fn in_order(&self) -> (r: Vec<u64>)
        ensures
            r@ == self@,
    {
        let mut out: Vec<u64> = Vec::new();
        match &self.root {
            Some(n) => n.push_all(&mut out),
            None => {},
        }
        proof {
            assert(out@ =~= self@);
        }
        out
    }

    /// Adds `item` to the multiset. In the view it lands after every element
    /// at most `item`, so a duplicate queues up behind its equals.
    pub fn insert(&mut self, item: u64)
        requires
            old(self).wf(),
        ensures
            final(self).wf(),
            final(self)@ == sorted_insert(old(self)@, item),
            final(self)@.len() == old(self)@.len() + 1,
    {
        proof {
            lemma_sorted_insert_len(old(self)@, item);
        }
        if self.root.is_some() {
            let mut root = self.root.take().unwrap();
            root.insert(item);
            self.root = Some(root);
        } else {
            self.root = Some(Node::boxed(item));
            proof {
                assert(sorted_insert(old(self)@, item) =~= seq![item]);
            }
        }
    }

    /// Law: the view of a well-formed tree is ascending. A full traversal is
    /// therefore consistent with the ordering — no item out of place — and
    /// the first and last elements are the minimum and the maximum.
    pub proof fn lemma_view_sorted(self)
        requires
            self.wf(),
        ensures
            sorted(self@),
    {
        match self.root {
            Some(n) => Node::lemma_items_sorted(*n),
            None => {},
        }
    }
}

impl View for Tree {
    type V = Seq<u64>;

    open spec fn view(&self) -> Seq<u64> {
        self.items()
    }
}

impl Default for Tree {
    /// Same as `Tree::new`: an empty tree.
    fn default() -> (r: Self)
        ensures
            r.wf(),
            r@ == Seq::<u64>::empty(),
    {
        Tree::new()
    }
}

} // verus!
