//! A parse tree held as plain values: one record per node, children by
//! position, and the level-order walk over it.

use vstd::prelude::*;

verus! {

/// One node of a parse tree.
#[derive(Debug)]
pub struct NodeRecord {
    /// The identity of the node within its tree.
    pub id: usize,
    /// The kind label that the grammar gives the node.
    pub kind: String,
    /// Where the node's text starts.
    pub start: usize,
    /// Where the node's text ends.
    pub end: usize,
    /// The positions of the node's children among the records of the tree.
    pub children: Vec<usize>,
}

/// The nodes of one parse tree. The record at position 0 is the root.
#[derive(Debug)]
pub struct Snapshot {
    pub nodes: Vec<NodeRecord>,
}

/// Nothing occurs twice in `found`, and all of it lies below `n`.
pub open spec fn distinct_below(found: Seq<usize>, n: nat) -> bool {
    &&& found.no_duplicates()
    &&& forall|j: int| 0 <= j < found.len() ==> found[j] < n
}

/// `found`, followed by those of `children` that are not in it yet, each once
/// and in the order in which they come.
pub open spec fn visit(found: Seq<usize>, children: Seq<usize>) -> Seq<usize>
    decreases children.len(),
{
    if children.len() == 0 {
        found
    } else {
        let before = visit(found, children.drop_last());
        if before.contains(children.last()) {
            before
        } else {
            before.push(children.last())
        }
    }
}

impl Snapshot {
    /// The tree has a root, and every child is one of its records.
    pub open spec fn wf(&self) -> bool {
        &&& self.nodes.len() >= 1
        &&& forall|i: int, k: int|
            0 <= i < self.nodes.len() && 0 <= k < self.nodes[i].children.len() ==> (
            #[trigger] self.nodes[i].children[k]) < self.nodes.len()
    }

    /// Every node's span lies within a text of `len` bytes.
    pub open spec fn fits(&self, len: nat) -> bool {
        forall|i: int|
            0 <= i < self.nodes.len() ==> (#[trigger] self.nodes[i]).start <= self.nodes[i].end
                <= len
    }

    /// The children of the node at position `i`.
    pub open spec fn children(&self, i: int) -> Seq<usize> {
        self.nodes[i].children@
    }

    /// The walk from position `i` of `found` on: the children of each node
    /// of `found` in turn join its end, unless they are in it already.
    pub open spec fn discover(&self, found: Seq<usize>, i: nat) -> Seq<usize>
        decreases self.nodes.len() - i,
    {
        if i < found.len() && i < self.nodes.len() {
            self.discover(visit(found, self.children(found[i as int] as int)), i + 1)
        } else {
            found
        }
    }

    /// The nodes below the root, level by level: the root's children, then
    /// their children, and so on, each node once.
    pub open spec fn level_order(&self) -> Seq<usize> {
        self.discover(seq![0usize], 0).skip(1)
    }

    /// A node that a mutation may aim at: one of `level_order`, or the root
    /// where nothing lies below it.
    pub open spec fn is_candidate(&self, node: usize) -> bool {
        if self.level_order().len() == 0 {
            node == 0
        } else {
            self.level_order().contains(node)
        }
    }
}

impl Snapshot {
    /// Checks that the tree has a root and that every child is one of its
    /// records.
    pub fn is_well_formed(&self) -> (ok: bool)
        ensures
            ok == self.wf(),
    {
        let n = self.nodes.len();
        if n == 0 {
            return false;
        }
        let mut i: usize = 0;
        while i < n
            invariant
                n == self.nodes.len(),
                i <= n,
                forall|a: int, k: int|
                    0 <= a < i && 0 <= k < self.nodes[a].children.len() ==> (
                    #[trigger] self.nodes[a].children[k]) < n,
            decreases n - i,
        {
            let count = self.nodes[i].children.len();
            let mut k: usize = 0;
            while k < count
                invariant
                    n == self.nodes.len(),
                    i < n,
                    count == self.nodes[i as int].children.len(),
                    k <= count,
                    forall|b: int| 0 <= b < k ==> (#[trigger] self.nodes[i as int].children[b]) < n,
                decreases count - k,
            {
                if self.nodes[i].children[k] >= n {
                    return false;
                }
                k += 1;
            }
            i += 1;
        }
        true
    }

    /// Checks that every node's span is in order and lies within a text of
    /// `len` bytes.
    pub fn spans_fit(&self, len: usize) -> (ok: bool)
        ensures
            ok == self.fits(len as nat),
    {
        let mut i: usize = 0;
        while i < self.nodes.len()
            invariant
                i <= self.nodes.len(),
                forall|j: int|
                    0 <= j < i ==> (#[trigger] self.nodes[j]).start <= self.nodes[j].end <= len,
            decreases self.nodes.len() - i,
        {
            if self.nodes[i].start > self.nodes[i].end || self.nodes[i].end > len {
                return false;
            }
            i += 1;
        }
        true
    }

    /// Every node below the root, level by level: the root's children, then
    /// their children, and so on. A node that is reached a second time is
    /// passed over, so none is listed twice.
    pub fn all_nodes(&self) -> (all: Vec<usize>)
        requires
            self.wf(),
        ensures
            all@ == self.level_order(),
    {
        let n = self.nodes.len();
        let mut seen: Vec<bool> = vec![false; n];
        assert(forall|v: int| 0 <= v < n ==> !seen[v]);
        seen.set(0, true);
        let mut found: Vec<usize> = Vec::new();
        found.push(0);
        assert(found@ =~= seq![0usize]);
        assert(found@[0] == 0);
        let mut i: usize = 0;
        while i < found.len()
            invariant
                self.wf(),
                n == self.nodes.len(),
                seen.len() == n,
                i <= found.len(),
                found.len() >= 1,
                distinct_below(found@, n as nat),
                forall|v: int| 0 <= v < n ==> (seen[v] <==> found@.contains(v as usize)),
                self.discover(found@, i as nat) == self.discover(seq![0usize], 0),
            decreases n - i,
        {
            proof {
                lemma_distinct_below_len(found@, n as nat);
            }
            let node = found[i];
            let ghost start = found@;
            let ghost kids = self.children(node as int);
            let count = self.nodes[node].children.len();
            let mut k: usize = 0;
            assert(kids.take(0) =~= Seq::<usize>::empty());
            while k < count
                invariant
                    self.wf(),
                    n == self.nodes.len(),
                    seen.len() == n,
                    node < n,
                    kids == self.children(node as int),
                    count == kids.len(),
                    k <= count,
                    i < start.len(),
                    distinct_below(start, n as nat),
                    found@ == visit(start, kids.take(k as int)),
                    forall|v: int| 0 <= v < n ==> (seen[v] <==> found@.contains(v as usize)),
                decreases count - k,
            {
                let child = self.nodes[node].children[k];
                proof {
                    assert(kids.take(k + 1).drop_last() =~= kids.take(k as int));
                    assert(kids.take(k + 1).last() == child);
                }
                let ghost before = found@;
                if !seen[child] {
                    seen.set(child, true);
                    found.push(child);
                    assert forall|v: int| 0 <= v < n implies (seen[v] <==> found@.contains(
                        v as usize,
                    )) by {
                        if v == child {
                            assert(found@[before.len() as int] == child);
                        } else if before.contains(v as usize) {
                            let w = choose|w: int| 0 <= w < before.len() && before[w] == v as usize;
                            assert(found@[w] == v as usize);
                        } else if found@.contains(v as usize) {
                            let w = choose|w: int| 0 <= w < found@.len() && found@[w] == v as usize;
                            assert(before[w] == v as usize);
                        }
                    }
                }
                k += 1;
            }
            proof {
                assert(kids.take(count as int) =~= kids);
                lemma_visit(start, kids, n as nat);
            }
            i += 1;
        }
        let mut all: Vec<usize> = Vec::new();
        let mut j: usize = 1;
        while j < found.len()
            invariant
                1 <= j <= found.len(),
                all@ == found@.subrange(1, j as int),
            decreases found.len() - j,
        {
            all.push(found[j]);
            j += 1;
        }
        all
    }
}

/// `visit` keeps what was found, in place, and keeps it distinct.
pub proof fn lemma_visit(found: Seq<usize>, children: Seq<usize>, n: nat)
    requires
        distinct_below(found, n),
        forall|k: int| 0 <= k < children.len() ==> children[k] < n,
    ensures
        distinct_below(visit(found, children), n),
        found.len() <= visit(found, children).len(),
        forall|j: int| 0 <= j < found.len() ==> visit(found, children)[j] == found[j],
        forall|k: int| 0 <= k < children.len() ==> visit(found, children).contains(children[k]),
        forall|j: int|
            found.len() <= j < visit(found, children).len() ==> children.contains(
                visit(found, children)[j],
            ),
    decreases children.len(),
{
    if children.len() > 0 {
        let rest = children.drop_last();
        let before = visit(found, rest);
        lemma_visit(found, rest, n);
        let after = visit(found, children);
        assert forall|k: int| 0 <= k < children.len() implies after.contains(children[k]) by {
            if k < rest.len() {
                assert(rest[k] == children[k]);
                let w = choose|w: int| 0 <= w < before.len() && before[w] == rest[k];
                assert(after[w] == children[k]);
            } else {
                if before.contains(children.last()) {
                } else {
                    assert(after[before.len() as int] == children[k]);
                }
            }
        }
        assert forall|j: int| found.len() <= j < after.len() implies children.contains(
            after[j],
        ) by {
            if j < before.len() {
                let w = choose|w: int| 0 <= w < rest.len() && rest[w] == before[j];
                assert(children[w] == after[j]);
            } else {
                assert(children[children.len() - 1] == after[j]);
            }
        }
    }
}

/// A list without repeats of numbers below `n` has at most `n` entries.
pub proof fn lemma_distinct_below_len(found: Seq<usize>, n: nat)
    requires
        distinct_below(found, n),
    ensures
        found.len() <= n,
{
    let as_int = found.map_values(|v: usize| v as int);
    assert(as_int.no_duplicates());
    as_int.unique_seq_to_set();
    vstd::set_lib::lemma_int_range(0, n as int);
    assert(as_int.to_set().subset_of(vstd::set_lib::set_int_range(0, n as int))) by {
        assert forall|v: int| as_int.to_set().contains(v) implies vstd::set_lib::set_int_range(
            0,
            n as int,
        ).contains(v) by {
            let j = choose|j: int| 0 <= j < as_int.len() && as_int[j] == v;
            assert(found[j] < n);
        }
    }
    vstd::set_lib::lemma_len_subset(as_int.to_set(), vstd::set_lib::set_int_range(0, n as int));
}

impl Snapshot {
    /// Whether `child` is listed among the children of `parent`.
    pub open spec fn is_child(&self, parent: usize, child: usize) -> bool {
        self.children(parent as int).contains(child)
    }

    /// The children of the first `i` nodes of `found` are all in `found`.
    pub open spec fn closed_to(&self, found: Seq<usize>, i: int) -> bool {
        forall|j: int, c: usize|
            0 <= j < i && j < found.len() && #[trigger] self.is_child(found[j], c)
                ==> found.contains(c)
    }

    /// The node at position `j` of `found` is a child of one that stands
    /// before it.
    pub open spec fn has_parent_before(&self, found: Seq<usize>, j: int) -> bool {
        exists|p: int| 0 <= p < j && #[trigger] self.is_child(found[p], found[j])
    }

    /// Each node of `found` but the first is a child of one that stands
    /// before it.
    pub open spec fn rooted(&self, found: Seq<usize>) -> bool {
        forall|j: int| 1 <= j < found.len() ==> #[trigger] self.has_parent_before(found, j)
    }

    /// The walk keeps its list distinct, led by the root and tied to it, and
    /// ends with the children of every listed node listed.
    pub proof fn lemma_discover(&self, found: Seq<usize>, i: nat)
        requires
            self.wf(),
            distinct_below(found, self.nodes.len() as nat),
            found.len() >= 1,
            found[0] == 0,
            i <= found.len(),
            self.closed_to(found, i as int),
            self.rooted(found),
        ensures
            distinct_below(self.discover(found, i), self.nodes.len() as nat),
            self.discover(found, i).len() >= 1,
            self.discover(found, i)[0] == 0,
            self.closed_to(self.discover(found, i), self.discover(found, i).len() as int),
            self.rooted(self.discover(found, i)),
        decreases self.nodes.len() - i,
    {
        let n = self.nodes.len() as nat;
        lemma_distinct_below_len(found, n);
        if i < found.len() && i < n {
            let parent = found[i as int];
            let kids = self.children(parent as int);
            let next = visit(found, kids);
            assert forall|k: int| 0 <= k < kids.len() implies kids[k] < n by {
                assert(self.nodes[parent as int].children[k] < n);
            }
            lemma_visit(found, kids, n);
            assert(self.closed_to(next, (i + 1) as int)) by {
                assert forall|j: int, c: usize|
                    0 <= j < i + 1 && j < next.len() && #[trigger] self.is_child(
                        next[j],
                        c,
                    ) implies next.contains(c) by {
                    assert(next[j] == found[j]);
                    if j < i {
                        assert(found.contains(c));
                        let w = choose|w: int| 0 <= w < found.len() && found[w] == c;
                        assert(next[w] == c);
                    } else {
                        let k = choose|k: int| 0 <= k < kids.len() && kids[k] == c;
                        assert(next.contains(kids[k]));
                    }
                }
            }
            assert(self.rooted(next)) by {
                assert forall|j: int| 1 <= j < next.len() implies #[trigger] self.has_parent_before(
                    next,
                    j,
                ) by {
                    if j < found.len() {
                        assert(self.has_parent_before(found, j));
                        let p = choose|p: int|
                            0 <= p < j && #[trigger] self.is_child(found[p], found[j]);
                        assert(next[p] == found[p]);
                        assert(next[j] == found[j]);
                        assert(self.is_child(next[p], next[j]));
                    } else {
                        assert(kids.contains(next[j]));
                        assert(next[i as int] == parent);
                        assert(self.is_child(next[i as int], next[j]));
                    }
                }
            }
            self.lemma_discover(next, i + 1);
        }
    }

    /// Level order lists each node at most once and never the root; it
    /// holds the children of the root and of every node it lists; and each
    /// node it lists is a child of the root or of a node listed before it.
    pub proof fn level_order_law(&self)
        requires
            self.wf(),
        ensures
            self.level_order().no_duplicates(),
            self.level_order().len() < self.nodes.len(),
            forall|j: int|
                0 <= j < self.level_order().len() ==> 0 < #[trigger] self.level_order()[j]
                    < self.nodes.len(),
            forall|c: usize| c != 0 && #[trigger] self.is_child(0, c) ==> self.level_order().contains(c),
            forall|j: int, c: usize|
                0 <= j < self.level_order().len() && c != 0 && #[trigger] self.is_child(
                    self.level_order()[j],
                    c,
                ) ==> self.level_order().contains(c),
            forall|j: int|
                0 <= j < self.level_order().len() ==> self.is_child(0, #[trigger] self.level_order()[j])
                    || exists|p: int|
                    0 <= p < j && #[trigger] self.is_child(
                        self.level_order()[p],
                        self.level_order()[j],
                    ),
    {
        let n = self.nodes.len() as nat;
        let first = seq![0usize];
        let all = self.discover(first, 0);
        let order = self.level_order();
        assert(first[0] == 0);
        self.lemma_discover(first, 0);
        lemma_distinct_below_len(all, n);
        assert forall|j: int| 0 <= j < order.len() implies order[j] == all[j + 1] by {}
        assert forall|c: usize| c != 0 && all.contains(c) implies order.contains(c) by {
            let w = choose|w: int| 0 <= w < all.len() && all[w] == c;
            assert(order[w - 1] == c);
        }
        assert forall|j: int| 0 <= j < order.len() implies self.is_child(0, #[trigger] order[j])
            || exists|p: int| 0 <= p < j && #[trigger] self.is_child(order[p], order[j]) by {
            let q = j + 1;
            assert(all[q] == order[j]);
            assert(self.has_parent_before(all, q));
            let p = choose|p: int| 0 <= p < q && #[trigger] self.is_child(all[p], all[q]);
            if p > 0 {
                assert(order[p - 1] == all[p]);
                assert(self.is_child(order[p - 1], order[j]));
            }
        }
        assert forall|j: int, c: usize|
            0 <= j < order.len() && c != 0 && #[trigger] self.is_child(order[j], c) implies order.contains(
            c,
        ) by {
            assert(self.is_child(all[j + 1], c));
        }
    }
}

} // verus!
