//! The branch table: for each kind of node seen in a corpus, the distinct
//! texts that nodes of that kind span.

use crate::bytes::copy_span;
use crate::bytes::same_bytes;
use crate::snapshot::Snapshot;
use vstd::prelude::*;

verus! {

/// The fragments seen for one kind of node.
#[derive(Debug)]
pub struct Pool {
    pub kind: String,
    pub fragments: Vec<Vec<u8>>,
}

/// The pools of a corpus, in the order in which their kinds were first seen.
#[derive(Debug)]
pub struct Branches {
    pub pools: Vec<Pool>,
}

/// A branch table as a value: kinds with their fragments.
pub type Table = Seq<(Seq<char>, Seq<Seq<u8>>)>;

impl View for Pool {
    type V = (Seq<char>, Seq<Seq<u8>>);

    open spec fn view(&self) -> (Seq<char>, Seq<Seq<u8>>) {
        (self.kind@, self.fragments@.map_values(|f: Vec<u8>| f@))
    }
}

impl View for Branches {
    type V = Table;

    open spec fn view(&self) -> Table {
        self.pools@.map_values(|p: Pool| p@)
    }
}

/// No kind has two pools, no pool is empty and no pool holds a fragment
/// twice.
pub open spec fn table_wf(table: Table) -> bool {
    &&& forall|i: int, j: int|
        0 <= i < j < table.len() ==> (#[trigger] table[i]).0 != (#[trigger] table[j]).0
    &&& forall|i: int| 0 <= i < table.len() ==> (#[trigger] table[i]).1.len() >= 1
    &&& forall|i: int| 0 <= i < table.len() ==> (#[trigger] table[i]).1.no_duplicates()
}

/// Whether `table` has a pool for `kind`.
pub open spec fn has_kind(table: Table, kind: Seq<char>) -> bool {
    exists|i: int| 0 <= i < table.len() && (#[trigger] table[i]).0 == kind
}

/// Where in `table` the pool for `kind` stands.
pub open spec fn slot(table: Table, kind: Seq<char>) -> int {
    choose|i: int| 0 <= i < table.len() && (#[trigger] table[i]).0 == kind
}

/// The fragments that `table` holds for `kind`: none for a kind without a
/// pool.
pub open spec fn pool(table: Table, kind: Seq<char>) -> Seq<Seq<u8>> {
    if has_kind(table, kind) {
        table[slot(table, kind)].1
    } else {
        Seq::empty()
    }
}

/// Whether `table` holds `fragment` for `kind`.
pub open spec fn holds(table: Table, kind: Seq<char>, fragment: Seq<u8>) -> bool {
    pool(table, kind).contains(fragment)
}

/// `table` after `fragment` was seen for `kind`: a new pool at the end for a
/// new kind, a new fragment at the end of its pool for a new fragment, and
/// the same table for one that it holds.
pub open spec fn inserted(table: Table, kind: Seq<char>, fragment: Seq<u8>) -> Table {
    if has_kind(table, kind) {
        let at = slot(table, kind);
        if table[at].1.contains(fragment) {
            table
        } else {
            table.update(at, (kind, table[at].1.push(fragment)))
        }
    } else {
        table.push((kind, seq![fragment]))
    }
}

/// The sum over the pools of `table` of the number of fragments less one.
pub open spec fn budget(table: Table) -> nat
    decreases table.len(),
{
    if table.len() == 0 {
        0
    } else {
        budget(table.drop_last()) + (table.last().1.len() - 1) as nat
    }
}

/// The text that the node at `node` of `shape` spans in `text`.
pub open spec fn node_text(text: Seq<u8>, shape: Snapshot, node: int) -> Seq<u8> {
    text.subrange(shape.nodes[node].start as int, shape.nodes[node].end as int)
}

/// `table` after the nodes `order` of `shape` were seen, one after the
/// other, each with its kind and the text it spans in `text`.
pub open spec fn absorbed(table: Table, text: Seq<u8>, shape: Snapshot, order: Seq<usize>) -> Table
    decreases order.len(),
{
    if order.len() == 0 {
        table
    } else {
        inserted(
            absorbed(table, text, shape, order.drop_last()),
            shape.nodes[order.last() as int].kind@,
            node_text(text, shape, order.last() as int),
        )
    }
}

/// The nodes of `shape` in the order in which the table sees them: the
/// root, then level by level.
pub open spec fn walk(shape: Snapshot) -> Seq<usize> {
    seq![0usize] + shape.level_order()
}

/// A corpus as a value: texts with their trees.
pub type Corpus = Seq<(Seq<u8>, Snapshot)>;

/// The corpus that a list of texts and trees stands for.
pub open spec fn corpus_of(trees: Seq<(&[u8], &Snapshot)>) -> Corpus {
    trees.map_values(|tree: (&[u8], &Snapshot)| (tree.0@, *tree.1))
}

/// The table of the first `upto` trees of `corpus`.
pub open spec fn built(corpus: Corpus, upto: int) -> Table
    decreases upto,
{
    if upto <= 0 {
        Seq::empty()
    } else {
        absorbed(
            built(corpus, upto - 1),
            corpus[upto - 1].0,
            corpus[upto - 1].1,
            walk(corpus[upto - 1].1),
        )
    }
}

/// In a well-formed table the pool of a kind stands where the kind does.
pub proof fn lemma_slot(table: Table, kind: Seq<char>, at: int)
    requires
        table_wf(table),
        0 <= at < table.len(),
        table[at].0 == kind,
    ensures
        has_kind(table, kind),
        slot(table, kind) == at,
        pool(table, kind) == table[at].1,
{
    let found = slot(table, kind);
    if found < at {
        assert(table[found].0 != table[at].0);
    } else if at < found {
        assert(table[at].0 != table[found].0);
    }
}

/// Seeing a fragment keeps a table well formed and adds that fragment to
/// what it holds, and nothing else.
pub proof fn lemma_inserted(table: Table, kind: Seq<char>, fragment: Seq<u8>)
    requires
        table_wf(table),
    ensures
        table_wf(inserted(table, kind, fragment)),
        forall|k: Seq<char>, f: Seq<u8>|
            #[trigger] holds(inserted(table, kind, fragment), k, f) <==> holds(table, k, f) || (k
                == kind && f == fragment),
{
    let next = inserted(table, kind, fragment);
    if has_kind(table, kind) {
        let at = slot(table, kind);
        if !table[at].1.contains(fragment) {
            let grown = table[at].1.push(fragment);
            assert(grown.no_duplicates()) by {
                assert forall|a: int, b: int| 0 <= a < grown.len() && 0 <= b < grown.len() && a
                    != b implies grown[a] != grown[b] by {
                    if a == grown.len() - 1 {
                        assert(table[at].1[b] != fragment);
                    } else if b == grown.len() - 1 {
                        assert(table[at].1[a] != fragment);
                    }
                }
            }
            assert(table_wf(next)) by {
                assert forall|i: int, j: int| 0 <= i < j < next.len() implies (#[trigger] next[i]).0
                    != (#[trigger] next[j]).0 by {
                    assert(next[i].0 == table[i].0);
                    assert(next[j].0 == table[j].0);
                }
            }
            assert forall|k: Seq<char>, f: Seq<u8>| #[trigger]
                holds(next, k, f) <==> holds(table, k, f) || (k == kind && f == fragment) by {
                if has_kind(table, k) {
                    let w = slot(table, k);
                    assert(next[w].0 == k);
                    lemma_slot(next, k, w);
                    lemma_slot(table, k, w);
                    if w == at {
                        assert(k == kind);
                        if holds(table, k, f) {
                            let x = choose|x: int| 0 <= x < table[at].1.len() && table[at].1[x] == f;
                            assert(grown[x] == f);
                        }
                        if f == fragment {
                            assert(grown[grown.len() - 1] == f);
                        }
                    }
                } else {
                    if has_kind(next, k) {
                        let w = slot(next, k);
                        assert(table[w].0 == k);
                    }
                }
            }
        } else {
            lemma_slot(table, kind, at);
        }
    } else {
        let fresh = seq![fragment];
        assert(fresh.no_duplicates());
        assert(table_wf(next)) by {
            assert forall|i: int, j: int| 0 <= i < j < next.len() implies (#[trigger] next[i]).0
                != (#[trigger] next[j]).0 by {
                if j == table.len() {
                    assert(table[i].0 != kind);
                }
            }
        }
        let last = table.len() as int;
        assert(next[last].0 == kind);
        lemma_slot(next, kind, last);
        assert forall|k: Seq<char>, f: Seq<u8>| #[trigger]
            holds(next, k, f) <==> holds(table, k, f) || (k == kind && f == fragment) by {
            if k == kind {
                if f == fragment {
                    assert(fresh[0] == f);
                }
            } else {
                if has_kind(table, k) {
                    let w = slot(table, k);
                    assert(next[w].0 == k);
                    lemma_slot(next, k, w);
                    lemma_slot(table, k, w);
                } else if has_kind(next, k) {
                    let w = slot(next, k);
                    assert(table[w].0 == k);
                }
            }
        }
    }
}

/// The node at `node` of `shape` is of the kind `kind` and spans `fragment`
/// in `text`.
pub open spec fn node_shows(
    text: Seq<u8>,
    shape: Snapshot,
    node: usize,
    kind: Seq<char>,
    fragment: Seq<u8>,
) -> bool {
    shape.nodes[node as int].kind@ == kind && node_text(text, shape, node as int) == fragment
}

/// One of the nodes `order` of `shape` is of the kind `kind` and spans
/// `fragment` in `text`.
pub open spec fn seen_in(
    text: Seq<u8>,
    shape: Snapshot,
    order: Seq<usize>,
    kind: Seq<char>,
    fragment: Seq<u8>,
) -> bool {
    exists|j: int| 0 <= j < order.len() && #[trigger] node_shows(text, shape, order[j], kind, fragment)
}

/// One of the first `upto` trees of `corpus` has, at its root or below it,
/// a node of the kind `kind` that spans `fragment`.
pub open spec fn observed(corpus: Corpus, upto: int, kind: Seq<char>, fragment: Seq<u8>) -> bool {
    exists|t: int|
        0 <= t < upto && #[trigger] seen_in(
            corpus[t].0,
            corpus[t].1,
            walk(corpus[t].1),
            kind,
            fragment,
        )
}

/// Seeing the nodes `order` keeps a table well formed and adds to what it
/// holds the kind and text of each of them, and nothing else.
pub proof fn lemma_absorbed(table: Table, text: Seq<u8>, shape: Snapshot, order: Seq<usize>)
    requires
        table_wf(table),
    ensures
        table_wf(absorbed(table, text, shape, order)),
        forall|k: Seq<char>, f: Seq<u8>|
            #[trigger] holds(absorbed(table, text, shape, order), k, f) <==> holds(table, k, f)
                || seen_in(text, shape, order, k, f),
    decreases order.len(),
{
    if order.len() > 0 {
        let rest = order.drop_last();
        let before = absorbed(table, text, shape, rest);
        let kind = shape.nodes[order.last() as int].kind@;
        let fragment = node_text(text, shape, order.last() as int);
        lemma_absorbed(table, text, shape, rest);
        lemma_inserted(before, kind, fragment);
        let after = absorbed(table, text, shape, order);
        assert forall|k: Seq<char>, f: Seq<u8>| #[trigger]
            holds(after, k, f) <==> holds(table, k, f) || seen_in(text, shape, order, k, f) by {
            assert(holds(after, k, f) <==> holds(before, k, f) || (k == kind && f == fragment));
            assert(holds(before, k, f) <==> holds(table, k, f) || seen_in(text, shape, rest, k, f));
            if seen_in(text, shape, rest, k, f) {
                let j = choose|j: int|
                    0 <= j < rest.len() && #[trigger] node_shows(text, shape, rest[j], k, f);
                assert(node_shows(text, shape, order[j], k, f));
            }
            if k == kind && f == fragment {
                assert(node_shows(text, shape, order[order.len() - 1], k, f));
            }
            if seen_in(text, shape, order, k, f) {
                let j = choose|j: int|
                    0 <= j < order.len() && #[trigger] node_shows(text, shape, order[j], k, f);
                if j < rest.len() {
                    assert(node_shows(text, shape, rest[j], k, f));
                }
            }
        }
    } else {
        assert forall|k: Seq<char>, f: Seq<u8>| !seen_in(text, shape, order, k, f) by {}
    }
}

/// The table of a corpus is well formed, and it holds a fragment for a
/// kind exactly where a node of that kind, the root of a tree of the corpus
/// or a node below it, spans that fragment.
pub proof fn built_law(corpus: Corpus, upto: int)
    requires
        0 <= upto <= corpus.len(),
    ensures
        table_wf(built(corpus, upto)),
        forall|k: Seq<char>, f: Seq<u8>|
            #[trigger] holds(built(corpus, upto), k, f) <==> observed(corpus, upto, k, f),
    decreases upto,
{
    if upto > 0 {
        let before = built(corpus, upto - 1);
        let text = corpus[upto - 1].0;
        let shape = corpus[upto - 1].1;
        built_law(corpus, upto - 1);
        lemma_absorbed(before, text, shape, walk(shape));
        let after = built(corpus, upto);
        assert forall|k: Seq<char>, f: Seq<u8>| #[trigger]
            holds(after, k, f) <==> observed(corpus, upto, k, f) by {
            assert(holds(after, k, f) <==> holds(before, k, f) || seen_in(
                text,
                shape,
                walk(shape),
                k,
                f,
            ));
            assert(holds(before, k, f) <==> observed(corpus, upto - 1, k, f));
            if observed(corpus, upto - 1, k, f) {
                let t = choose|t: int|
                    0 <= t < upto - 1 && #[trigger] seen_in(
                        corpus[t].0,
                        corpus[t].1,
                        walk(corpus[t].1),
                        k,
                        f,
                    );
                assert(observed(corpus, upto, k, f));
            }
            if seen_in(text, shape, walk(shape), k, f) {
                assert(seen_in(
                    corpus[upto - 1].0,
                    corpus[upto - 1].1,
                    walk(corpus[upto - 1].1),
                    k,
                    f,
                ));
            }
        }
    } else {
        let none = built(corpus, upto);
        assert forall|k: Seq<char>, f: Seq<u8>| #[trigger]
            holds(none, k, f) <==> observed(corpus, upto, k, f) by {
            assert(!has_kind(none, k));
        }
    }
}

/// The table of a corpus has a pool for a kind exactly where a node of
/// that kind stands in the corpus: no kind is made up, and none has an
/// empty pool.
pub proof fn kinds_are_observed(corpus: Corpus, kind: Seq<char>)
    ensures
        has_kind(built(corpus, corpus.len() as int), kind) <==> exists|fragment: Seq<u8>| #[trigger]
            observed(corpus, corpus.len() as int, kind, fragment),
{
    let table = built(corpus, corpus.len() as int);
    built_law(corpus, corpus.len() as int);
    if has_kind(table, kind) {
        let at = slot(table, kind);
        assert(table[at].1.len() >= 1);
        let first = table[at].1[0];
        assert(holds(table, kind, first));
        assert(observed(corpus, corpus.len() as int, kind, first));
    }
    if exists|fragment: Seq<u8>| #[trigger] observed(corpus, corpus.len() as int, kind, fragment) {
        let fragment = choose|fragment: Seq<u8>| #[trigger]
            observed(corpus, corpus.len() as int, kind, fragment);
        assert(holds(table, kind, fragment));
    }
}

impl Branches {
    /// The table is well formed.
    pub open spec fn wf(&self) -> bool {
        table_wf(self@)
    }

    /// A table without pools.
    pub fn empty() -> (table: Branches)
        ensures
            table@ == Seq::<(Seq<char>, Seq<Seq<u8>>)>::empty(),
            table.wf(),
    {
        let table = Branches { pools: Vec::new() };
        assert(table@ =~= Seq::<(Seq<char>, Seq<Seq<u8>>)>::empty());
        table
    }

    /// Where the first pool for `kind` stands, if there is one.
    pub fn find(&self, kind: &String) -> (at: Option<usize>)
        ensures
            match at {
                Some(i) => i < self.pools.len() && self@[i as int].0 == kind@ && forall|j: int|
                    0 <= j < i ==> (#[trigger] self@[j]).0 != kind@,
                None => !has_kind(self@, kind@),
            },
    {
        let mut i: usize = 0;
        while i < self.pools.len()
            invariant
                i <= self.pools.len(),
                forall|j: int| 0 <= j < i ==> (#[trigger] self@[j]).0 != kind@,
            decreases self.pools.len() - i,
        {
            if self.pools[i].kind == *kind {
                return Some(i);
            }
            i += 1;
        }
        None
    }

    /// Sees the node at `node` of `shape`, with the text it spans in `text`.
    pub fn see(&mut self, text: &[u8], shape: &Snapshot, node: usize)
        requires
            old(self).wf(),
            node < shape.nodes.len(),
            shape.fits(text@.len()),
        ensures
            final(self)@ == inserted(
                old(self)@,
                shape.nodes[node as int].kind@,
                node_text(text@, *shape, node as int),
            ),
            final(self).wf(),
    {
        let record = &shape.nodes[node];
        let fragment = copy_span(text, record.start, record.end);
        self.insert(&record.kind, fragment);
    }

    /// The table of a corpus: every node of every tree is seen, tree by
    /// tree, in each the root first and then level by level.
    pub fn new(trees: &Vec<(&[u8], &Snapshot)>) -> (table: Branches)
        requires
            forall|i: int|
                0 <= i < trees.len() ==> (#[trigger] trees[i]).1.wf() && trees[i].1.fits(
                    trees[i].0@.len(),
                ),
        ensures
            table@ == built(corpus_of(trees@), trees.len() as int),
            table.wf(),
    {
        let mut table = Branches::empty();
        let mut t: usize = 0;
        while t < trees.len()
            invariant
                t <= trees.len(),
                table@ == built(corpus_of(trees@), t as int),
                table.wf(),
                forall|i: int|
                    0 <= i < trees.len() ==> (#[trigger] trees[i]).1.wf() && trees[i].1.fits(
                        trees[i].0@.len(),
                    ),
            decreases trees.len() - t,
        {
            let text = trees[t].0;
            let shape = trees[t].1;
            let nodes = shape.all_nodes();
            proof {
                shape.level_order_law();
            }
            let ghost base = table@;
            let ghost root = seq![0usize];
            table.see(text, shape, 0);
            assert(table@ == absorbed(base, text@, *shape, root)) by {
                assert(root.drop_last() =~= Seq::<usize>::empty());
                assert(absorbed(base, text@, *shape, root.drop_last()) == base);
            }
            let mut k: usize = 0;
            assert(root + nodes@.take(0) =~= root);
            while k < nodes.len()
                invariant
                    k <= nodes.len(),
                    root == seq![0usize],
                    nodes@ == shape.level_order(),
                    forall|j: int| 0 <= j < nodes.len() ==> nodes[j] < shape.nodes.len(),
                    shape.fits(text@.len()),
                    table.wf(),
                    table@ == absorbed(base, text@, *shape, root + nodes@.take(k as int)),
                decreases nodes.len() - k,
            {
                let ghost before = root + nodes@.take(k as int);
                let ghost after = root + nodes@.take(k + 1);
                proof {
                    assert(after.drop_last() =~= before);
                    assert(after.last() == nodes[k as int]);
                }
                table.see(text, shape, nodes[k]);
                k += 1;
            }
            proof {
                assert(nodes@.take(nodes.len() as int) =~= nodes@);
            }
            t += 1;
        }
        table
    }

    /// The mutation budget: the sum over the pools of the number of
    /// fragments less one, or the largest `usize` where the sum is larger.
    pub fn possible(&self) -> (possible: usize)
        requires
            self.wf(),
        ensures
            possible == if budget(self@) <= usize::MAX {
                budget(self@)
            } else {
                usize::MAX as nat
            },
    {
        let mut total: usize = 0;
        let mut i: usize = 0;
        assert(self@.take(0) =~= Seq::<(Seq<char>, Seq<Seq<u8>>)>::empty());
        while i < self.pools.len()
            invariant
                self.wf(),
                i <= self.pools.len(),
                total == if budget(self@.take(i as int)) <= usize::MAX {
                    budget(self@.take(i as int))
                } else {
                    usize::MAX as nat
                },
            decreases self.pools.len() - i,
        {
            proof {
                assert(self@.take(i + 1).drop_last() =~= self@.take(i as int));
                assert(self@.take(i + 1).last() == self@[i as int]);
                assert(self@[i as int].1.len() >= 1);
            }
            let extra = self.pools[i].fragments.len() - 1;
            total = if total > usize::MAX - extra {
                usize::MAX
            } else {
                total + extra
            };
            i += 1;
        }
        assert(self@.take(self.pools.len() as int) =~= self@);
        total
    }

    /// Sees `fragment` for `kind`.
    pub fn insert(&mut self, kind: &String, fragment: Vec<u8>)
        requires
            old(self).wf(),
        ensures
            final(self)@ == inserted(old(self)@, kind@, fragment@),
            final(self).wf(),
    {
        proof {
            lemma_inserted(self@, kind@, fragment@);
        }
        match self.find(kind) {
            Some(at) => {
                proof {
                    lemma_slot(self@, kind@, at as int);
                }
                let count = self.pools[at].fragments.len();
                let mut i: usize = 0;
                while i < count
                    invariant
                        *self == *old(self),
                        self.wf(),
                        has_kind(self@, kind@),
                        slot(self@, kind@) == at,
                        at < self.pools.len(),
                        count == self.pools[at as int].fragments.len(),
                        i <= count,
                        forall|j: int| 0 <= j < i ==> (#[trigger] self@[at as int].1[j]) != fragment@,
                    decreases count - i,
                {
                    if same_bytes(self.pools[at].fragments[i].as_slice(), fragment.as_slice()) {
                        assert(self@[at as int].1[i as int] == fragment@);
                        return ;
                    }
                    i += 1;
                }
                self.pools[at].fragments.push(fragment);
                assert(self@ =~= old(self)@.update(
                    at as int,
                    (kind@, old(self)@[at as int].1.push(fragment@)),
                )) by {
                    assert(self@[at as int].1 =~= old(self)@[at as int].1.push(fragment@));
                }
            },
            None => {
                let mut fragments: Vec<Vec<u8>> = Vec::new();
                fragments.push(fragment);
                let pool = Pool { kind: kind.clone(), fragments };
                assert(pool@.1 =~= seq![fragment@]);
                self.pools.push(pool);
                assert(self@ =~= old(self)@.push((kind@, seq![fragment@])));
            },
        }
    }
}

} // verus!
