//! The mutation selector: which node a round aims at, and what replaces it.

use crate::branches::has_kind;
use crate::branches::lemma_slot;
use crate::branches::pool;
use crate::branches::slot;
use crate::branches::Branches;
use crate::branches::Table;
use crate::bytes::copy_span;
use crate::bytes::same_bytes;
use crate::node_types::NodeTypes;
use crate::rng::may_roll;
use crate::rng::pick_usize;
use crate::rng::roll;
use crate::snapshot::Snapshot;
use rand::rngs::StdRng;
use vstd::prelude::*;
use vstd::slice::slice_subrange;

verus! {

/// One mutation: the node to replace, by its position in the snapshot, and
/// the bytes to put in its place. No bytes delete the node.
#[derive(Debug)]
pub struct Edit {
    pub node: usize,
    pub bytes: Vec<u8>,
}

/// How many nodes a substitution tries before it gives the round up.
pub const PICKS: usize = 4096;

/// How often a substitution draws again to avoid the node's own text.
pub const REDRAWS: usize = 64;

/// `node` is one of `among`, or the root where `among` is empty.
pub open spec fn picks(among: Seq<usize>, node: usize) -> bool {
    if among.len() == 0 {
        node == 0
    } else {
        among.contains(node)
    }
}

/// The node that the draw `draw` selects among `nodes`: the root where
/// there are none.
pub open spec fn selected(nodes: Seq<usize>, draw: int) -> usize {
    if nodes.len() == 0 {
        0
    } else {
        nodes[draw]
    }
}

/// The node that the draw `draw` selects among `nodes`.
pub fn select(nodes: &Vec<usize>, draw: usize) -> (node: usize)
    requires
        nodes.len() == 0 || draw < nodes.len(),
    ensures
        node == selected(nodes@, draw as int),
        picks(nodes@, node),
{
    if nodes.len() == 0 {
        0
    } else {
        nodes[draw]
    }
}

/// Draws one of `nodes`, each as likely as the other; the root where there
/// are none, and then nothing is drawn.
pub fn pick_among(rng: &mut StdRng, nodes: &Vec<usize>) -> (node: usize)
    ensures
        picks(nodes@, node),
        nodes.len() == 0 ==> *final(rng) == *old(rng),
{
    if nodes.len() == 0 {
        return 0;
    }
    let draw = pick_usize(rng, nodes.len());
    select(nodes, draw)
}

/// Draws a node below the root of `shape`, each as likely as the other; the
/// root where nothing lies below it, and then nothing is drawn.
pub fn pick_node(rng: &mut StdRng, shape: &Snapshot) -> (node: usize)
    requires
        shape.wf(),
    ensures
        shape.is_candidate(node),
        node < shape.nodes.len(),
        shape.level_order().len() == 0 ==> *final(rng) == *old(rng),
{
    let nodes = shape.all_nodes();
    proof {
        shape.level_order_law();
    }
    pick_among(rng, &nodes)
}

/// Those of `nodes` whose kind is optional, in their order.
pub open spec fn optional_among(shape: Snapshot, nodes: Seq<usize>, types: NodeTypes) -> Seq<usize> {
    nodes.filter(|node: usize| types.is_optional(shape.nodes[node as int].kind@))
}

/// The nodes that a deletion draws from: the optional ones of `nodes`, and
/// all of `nodes` where the deletion is chaotic or none is optional.
pub open spec fn deletion_pool(
    shape: Snapshot,
    nodes: Seq<usize>,
    types: NodeTypes,
    chaotic: bool,
) -> Seq<usize> {
    if chaotic || optional_among(shape, nodes, types).len() == 0 {
        nodes
    } else {
        optional_among(shape, nodes, types)
    }
}

/// The optional nodes among `nodes` are nodes of `nodes` of an optional
/// kind, and every such node is among them.
pub proof fn lemma_optional_among(shape: Snapshot, nodes: Seq<usize>, types: NodeTypes)
    ensures
        forall|j: int|
            0 <= j < optional_among(shape, nodes, types).len() ==> nodes.contains(
                #[trigger] optional_among(shape, nodes, types)[j],
            ) && types.is_optional(
                shape.nodes[optional_among(shape, nodes, types)[j] as int].kind@,
            ),
        forall|j: int|
            0 <= j < nodes.len() && types.is_optional(shape.nodes[(#[trigger] nodes[j]) as int].kind@)
                ==> optional_among(shape, nodes, types).contains(nodes[j]),
    decreases nodes.len(),
{
    reveal(Seq::filter);
    let all = optional_among(shape, nodes, types);
    if nodes.len() > 0 {
        let rest = nodes.drop_last();
        let before = optional_among(shape, rest, types);
        lemma_optional_among(shape, rest, types);
        assert forall|j: int| 0 <= j < all.len() implies nodes.contains(#[trigger] all[j])
            && types.is_optional(shape.nodes[all[j] as int].kind@) by {
            if j < before.len() {
                assert(all[j] == before[j]);
                let w = choose|w: int| 0 <= w < rest.len() && rest[w] == before[j];
                assert(nodes[w] == all[j]);
            } else {
                assert(nodes[nodes.len() - 1] == all[j]);
            }
        }
        assert forall|j: int|
            0 <= j < nodes.len() && types.is_optional(
                shape.nodes[(#[trigger] nodes[j]) as int].kind@,
            ) implies all.contains(nodes[j]) by {
            if j < rest.len() {
                assert(rest[j] == nodes[j]);
                let w = choose|w: int| 0 <= w < before.len() && before[w] == rest[j];
                assert(all[w] == nodes[j]);
            } else {
                assert(all[all.len() - 1] == nodes[j]);
            }
        }
    }
}

/// The nodes that a deletion draws from.
pub fn deletion_targets(shape: &Snapshot, nodes: Vec<usize>, types: &NodeTypes, chaotic: bool) -> (among:
    Vec<usize>)
    requires
        forall|j: int| 0 <= j < nodes.len() ==> nodes[j] < shape.nodes.len(),
    ensures
        among@ == deletion_pool(*shape, nodes@, *types, chaotic),
{
    if chaotic {
        return nodes;
    }
    let mut optional: Vec<usize> = Vec::new();
    let mut k: usize = 0;
    proof {
        reveal(Seq::filter);
        assert(nodes@.take(0) =~= Seq::<usize>::empty());
    }
    while k < nodes.len()
        invariant
            k <= nodes.len(),
            forall|j: int| 0 <= j < nodes.len() ==> nodes[j] < shape.nodes.len(),
            optional@ == optional_among(*shape, nodes@.take(k as int), *types),
        decreases nodes.len() - k,
    {
        proof {
            reveal(Seq::filter);
            assert(nodes@.take(k + 1).drop_last() =~= nodes@.take(k as int));
            assert(nodes@.take(k + 1).last() == nodes[k as int]);
        }
        if types.optional_node(&shape.nodes[nodes[k]]) {
            optional.push(nodes[k]);
        }
        k += 1;
    }
    proof {
        assert(nodes@.take(nodes.len() as int) =~= nodes@);
    }
    if optional.len() == 0 {
        nodes
    } else {
        optional
    }
}

/// `edit` deletes a node of `shape` that a deletion may draw under `chaos`.
pub open spec fn deletes(shape: Snapshot, types: NodeTypes, chaos: u8, edit: Edit) -> bool {
    &&& edit.bytes@.len() == 0
    &&& exists|chaotic: bool| #[trigger]
        may_roll(chaos, chaotic) && picks(
            deletion_pool(shape, shape.level_order(), types, chaotic),
            edit.node,
        )
}

/// Decides on a deletion. With `chaos` chances in a hundred any node below
/// the root is drawn; else one of the optional ones, and any node where
/// none is optional.
pub fn delete_node(rng: &mut StdRng, chaos: u8, types: &NodeTypes, shape: &Snapshot) -> (edit: Edit)
    requires
        shape.wf(),
    ensures
        deletes(*shape, *types, chaos, edit),
        edit.node < shape.nodes.len(),
{
    let chaotic = roll(rng, chaos);
    let nodes = shape.all_nodes();
    proof {
        shape.level_order_law();
        lemma_optional_among(*shape, shape.level_order(), *types);
    }
    let among = deletion_targets(shape, nodes, types, chaotic);
    let node = pick_among(rng, &among);
    Edit { node, bytes: Vec::new() }
}

/// `table` has a pool at `at` with two fragments or more.
pub open spec fn rich(table: Table, at: int) -> bool {
    0 <= at < table.len() && table[at].1.len() >= 2
}

/// The pool that a substitution takes for a node of the kind `kind`: in a
/// chaotic one the pool at `draw`, else the pool of `kind`; and none
/// unless that pool has two fragments or more.
pub open spec fn pool_choice(table: Table, kind: Seq<char>, chaotic: bool, draw: int) -> Option<
    usize,
> {
    let at = if chaotic {
        draw
    } else if has_kind(table, kind) {
        slot(table, kind)
    } else {
        -1
    };
    if rich(table, at) {
        Some(at as usize)
    } else {
        None
    }
}

/// The pool that a substitution takes for a node of the kind `kind`.
pub fn pool_for(branches: &Branches, kind: &String, chaotic: bool, draw: usize) -> (at: Option<
    usize,
>)
    requires
        branches.wf(),
    ensures
        at == pool_choice(branches@, kind@, chaotic, draw as int),
{
    let found = if chaotic {
        if draw < branches.pools.len() {
            Some(draw)
        } else {
            None
        }
    } else {
        branches.find(kind)
    };
    match found {
        Some(p) => {
            proof {
                if !chaotic {
                    lemma_slot(branches@, kind@, p as int);
                }
            }
            if branches.pools[p].fragments.len() >= 2 {
                Some(p)
            } else {
                None
            }
        },
        None => None,
    }
}

/// The table has a pool, and every pool of it has two fragments or more.
pub open spec fn every_pool_rich(table: Table) -> bool {
    &&& table.len() > 0
    &&& forall|at: int| 0 <= at < table.len() ==> #[trigger] rich(table, at)
}

/// Draws the pool that a substitution takes for a node of the kind `kind`:
/// with `chaos` chances in a hundred any pool of the table, else the pool
/// of `kind`; and none unless that pool has two fragments or more.
pub fn choose_pool(rng: &mut StdRng, chaos: u8, branches: &Branches, kind: &String) -> (at: Option<
    usize,
>)
    requires
        branches.wf(),
    ensures
        exists|chaotic: bool, draw: int|
            may_roll(chaos, chaotic) && (branches@.len() > 0 ==> 0 <= draw < branches@.len())
                && at == #[trigger] pool_choice(branches@, kind@, chaotic, draw),
        chaos == 0 ==> at == pool_choice(branches@, kind@, false, 0),
        chaos >= 100 && every_pool_rich(branches@) ==> at is Some,
{
    let chaotic = roll(rng, chaos);
    let draw = if chaotic && branches.pools.len() > 0 {
        pick_usize(rng, branches.pools.len())
    } else {
        0
    };
    let at = pool_for(branches, kind, chaotic, draw);
    assert(branches@.len() == branches.pools.len());
    assert(may_roll(chaos, chaotic) && (branches@.len() > 0 ==> 0 <= draw < branches@.len()) && at
        == pool_choice(branches@, kind@, chaotic, draw as int));
    at
}

/// Whether the fragment at `at` is kept once it is drawn: it is, unless it
/// is `current` and there are others to draw.
pub fn keeps(fragments: &Vec<Vec<u8>>, at: usize, current: &[u8]) -> (keep: bool)
    requires
        at < fragments.len(),
    ensures
        keep == (fragments.len() == 1 || fragments[at as int]@ != current@),
{
    fragments.len() == 1 || !same_bytes(fragments[at].as_slice(), current)
}

/// Draws a fragment of `fragments`, each as likely as the other, and draws
/// again, up to `REDRAWS` times, while the one drawn is not kept. Any
/// fragment may come of it, `current` too where every draw fell on it.
pub fn pick_fragment(rng: &mut StdRng, fragments: &Vec<Vec<u8>>, current: &[u8]) -> (at: usize)
    requires
        fragments.len() >= 1,
    ensures
        at < fragments.len(),
{
    let mut at = pick_usize(rng, fragments.len());
    let mut redraws: usize = 0;
    while redraws < REDRAWS
        invariant
            fragments.len() >= 1,
            at < fragments.len(),
        decreases REDRAWS - redraws,
    {
        if keeps(fragments, at, current) {
            return at;
        }
        at = pick_usize(rng, fragments.len());
        redraws += 1;
    }
    at
}

/// `edit` replaces a node of `shape` that a substitution may draw by a
/// fragment of a pool of `table` with two fragments or more: under a
/// `chaos` of 0 the pool of the node's own kind.
pub open spec fn substitutes(shape: Snapshot, table: Table, chaos: u8, edit: Edit) -> bool {
    &&& shape.is_candidate(edit.node)
    &&& exists|at: int| #[trigger]
        rich(table, at) && table[at].1.contains(edit.bytes@) && (chaos == 0 ==> table[at].0
            == shape.nodes[edit.node as int].kind@)
}

/// The pool that `table` has for the kind of the node `node` of `shape` has
/// two fragments or more.
pub open spec fn rich_node(shape: Snapshot, table: Table, node: usize) -> bool {
    pool(table, shape.nodes[node as int].kind@).len() >= 2
}

/// Every node of `shape` that could be drawn is of a kind whose pool in
/// `table` has two fragments or more.
pub open spec fn every_candidate_rich(shape: Snapshot, table: Table) -> bool {
    forall|node: usize| #[trigger] shape.is_candidate(node) ==> rich_node(shape, table, node)
}

/// No node of `shape` that could be drawn is of a kind whose pool in
/// `table` has two fragments or more.
pub open spec fn no_candidate_rich(shape: Snapshot, table: Table) -> bool {
    forall|node: usize| #[trigger] shape.is_candidate(node) ==> !rich_node(shape, table, node)
}

/// Decides on a substitution. Up to `PICKS` times a node below the root is
/// drawn, and a pool for it, until the pool has two fragments or more; a
/// fragment of that pool replaces the node. There is no substitution
/// where no such pool was drawn. There is one for certain where, without
/// chaos, every node that could be drawn has such a pool for its kind, and
/// where, under a chaos of 100, every pool of the table is such a pool.
pub fn splice_node(
    rng: &mut StdRng,
    chaos: u8,
    branches: &Branches,
    text: &[u8],
    shape: &Snapshot,
) -> (edit: Option<Edit>)
    requires
        branches.wf(),
        shape.wf(),
        shape.fits(text@.len()),
    ensures
        edit matches Some(e) ==> substitutes(*shape, branches@, chaos, e) && e.node
            < shape.nodes.len(),
        (forall|at: int| !rich(branches@, at)) ==> edit is None,
        chaos == 0 && (forall|node: usize| #[trigger]
            shape.is_candidate(node) ==> rich_node(*shape, branches@, node)) ==> edit is Some,
        chaos == 0 && (forall|node: usize| #[trigger]
            shape.is_candidate(node) ==> !rich_node(*shape, branches@, node)) ==> edit is None,
        chaos >= 100 && every_pool_rich(branches@) ==> edit is Some,
{
    let nodes = shape.all_nodes();
    proof {
        shape.level_order_law();
    }
    let mut tried: usize = 0;
    while tried < PICKS
        invariant
            branches.wf(),
            shape.wf(),
            shape.fits(text@.len()),
            nodes@ == shape.level_order(),
            forall|j: int| 0 <= j < nodes.len() ==> 0 < #[trigger] nodes[j] < shape.nodes.len(),
            chaos == 0 && (forall|node: usize| #[trigger]
                shape.is_candidate(node) ==> rich_node(*shape, branches@, node)) ==> tried == 0,
            chaos >= 100 && every_pool_rich(branches@) ==> tried == 0,
        decreases PICKS - tried,
    {
        let node = pick_among(rng, &nodes);
        assert(shape.is_candidate(node));
        let record = &shape.nodes[node];
        let at = choose_pool(rng, chaos, branches, &record.kind);
        let ghost (chaotic, draw) = choose|chaotic: bool, draw: int|
            may_roll(chaos, chaotic) && (branches@.len() > 0 ==> 0 <= draw < branches@.len())
                && at == #[trigger] pool_choice(branches@, record.kind@, chaotic, draw);
        proof {
            assert(at == pool_choice(branches@, record.kind@, chaotic, draw));
            assert(branches@.len() == branches.pools.len());
            if has_kind(branches@, record.kind@) {
                lemma_slot(branches@, record.kind@, slot(branches@, record.kind@));
            }
        }
        match at {
            Some(p) => {
                assert(rich(branches@, p as int));
                assert(chaos == 0 ==> branches@[p as int].0 == record.kind@);
                let fragments = &branches.pools[p].fragments;
                let current = slice_subrange(text, record.start, record.end);
                let f = pick_fragment(rng, fragments, current);
                let bytes = copy_span(fragments[f].as_slice(), 0, fragments[f].len());
                assert(bytes@ == branches@[p as int].1[f as int]) by {
                    assert(fragments[f as int]@.subrange(0, fragments[f as int]@.len() as int)
                        =~= fragments[f as int]@);
                }
                let edit = Edit { node, bytes };
                assert(rich(branches@, p as int) && branches@[p as int].1.contains(edit.bytes@));
                return Some(edit);
            },
            None => {},
        }
        tried += 1;
    }
    None
}

} // verus!
