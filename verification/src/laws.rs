//! What holds of every session, whatever is drawn.

use crate::branches::absorbed;
use crate::branches::budget;
use crate::branches::built;
use crate::branches::built_law;
use crate::branches::holds;
use crate::branches::lemma_slot;
use crate::branches::node_text;
use crate::branches::observed;
use crate::branches::table_wf;
use crate::branches::walk;
use crate::branches::Corpus;
use crate::branches::Table;
use crate::bytes::spliced;
use crate::node_types::NodeTypes;
use crate::parsing::assembled;
use crate::parsing::follows;
use crate::parsing::kids;
use crate::parsing::lemma_chain_covers;
use crate::parsing::nests;
use crate::parsing::sits;
use crate::parsing::RawNode;
use crate::rng::may_roll;
use crate::select::deletes;
use crate::select::deletion_pool;
use crate::select::lemma_optional_among;
use crate::select::optional_among;
use crate::select::picks;
use crate::select::rich;
use crate::select::substitutes;
use crate::select::Edit;
use crate::snapshot::Snapshot;
use crate::splice::decided;
use crate::splice::edited;
use crate::splice::made_by;
use crate::splice::derived;
use crate::splice::reaches;
use crate::splice::round;
use crate::splice::Config;
use vstd::prelude::*;

verus! {

/// A deletion takes out the bytes of its span and no others: the text gets
/// shorter by the length of the span, so strictly shorter unless the span
/// is empty, and then it stays as it is.
pub proof fn deletion_shortens(text: Seq<u8>, start: int, end: int)
    requires
        0 <= start <= end <= text.len(),
    ensures
        spliced(text, start, end, Seq::empty()).len() == text.len() - (end - start),
        start < end ==> spliced(text, start, end, Seq::empty()).len() < text.len(),
        start == end ==> spliced(text, start, end, Seq::empty()) == text,
{
    if start == end {
        assert(spliced(text, start, end, Seq::empty()) =~= text);
    }
}

/// A replacement changes the length of a text by the length of the bytes
/// that come in, less the length of the span that goes out, and leaves
/// what stands before and behind the span as it was.
pub proof fn replacement_keeps_the_rest(text: Seq<u8>, start: int, end: int, bytes: Seq<u8>)
    requires
        0 <= start <= end <= text.len(),
    ensures
        spliced(text, start, end, bytes).len() == text.len() - (end - start) + bytes.len(),
        spliced(text, start, end, bytes).subrange(0, start) == text.subrange(0, start),
        spliced(text, start, end, bytes).subrange(start, start + bytes.len()) == bytes,
        spliced(text, start, end, bytes).subrange(
            start + bytes.len(),
            spliced(text, start, end, bytes).len() as int,
        ) == text.subrange(end, text.len() as int),
{
    let out = spliced(text, start, end, bytes);
    assert(out.subrange(0, start) =~= text.subrange(0, start));
    assert(out.subrange(start, start + bytes.len()) =~= bytes);
    assert(out.subrange(start + bytes.len(), out.len() as int) =~= text.subrange(
        end,
        text.len() as int,
    ));
}

/// Where every round deletes, the round decides on an edit, and the edit
/// has no bytes: it is a deletion, never a substitution.
pub proof fn all_deletions_delete(
    shape: Snapshot,
    table: Table,
    config: Config,
    deleting: bool,
    edit: Option<Edit>,
)
    requires
        config.deletions >= 100,
        may_roll(config.deletions, deleting),
        decided(shape, table, config, deleting, edit),
    ensures
        deleting,
        edit matches Some(e) && e.bytes@.len() == 0 && deletes(
            shape,
            config.node_types,
            config.chaos,
            e,
        ),
{
}

/// Where no round deletes, no round decides on a deletion: an edit, if
/// there is one, is a substitution.
pub proof fn no_deletions_substitute(
    shape: Snapshot,
    table: Table,
    config: Config,
    deleting: bool,
    edit: Option<Edit>,
)
    requires
        config.deletions == 0,
        may_roll(config.deletions, deleting),
        decided(shape, table, config, deleting, edit),
    ensures
        !deleting,
        edit matches Some(e) ==> substitutes(shape, table, config.chaos, e),
{
}

/// A deletion aims at a node below the root, or at the root where nothing
/// lies below it. Without chaos it aims at a node of an optional kind,
/// wherever one lies below the root.
pub proof fn deletion_aims(shape: Snapshot, types: NodeTypes, chaos: u8, edit: Edit)
    requires
        shape.wf(),
        deletes(shape, types, chaos, edit),
    ensures
        shape.is_candidate(edit.node),
        edit.node < shape.nodes.len(),
        chaos == 0 && optional_among(shape, shape.level_order(), types).len() > 0
            ==> types.is_optional(shape.nodes[edit.node as int].kind@),
{
    let order = shape.level_order();
    let chaotic = choose|chaotic: bool| #[trigger]
        may_roll(chaos, chaotic) && picks(deletion_pool(shape, order, types, chaotic), edit.node);
    let among = deletion_pool(shape, order, types, chaotic);
    shape.level_order_law();
    lemma_optional_among(shape, order, types);
    if among.len() > 0 {
        let w = choose|w: int| 0 <= w < among.len() && among[w] == edit.node;
        if among != order {
            assert(order.contains(optional_among(shape, order, types)[w]));
        }
        let v = choose|v: int| 0 <= v < order.len() && order[v] == edit.node;
    } else {
        assert(order.len() == 0);
    }
}

/// No substitution makes text up: the bytes that come in are a fragment
/// that the table of the corpus holds, so some node of the corpus spans
/// them. Without chaos the table holds them for the kind of the node that
/// goes out, so a node of that very kind spans them in the corpus.
pub proof fn substitution_is_observed(corpus: Corpus, shape: Snapshot, chaos: u8, edit: Edit)
    requires
        substitutes(shape, built(corpus, corpus.len() as int), chaos, edit),
    ensures
        exists|kind: Seq<char>| #[trigger]
            holds(built(corpus, corpus.len() as int), kind, edit.bytes@) && observed(
                corpus,
                corpus.len() as int,
                kind,
                edit.bytes@,
            ),
        chaos == 0 ==> holds(
            built(corpus, corpus.len() as int),
            shape.nodes[edit.node as int].kind@,
            edit.bytes@,
        ) && observed(
            corpus,
            corpus.len() as int,
            shape.nodes[edit.node as int].kind@,
            edit.bytes@,
        ),
{
    let table = built(corpus, corpus.len() as int);
    built_law(corpus, corpus.len() as int);
    let at = choose|at: int| #[trigger]
        rich(table, at) && table[at].1.contains(edit.bytes@) && (chaos == 0 ==> table[at].0
            == shape.nodes[edit.node as int].kind@);
    lemma_slot(table, table[at].0, at);
    assert(holds(table, table[at].0, edit.bytes@));
}

/// `after` is `text` with the node `node` of `shape` replaced by
/// `fragment`, which `table` holds for the kind of that node.
pub open spec fn replaced_in_kind(
    shape: Snapshot,
    table: Table,
    text: Seq<u8>,
    node: usize,
    fragment: Seq<u8>,
    after: Seq<u8>,
) -> bool {
    &&& shape.is_candidate(node)
    &&& node < shape.nodes.len()
    &&& holds(table, shape.nodes[node as int].kind@, fragment)
    &&& after == spliced(
        text,
        shape.nodes[node as int].start as int,
        shape.nodes[node as int].end as int,
        fragment,
    )
}

/// Without deletions and without chaos, the edit of a round puts, in place
/// of a node that could be drawn, a fragment that the table holds for the
/// kind of that very node.
pub proof fn plain_round_keeps_to_the_kind(
    shape: Snapshot,
    table: Table,
    config: Config,
    text: Seq<u8>,
    after: Seq<u8>,
)
    requires
        table_wf(table),
        config.deletions == 0,
        config.chaos == 0,
        edited(shape, table, config, text, after),
    ensures
        exists|node: usize, fragment: Seq<u8>| #[trigger]
            replaced_in_kind(shape, table, text, node, fragment, after),
{
    let (edit, deleting) = choose|edit: Edit, deleting: bool|
        may_roll(config.deletions, deleting) && #[trigger] decided(
            shape,
            table,
            config,
            deleting,
            Some(edit),
        ) && made_by(shape, text, edit, after);
    let at = choose|at: int| #[trigger]
        rich(table, at) && table[at].1.contains(edit.bytes@) && (config.chaos == 0 ==> table[at].0
            == shape.nodes[edit.node as int].kind@);
    lemma_slot(table, table[at].0, at);
    assert(replaced_in_kind(shape, table, text, edit.node, edit.bytes@, after));
}

/// Where every round deletes, the edit of a round takes out the span of a
/// node that could be drawn, and nothing comes in.
pub proof fn deleting_round_takes_a_node_out(
    shape: Snapshot,
    table: Table,
    config: Config,
    text: Seq<u8>,
    after: Seq<u8>,
)
    requires
        shape.wf(),
        config.deletions >= 100,
        edited(shape, table, config, text, after),
    ensures
        exists|node: usize|
            #[trigger] shape.is_candidate(node) && node < shape.nodes.len() && after == spliced(
                text,
                shape.nodes[node as int].start as int,
                shape.nodes[node as int].end as int,
                Seq::empty(),
            ),
{
    let (edit, deleting) = choose|edit: Edit, deleting: bool|
        may_roll(config.deletions, deleting) && #[trigger] decided(
            shape,
            table,
            config,
            deleting,
            Some(edit),
        ) && made_by(shape, text, edit, after);
    deletion_aims(shape, config.node_types, config.chaos, edit);
    assert(edit.bytes@ =~= Seq::<u8>::empty());
    assert(shape.is_candidate(edit.node));
}

/// Where every round deletes, no test case is longer than the text it
/// came of.
pub proof fn all_deletions_never_grow(
    table: Table,
    deletions: u8,
    limit: nat,
    from: Seq<u8>,
    to: Seq<u8>,
)
    requires
        deletions >= 100,
        reaches(table, deletions, limit, from, to),
    ensures
        to.len() <= from.len(),
{
    let texts = choose|texts: Seq<Seq<u8>>| #[trigger]
        derived(table, deletions, texts) && 1 <= texts.len() <= limit && texts[0] == from
            && texts.last() == to;
    lemma_deletions_shrink(table, deletions, texts, texts.len() - 1);
}

/// Under rounds that all delete, no text is longer than the first.
proof fn lemma_deletions_shrink(table: Table, deletions: u8, texts: Seq<Seq<u8>>, upto: int)
    requires
        deletions >= 100,
        derived(table, deletions, texts),
        0 <= upto < texts.len(),
    ensures
        texts[upto].len() <= texts[0].len(),
    decreases upto,
{
    if upto > 0 {
        lemma_deletions_shrink(table, deletions, texts, upto - 1);
        let before = texts[upto - 1];
        let after = texts[upto - 1 + 1];
        assert(round(table, deletions, before, after));
        let (start, end) = choose|start: int, end: int|
            0 <= start <= end <= before.len() && after == #[trigger] spliced(
                before,
                start,
                end,
                Seq::empty(),
            );
        deletion_shortens(before, start, end);
    }
}

/// A test case that had fewer than one round is the text it came of.
pub proof fn no_rounds_no_change(table: Table, deletions: u8, from: Seq<u8>, to: Seq<u8>)
    requires
        reaches(table, deletions, 1, from, to),
    ensures
        to == from,
{
}

/// A corpus of one text whose tree has a root and nothing else has a table
/// of one pool, for the root's kind, with one fragment, the text that the
/// root spans; and its budget is 0.
pub proof fn root_alone_has_no_budget(text: Seq<u8>, shape: Snapshot)
    requires
        shape.wf(),
        shape.nodes.len() == 1,
    ensures
        built(seq![(text, shape)], 1) == seq![
            (shape.nodes[0].kind@, seq![node_text(text, shape, 0)]),
        ],
        budget(built(seq![(text, shape)], 1)) == 0,
{
    let corpus = seq![(text, shape)];
    shape.level_order_law();
    assert(shape.level_order() =~= Seq::<usize>::empty());
    let order = seq![0usize];
    assert(walk(shape) =~= order);
    let none = built(corpus, 0);
    assert(order.drop_last() =~= Seq::<usize>::empty());
    assert(absorbed(none, text, shape, order.drop_last()) == none);
    let table = built(corpus, 1);
    let kind = shape.nodes[0].kind@;
    let only = seq![(kind, seq![node_text(text, shape, 0)])];
    assert(!crate::branches::has_kind(none, kind));
    assert(table =~= only);
    assert(table.drop_last() =~= Seq::<(Seq<char>, Seq<Seq<u8>>)>::empty());
    assert(budget(table.drop_last()) == 0);
}

/// A table without a pool of two fragments or more has a budget of 0, and
/// a table with a budget of 0 has no such pool.
pub proof fn no_budget_no_rich_pool(table: Table)
    requires
        table_wf(table),
    ensures
        budget(table) == 0 <==> forall|at: int| !rich(table, at),
    decreases table.len(),
{
    if table.len() > 0 {
        let rest = table.drop_last();
        no_budget_no_rich_pool(rest);
        if budget(table) == 0 {
            assert forall|at: int| !rich(table, at) by {
                if 0 <= at < rest.len() {
                    assert(!rich(rest, at));
                    assert(rest[at] == table[at]);
                }
            }
        }
        if forall|at: int| !rich(table, at) {
            assert forall|at: int| !rich(rest, at) by {
                if 0 <= at < rest.len() {
                    assert(!rich(table, at));
                    assert(rest[at] == table[at]);
                }
            }
            assert(!rich(table, table.len() - 1));
        }
    }
}

/// In the snapshot of a tree, every node of the subtree of a listed node,
/// or of the root, is listed.
proof fn lemma_subtree_is_listed(shape: Snapshot, raws: Seq<RawNode>, len: nat, top: int, v: int)
    requires
        nests(raws, len),
        follows(shape, raws),
        shape.wf(),
        0 <= top < raws.len(),
        top == 0 || shape.level_order().contains(top as usize),
        top < v < top + raws[top].size,
    ensures
        shape.level_order().contains(v as usize),
    decreases raws[top].size,
{
    assert(sits(raws, len, top));
    lemma_chain_covers(raws, top + 1, top + raws[top].size, v);
    let all = kids(raws, top);
    let k = choose|k: int|
        0 <= k < all.len() && (#[trigger] all[k]) <= v < all[k] + raws[all[k] as int].size
            && all[k] + raws[all[k] as int].size <= top + raws[top].size;
    let child = all[k];
    crate::parsing::lemma_chain(raws, top + 1, top + raws[top].size);
    assert(shape.is_child(top as usize, child)) by {
        assert(shape.nodes[top].children@ == all);
    }
    shape.level_order_law();
    if top > 0 {
        let j = choose|j: int|
            0 <= j < shape.level_order().len() && shape.level_order()[j] == top as usize;
        assert(shape.is_child(shape.level_order()[j], child));
    }
    assert(shape.level_order().contains(child));
    if child < v {
        lemma_subtree_is_listed(shape, raws, len, child as int, v);
    }
}

/// In the snapshot of a tree, level order lists every node but the root,
/// each once.
pub proof fn every_node_is_listed(shape: Snapshot, len: nat)
    requires
        assembled(shape, len),
    ensures
        forall|v: usize| 0 < v < shape.nodes.len() ==> shape.level_order().contains(v),
        shape.level_order().no_duplicates(),
        shape.level_order().len() == shape.nodes.len() - 1,
{
    let raws = choose|raws: Seq<RawNode>| nests(raws, len) && #[trigger] follows(shape, raws);
    crate::parsing::lemma_follows(shape, raws, len);
    shape.level_order_law();
    let order = shape.level_order();
    let n = shape.nodes.len() as int;
    assert forall|v: usize| 0 < v < shape.nodes.len() implies order.contains(v) by {
        lemma_subtree_is_listed(shape, raws, len, 0, v as int);
    }
    let as_int = order.map_values(|v: usize| v as int);
    assert(as_int.no_duplicates());
    as_int.unique_seq_to_set();
    vstd::set_lib::lemma_int_range(1, n);
    assert(as_int.to_set() =~= vstd::set_lib::set_int_range(1, n)) by {
        assert forall|v: int| vstd::set_lib::set_int_range(1, n).contains(v) implies as_int.to_set().contains(
            v,
        ) by {
            assert(order.contains(v as usize));
            let at = choose|at: int| 0 <= at < order.len() && order[at] == v as usize;
            assert(as_int[at] == v);
        }
        assert forall|v: int| as_int.to_set().contains(v) implies vstd::set_lib::set_int_range(
            1,
            n,
        ).contains(v) by {
            let at = choose|at: int| 0 <= at < as_int.len() && as_int[at] == v;
            assert(0 < order[at] < n);
        }
    }
}

} // verus!
