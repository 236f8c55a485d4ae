//! Parsing with tree-sitter, and reading a parse tree into a `Snapshot`.

use crate::snapshot::NodeRecord;
use crate::snapshot::Snapshot;
use tree_sitter::Language;
use tree_sitter::LanguageError;
use tree_sitter::Parser;
use tree_sitter::Tree;
use vstd::prelude::*;

verus! {

/// A parse tree of tree-sitter, taken as it is. What is known of one is
/// `node_spans`.
#[verifier::external_type_specification]
#[verifier::external_body]
pub struct ExTree(Tree);

/// A grammar of tree-sitter, taken as it is.
#[verifier::external_type_specification]
#[verifier::external_body]
pub struct ExLanguage(Language);

/// A parser of tree-sitter, taken as it is.
#[verifier::external_type_specification]
#[verifier::external_body]
pub struct ExParser(Parser);

/// The error of tree-sitter for a grammar that a parser does not take.
#[verifier::external_type_specification]
#[verifier::external_body]
pub struct ExLanguageError(LanguageError);

/// What a parse tree holds, as far as a rewrite needs it: for the id of each
/// of its nodes, where the node's text starts and ends. tree-sitter gives no
/// two nodes of one tree the same id.
pub uninterp spec fn node_spans(tree: Tree) -> Map<usize, (usize, usize)>;

/// What tree-sitter tells of one node.
#[derive(Debug)]
pub struct RawNode {
    pub id: usize,
    pub kind: String,
    pub start: usize,
    pub end: usize,
    /// How many nodes the node's subtree has, the node itself counted.
    pub size: usize,
}

/// What a parse tree holds: its nodes as tree-sitter tells of them, in the
/// order in which its cursor numbers them, which is document order with the
/// root first.
pub uninterp spec fn tree_nodes(tree: Tree) -> Seq<RawNode>;

/// `Node::descendant_count` of the root that `Tree::root_node` gives: how
/// many nodes tree-sitter counts in the tree, the root among them. That is
/// the number of nodes that `tree_nodes` stands for.
#[verifier::external_body]
pub(crate) fn node_count(tree: &Tree) -> (count: usize)
    ensures
        count == tree_nodes(*tree).len(),
{
    tree.root_node().descendant_count()
}

/// `TreeCursor::goto_descendant` on the cursor of `Tree::walk`, then
/// `TreeCursor::node` and the node's `id`, `kind`, `start_byte`, `end_byte`
/// and `descendant_count`. `goto_descendant` moves to the node with the
/// number `index` among the descendants of the root, the root being number
/// 0: for a number below the count of the nodes this is the node that
/// `tree_nodes` holds at `index`, and a tree tells the same of a node
/// whenever it is asked. The cursor always stands on a node of `tree`,
/// whatever `index` is, so the id that comes back is one of the tree's, with
/// the start and end that come back. (`kind` takes the grammar's names to
/// be UTF-8, as tree-sitter does throughout.)
#[verifier::external_body]
pub(crate) fn node_at(tree: &Tree, index: usize) -> (node: RawNode)
    ensures
        node_spans(*tree).contains_key(node.id),
        node_spans(*tree)[node.id] == (node.start, node.end),
        index < tree_nodes(*tree).len() ==> node == tree_nodes(*tree)[index as int],
{
    let mut cursor = tree.walk();
    cursor.goto_descendant(index);
    let at = cursor.node();
    RawNode {
        id: at.id(),
        kind: at.kind().to_string(),
        start: at.start_byte(),
        end: at.end_byte(),
        size: at.descendant_count(),
    }
}

/// Whether a parser of tree-sitter takes the grammar `language`: it does
/// where the grammar was generated for a version that the library reads.
pub uninterp spec fn takes(language: Language) -> bool;

/// `parser` is as `Parser::new` makes one: without a language, and with
/// neither a timeout nor a cancellation flag.
pub uninterp spec fn fresh(parser: Parser) -> bool;

/// `parser` has a language, and neither a timeout nor a cancellation flag:
/// nothing keeps it from giving a tree.
pub uninterp spec fn ready(parser: Parser) -> bool;

/// `Parser::new` of tree-sitter: a parser without a language, a timeout or
/// a cancellation flag.
#[verifier::external_body]
pub(crate) fn new_parser() -> (parser: Parser)
    ensures
        fresh(parser),
{
    Parser::new()
}

/// `Parser::set_language` of tree-sitter. It compares the version that the
/// grammar was generated for with the versions that the library reads and
/// does nothing else: the answer is a matter of the grammar alone, and a
/// parser that was fresh has, with the language, all it needs.
#[verifier::external_body]
pub(crate) fn set_language(parser: &mut Parser, language: &Language) -> (set: Result<
    (),
    LanguageError,
>)
    ensures
        set is Ok <==> takes(*language),
        set is Ok && fresh(*old(parser)) ==> ready(*final(parser)),
{
    parser.set_language(language)
}

/// `Parser::parse` of tree-sitter on `code`, with no earlier tree. There is
/// no tree only where the parser has no language, where its timeout ran out
/// or where its cancellation flag was set: a parser that is ready gives
/// one. Nothing is claimed of the tree.
#[verifier::external_body]
pub(crate) fn parse_bytes(parser: &mut Parser, code: &[u8]) -> (tree: Option<Tree>)
    ensures
        ready(*old(parser)) ==> tree is Some,
{
    parser.parse(code, None)
}

/// Why no tree came of a text.
#[derive(Debug, Clone, Copy, PartialEq, Eq, Structural)]
pub enum ParseError {
    /// The parser does not take the grammar.
    Language,
    /// The parser gave no tree.
    NoTree,
}

/// What comes of the parser's answer to a grammar: `ParseError::Language`
/// where it does not take it.
pub fn language_or_error(set: Result<(), LanguageError>) -> (taken: Result<(), ParseError>)
    ensures
        taken == (match set {
            Ok(_) => Ok::<(), ParseError>(()),
            Err(_) => Err::<(), ParseError>(ParseError::Language),
        }),
{
    match set {
        Ok(_) => Ok(()),
        Err(_) => Err(ParseError::Language),
    }
}

/// What comes of the parser's answer to a text: its tree, and
/// `ParseError::NoTree` where it gave none.
pub fn tree_or_error(tree: Option<Tree>) -> (parsed: Result<Tree, ParseError>)
    ensures
        parsed == (match tree {
            Some(t) => Ok::<Tree, ParseError>(t),
            None => Err::<Tree, ParseError>(ParseError::NoTree),
        }),
{
    match tree {
        Some(t) => Ok(t),
        None => Err(ParseError::NoTree),
    }
}

/// Whether a parser takes the grammar `language`: a fresh parser is asked.
pub fn taken(language: &Language) -> (ok: bool)
    ensures
        ok == takes(*language),
{
    let mut parser = new_parser();
    match language_or_error(set_language(&mut parser, language)) {
        Ok(_) => true,
        Err(_) => false,
    }
}

/// Parses `code` with the grammar `language`, which a parser takes: a fresh
/// parser is given the grammar and then the text, and there is a tree.
/// Which tree it is, is tree-sitter's to say.
pub fn parse(language: &Language, code: &[u8]) -> (parsed: Result<Tree, ParseError>)
    requires
        takes(*language),
    ensures
        parsed is Ok,
{
    let mut parser = new_parser();
    match language_or_error(set_language(&mut parser, language)) {
        Ok(_) => {},
        Err(error) => {
            return Err(error);
        },
    }
    tree_or_error(parse_bytes(&mut parser, code))
}

/// Every node of `shape` is a node of `tree`, with the span that `tree`
/// gives it.
pub open spec fn mirrors(tree: Tree, shape: Snapshot) -> bool {
    forall|i: int|
        0 <= i < shape.nodes.len() ==> node_spans(tree).contains_key(
            (#[trigger] shape.nodes[i]).id,
        ) && node_spans(tree)[shape.nodes[i].id] == (shape.nodes[i].start, shape.nodes[i].end)
}

/// The positions of the subtrees that stand one behind the other from
/// `at` on and before `stop`.
pub open spec fn chain(raws: Seq<RawNode>, at: int, stop: int) -> Seq<usize>
    decreases stop - at,
{
    if at < stop && 0 <= at < raws.len() && 1 <= raws[at].size <= stop - at {
        seq![at as usize] + chain(raws, at + raws[at].size, stop)
    } else {
        Seq::empty()
    }
}

/// The subtrees that stand one behind the other from `at` on end at `stop`
/// exactly.
pub open spec fn lands(raws: Seq<RawNode>, at: int, stop: int) -> bool
    decreases stop - at,
{
    if at >= stop {
        at == stop
    } else {
        0 <= at < raws.len() && 1 <= raws[at].size <= stop - at && lands(
            raws,
            at + raws[at].size,
            stop,
        )
    }
}

/// The positions of the children of the node at `i`: its subtree starts
/// behind it, and each child's subtree starts where the one before ends.
pub open spec fn kids(raws: Seq<RawNode>, i: int) -> Seq<usize> {
    chain(raws, i + 1, i + raws[i].size)
}

/// The node at `i` has its span in order and within `len` bytes, and its
/// subtree lies within the nodes and is made up of the subtrees of its
/// children.
pub open spec fn sits(raws: Seq<RawNode>, len: nat, i: int) -> bool {
    &&& raws[i].start <= raws[i].end <= len
    &&& 1 <= raws[i].size <= raws.len() - i
    &&& lands(raws, i + 1, i + raws[i].size)
}

/// `raws` is a tree in document order over a text of `len` bytes: the
/// first node's subtree is the whole of it, and every node sits in it.
pub open spec fn nests(raws: Seq<RawNode>, len: nat) -> bool {
    &&& raws.len() >= 1
    &&& raws[0].size == raws.len()
    &&& forall|i: int| 0 <= i < raws.len() ==> #[trigger] sits(raws, len, i)
}

/// `shape` has the nodes of `raws`, each with its id, kind and span, and
/// with the children that its size and theirs give it.
pub open spec fn follows(shape: Snapshot, raws: Seq<RawNode>) -> bool {
    &&& shape.nodes.len() == raws.len()
    &&& forall|i: int|
        0 <= i < raws.len() ==> {
            &&& (#[trigger] shape.nodes[i]).id == raws[i].id
            &&& shape.nodes[i].kind@ == raws[i].kind@
            &&& shape.nodes[i].start == raws[i].start
            &&& shape.nodes[i].end == raws[i].end
            &&& shape.nodes[i].children@ == kids(raws, i)
        }
}

/// The positions of a chain lie from its start on and before its end.
pub proof fn lemma_chain(raws: Seq<RawNode>, at: int, stop: int)
    requires
        stop <= raws.len() <= usize::MAX,
    ensures
        forall|k: int|
            0 <= k < chain(raws, at, stop).len() ==> at <= #[trigger] chain(raws, at, stop)[k]
                < stop,
    decreases stop - at,
{
    if at < stop && 0 <= at < raws.len() && 1 <= raws[at].size <= stop - at {
        let rest = chain(raws, at + raws[at].size, stop);
        lemma_chain(raws, at + raws[at].size, stop);
        assert forall|k: int| 0 <= k < chain(raws, at, stop).len() implies at <= #[trigger] chain(
            raws,
            at,
            stop,
        )[k] < stop by {
            if k > 0 {
                assert(chain(raws, at, stop)[k] == rest[k - 1]);
            }
        }
    }
}

/// A snapshot that follows a tree in document order is well formed, and
/// its spans lie within the text.
pub proof fn lemma_follows(shape: Snapshot, raws: Seq<RawNode>, len: nat)
    requires
        nests(raws, len),
        follows(shape, raws),
    ensures
        shape.wf(),
        shape.fits(len),
{
    assert forall|i: int, k: int|
        0 <= i < shape.nodes.len() && 0 <= k < shape.nodes[i].children.len() implies (
    #[trigger] shape.nodes[i].children[k]) < shape.nodes.len() by {
        assert(sits(raws, len, i));
        lemma_chain(raws, i + 1, i + raws[i].size);
    }
    assert forall|i: int| 0 <= i < shape.nodes.len() implies (#[trigger] shape.nodes[i]).start
        <= shape.nodes[i].end <= len by {
        assert(sits(raws, len, i));
    }
}

/// A chain that lands holds, for each position from its start on and
/// before its end, the subtree in which the position lies.
pub proof fn lemma_chain_covers(raws: Seq<RawNode>, at: int, stop: int, v: int)
    requires
        lands(raws, at, stop),
        stop <= raws.len() <= usize::MAX,
        0 <= at <= v < stop,
    ensures
        exists|k: int|
            0 <= k < chain(raws, at, stop).len() && (#[trigger] chain(raws, at, stop)[k]) <= v
                < chain(raws, at, stop)[k] + raws[chain(raws, at, stop)[k] as int].size
                && chain(raws, at, stop)[k] + raws[chain(raws, at, stop)[k] as int].size <= stop,
    decreases stop - at,
{
    let all = chain(raws, at, stop);
    let next = at + raws[at].size;
    if v < next {
        assert(all[0] == at);
    } else {
        let rest = chain(raws, next, stop);
        lemma_chain_covers(raws, next, stop, v);
        let k = choose|k: int|
            0 <= k < rest.len() && (#[trigger] rest[k]) <= v < rest[k] + raws[rest[k] as int].size
                && rest[k] + raws[rest[k] as int].size <= stop;
        assert(all[k + 1] == rest[k]);
    }
}

/// Makes a snapshot of a tree that is given node by node, in document
/// order, for a text of `len` bytes. There is none unless the nodes nest.
pub fn assemble(raws: &Vec<RawNode>, len: usize) -> (shape: Option<Snapshot>)
    ensures
        match shape {
            Some(s) => nests(raws@, len as nat) && follows(s, raws@),
            None => !nests(raws@, len as nat),
        },
{
    let count = raws.len();
    if count == 0 || raws[0].size != count {
        return None;
    }
    let mut i: usize = 0;
    while i < count
        invariant
            i <= count,
            count == raws.len(),
            forall|j: int|
                0 <= j < i ==> (#[trigger] raws[j]).start <= raws[j].end <= len && 1
                    <= raws[j].size <= count - j,
        decreases count - i,
    {
        let raw = &raws[i];
        if raw.start > raw.end || raw.end > len || raw.size == 0 || raw.size > count - i {
            assert(!sits(raws@, len as nat, i as int));
            return None;
        }
        i += 1;
    }
    let mut nodes: Vec<NodeRecord> = Vec::new();
    let mut at: usize = 0;
    while at < count
        invariant
            at <= count,
            count == raws.len(),
            nodes.len() == at,
            forall|j: int|
                0 <= j < count ==> (#[trigger] raws[j]).start <= raws[j].end <= len && 1
                    <= raws[j].size <= count - j,
            forall|a: int| 0 <= a < at ==> #[trigger] sits(raws@, len as nat, a),
            forall|a: int|
                0 <= a < at ==> {
                    &&& (#[trigger] nodes[a]).id == raws[a].id
                    &&& nodes[a].kind@ == raws[a].kind@
                    &&& nodes[a].start == raws[a].start
                    &&& nodes[a].end == raws[a].end
                    &&& nodes[a].children@ == kids(raws@, a)
                },
        decreases count - at,
    {
        let stop = at + raws[at].size;
        let mut children: Vec<usize> = Vec::new();
        let mut child: usize = at + 1;
        assert(Seq::<usize>::empty() + chain(raws@, at + 1, stop as int) =~= chain(
            raws@,
            at + 1,
            stop as int,
        ));
        while child < stop
            invariant
                at < child <= stop <= count,
                stop == at + raws[at as int].size,
                count == raws.len(),
                forall|j: int|
                    0 <= j < count ==> (#[trigger] raws[j]).start <= raws[j].end <= len && 1
                        <= raws[j].size <= count - j,
                lands(raws@, at + 1, stop as int) == lands(raws@, child as int, stop as int),
                chain(raws@, at + 1, stop as int) == children@ + chain(
                    raws@,
                    child as int,
                    stop as int,
                ),
            decreases stop - child,
        {
            let step = raws[child].size;
            if step > stop - child {
                assert(!lands(raws@, child as int, stop as int));
                assert(!sits(raws@, len as nat, at as int));
                return None;
            }
            proof {
                let rest = chain(raws@, child + step, stop as int);
                assert(children@.push(child) + rest =~= children@ + (seq![child] + rest));
            }
            children.push(child);
            child = child + step;
        }
        proof {
            assert(children@ + Seq::<usize>::empty() =~= children@);
            assert(sits(raws@, len as nat, at as int));
        }
        nodes.push(
            NodeRecord {
                id: raws[at].id,
                kind: raws[at].kind.clone(),
                start: raws[at].start,
                end: raws[at].end,
                children,
            },
        );
        at += 1;
    }
    Some(Snapshot { nodes })
}

/// `shape` is the snapshot of some tree in document order over a text of
/// `len` bytes.
pub open spec fn assembled(shape: Snapshot, len: nat) -> bool {
    exists|raws: Seq<RawNode>| nests(raws, len) && #[trigger] follows(shape, raws)
}

/// Reads `tree` into a snapshot, for a text of `len` bytes: the snapshot
/// that follows the nodes of the tree, in document order, the root first.
/// There is a snapshot exactly where the nodes of the tree nest over the
/// text: no span reaches beyond the text or ends before it starts, and the
/// sizes of the subtrees nest.
pub fn capture(tree: &Tree, len: usize) -> (shape: Option<Snapshot>)
    ensures
        match shape {
            Some(s) => nests(tree_nodes(*tree), len as nat) && follows(s, tree_nodes(*tree)),
            None => !nests(tree_nodes(*tree), len as nat),
        },
        shape matches Some(s) ==> s.wf() && s.fits(len as nat) && mirrors(*tree, s) && assembled(
            s,
            len as nat,
        ),
{
    let count = node_count(tree);
    let mut raws: Vec<RawNode> = Vec::new();
    let mut i: usize = 0;
    while i < count
        invariant
            i <= count,
            count == tree_nodes(*tree).len(),
            raws.len() == i,
            forall|j: int| 0 <= j < i ==> (#[trigger] raws[j]) == tree_nodes(*tree)[j],
            forall|j: int|
                0 <= j < i ==> node_spans(*tree).contains_key((#[trigger] raws[j]).id)
                    && node_spans(*tree)[raws[j].id] == (raws[j].start, raws[j].end),
        decreases count - i,
    {
        let raw = node_at(tree, i);
        raws.push(raw);
        i += 1;
    }
    assert(raws@ =~= tree_nodes(*tree));
    let shape = assemble(&raws, len);
    proof {
        if shape is Some {
            lemma_follows(shape->0, raws@, len as nat);
        }
    }
    shape
}

} // verus!
