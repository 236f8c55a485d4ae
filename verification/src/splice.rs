//! The generator: rounds of mutation on a text of the corpus, and the
//! sequence of test cases that come of them.

use crate::branches::budget;
use crate::branches::built;
use crate::branches::Branches;
use crate::branches::Corpus;
use crate::branches::Table;
use crate::bytes::spliced;
use crate::node_types::NodeTypes;
use crate::parsing::capture;
use crate::parsing::follows;
use crate::parsing::mirrors;
use crate::parsing::nests;
use crate::parsing::parse;
use crate::parsing::taken;
use crate::parsing::takes;
use crate::parsing::tree_nodes;
use crate::parsing::ParseError;
use crate::render::render_replace;
use crate::rng::may_roll;
use crate::rng::pick_usize;
use crate::rng::roll;
use crate::rng::seeded;
use crate::select::delete_node;
use crate::select::every_candidate_rich;
use crate::select::every_pool_rich;
use crate::select::no_candidate_rich;
use crate::select::deletes;
use crate::select::rich;
use crate::select::splice_node;
use crate::select::substitutes;
use crate::select::Edit;
use crate::snapshot::Snapshot;
use rand::rngs::StdRng;
use tree_sitter::Language;
use tree_sitter::Tree;
use vstd::prelude::*;
use vstd::slice::slice_to_vec;

verus! {

/// The settings of a session.
#[derive(Debug)]
pub struct Config {
    /// The chances in a hundred that a decision ignores kinds and
    /// optionality.
    pub chaos: u8,
    /// The chances in a hundred that a round deletes.
    pub deletions: u8,
    /// The grammar that the texts are parsed with.
    pub language: Language,
    /// The number of rounds on one test case stays below this.
    pub inter_splices: usize,
    /// Which kinds of node are optional.
    pub node_types: NodeTypes,
    /// The seed of the random draws.
    pub seed: u64,
    /// How many test cases are asked for.
    pub tests: usize,
}

/// Why a session, or one test case, came to nothing.
#[derive(Debug, Clone, Copy, PartialEq, Eq, Structural)]
pub enum SpliceError {
    /// The parser does not take the grammar.
    Language,
    /// The parser gave no tree for a text.
    NoTree,
    /// A tree does not go with its text.
    Mismatch,
    /// An edit could not be rendered.
    Render,
}

/// The smaller of two numbers.
pub open spec fn least(a: nat, b: nat) -> nat {
    if a <= b {
        a
    } else {
        b
    }
}

/// `after` is `before` with one span replaced by `bytes`.
pub open spec fn one_edit(before: Seq<u8>, after: Seq<u8>, bytes: Seq<u8>) -> bool {
    exists|start: int, end: int|
        0 <= start <= end <= before.len() && after == #[trigger] spliced(before, start, end, bytes)
}

/// `after` is `before` with one span replaced by a fragment of a pool of
/// `table` that has two fragments or more.
pub open spec fn one_substitution(table: Table, before: Seq<u8>, after: Seq<u8>) -> bool {
    exists|at: int, f: int|
        rich(table, at) && 0 <= f < table[at].1.len() && one_edit(
            before,
            after,
            #[trigger] table[at].1[f],
        )
}

/// What one round may make of `before`: with a span deleted, unless no
/// round deletes; with a substitution, or unchanged where none was found,
/// unless every round deletes.
pub open spec fn round(table: Table, deletions: u8, before: Seq<u8>, after: Seq<u8>) -> bool {
    ||| deletions > 0 && one_edit(before, after, Seq::empty())
    ||| deletions < 100 && after == before
    ||| deletions < 100 && one_substitution(table, before, after)
}

/// Each text of `texts` comes of the one before it by one round.
pub open spec fn derived(table: Table, deletions: u8, texts: Seq<Seq<u8>>) -> bool {
    forall|i: int|
        0 <= i < texts.len() - 1 ==> round(table, deletions, #[trigger] texts[i], texts[i + 1])
}

/// `to` comes of `from` by rounds, fewer than `limit` of them.
pub open spec fn reaches(table: Table, deletions: u8, limit: nat, from: Seq<u8>, to: Seq<u8>) -> bool {
    exists|texts: Seq<Seq<u8>>| #[trigger]
        derived(table, deletions, texts) && 1 <= texts.len() <= limit && texts[0] == from
            && texts.last() == to
}

/// What a round may decide on: a deletion where `deleting`, else a
/// substitution or nothing.
pub open spec fn decided(
    shape: Snapshot,
    table: Table,
    config: Config,
    deleting: bool,
    edit: Option<Edit>,
) -> bool {
    if deleting {
        edit matches Some(e) && deletes(shape, config.node_types, config.chaos, e)
    } else {
        edit matches Some(e) ==> substitutes(shape, table, config.chaos, e)
    }
}

/// Decides what a round does: with `deletions` chances in a hundred a
/// deletion, else a substitution. There is an edit for certain where every
/// round deletes; without chaos, where every node that could be drawn has a
/// pool of two fragments or more for its kind; and under a chaos of 100,
/// where every pool of the table has two fragments or more.
pub fn next_edit(
    rng: &mut StdRng,
    config: &Config,
    branches: &Branches,
    text: &[u8],
    shape: &Snapshot,
) -> (edit: Option<Edit>)
    requires
        branches.wf(),
        shape.wf(),
        shape.fits(text@.len()),
    ensures
        exists|deleting: bool| #[trigger]
            may_roll(config.deletions, deleting) && decided(
                *shape,
                branches@,
                *config,
                deleting,
                edit,
            ),
        edit matches Some(e) ==> e.node < shape.nodes.len(),
        config.deletions >= 100 ==> edit is Some,
        config.chaos == 0 && every_candidate_rich(*shape, branches@) ==> edit is Some,
        config.chaos >= 100 && every_pool_rich(branches@) ==> edit is Some,
        config.deletions == 0 && (forall|at: int| !rich(branches@, at)) ==> edit is None,
        config.deletions == 0 && config.chaos == 0 && no_candidate_rich(*shape, branches@)
            ==> edit is None,
{
    let deleting = roll(rng, config.deletions);
    let edit = if deleting {
        Some(delete_node(rng, config.chaos, &config.node_types, shape))
    } else {
        splice_node(rng, config.chaos, branches, text, shape)
    };
    assert(may_roll(config.deletions, deleting) && decided(
        *shape,
        branches@,
        *config,
        deleting,
        edit,
    ));
    edit
}

/// The error of a session for a failure to parse.
pub fn parse_failure(error: ParseError) -> (failure: SpliceError)
    ensures
        failure == match error {
            ParseError::Language => SpliceError::Language,
            ParseError::NoTree => SpliceError::NoTree,
        },
{
    match error {
        ParseError::Language => SpliceError::Language,
        ParseError::NoTree => SpliceError::NoTree,
    }
}

/// The text, tree and snapshot of one stage of a test case.
#[derive(Debug)]
pub struct Stage {
    pub text: Vec<u8>,
    pub tree: Tree,
    pub shape: Snapshot,
}

impl Stage {
    /// The snapshot is well formed and goes with the text and the tree.
    pub open spec fn wf(&self) -> bool {
        &&& self.shape.wf()
        &&& self.shape.fits(self.text@.len())
        &&& mirrors(self.tree, self.shape)
    }
}

/// Applies `edit` to `text`: the text is rendered with the node replaced,
/// and parsed anew. What stands before and behind the node stays; a
/// deletion makes the text shorter by the length of the node's span. The
/// parser takes the grammar. It fails with `Render` where the text could
/// not be written, and with `Mismatch` where the new tree does not go with
/// the new text.
pub fn rewrite(language: &Language, text: &[u8], tree: &Tree, shape: &Snapshot, edit: &Edit) -> (next:
    Result<Stage, SpliceError>)
    requires
        takes(*language),
        shape.wf(),
        shape.fits(text@.len()),
        mirrors(*tree, *shape),
        edit.node < shape.nodes.len(),
    ensures
        next matches Ok(stage) ==> stage.wf() && stage.text@ == spliced(
            text@,
            shape.nodes[edit.node as int].start as int,
            shape.nodes[edit.node as int].end as int,
            edit.bytes@,
        ),
        next matches Ok(stage) ==> stage.text@.len() == text@.len() - (
        shape.nodes[edit.node as int].end - shape.nodes[edit.node as int].start)
            + edit.bytes@.len(),
        next matches Ok(stage) ==> follows(stage.shape, tree_nodes(stage.tree)),
        next matches Err(error) ==> error == SpliceError::Render || error == SpliceError::Mismatch,
{
    let record = &shape.nodes[edit.node];
    let written = match render_replace(tree, text, record.id, &edit.bytes) {
        Ok(written) => written,
        Err(_) => {
            return Err(SpliceError::Render);
        },
    };
    let parsed = match parse(language, written.as_slice()) {
        Ok(parsed) => parsed,
        Err(error) => {
            return Err(parse_failure(error));
        },
    };
    match capture(&parsed, written.len()) {
        Some(captured) => Ok(Stage { text: written, tree: parsed, shape: captured }),
        None => Err(SpliceError::Mismatch),
    }
}

/// `after` is `text` with the span of the node of `edit` replaced by the
/// bytes of `edit`.
pub open spec fn made_by(shape: Snapshot, text: Seq<u8>, edit: Edit, after: Seq<u8>) -> bool {
    &&& edit.node < shape.nodes.len()
    &&& after == spliced(
        text,
        shape.nodes[edit.node as int].start as int,
        shape.nodes[edit.node as int].end as int,
        edit.bytes@,
    )
}

/// `after` is `text` after an edit that a round on the tree `shape` may
/// decide on: a deletion or a substitution as `decided` has them, applied
/// to the span of its node.
pub open spec fn edited(shape: Snapshot, table: Table, config: Config, text: Seq<u8>, after: Seq<u8>) -> bool {
    exists|edit: Edit, deleting: bool|
        may_roll(config.deletions, deleting) && #[trigger] decided(
            shape,
            table,
            config,
            deleting,
            Some(edit),
        ) && made_by(shape, text, edit, after)
}

/// An edit that a round may decide on changes the text as a round may.
pub proof fn lemma_edited_is_a_round(
    shape: Snapshot,
    table: Table,
    config: Config,
    text: Seq<u8>,
    after: Seq<u8>,
)
    requires
        shape.fits(text.len()),
        edited(shape, table, config, text, after),
    ensures
        round(table, config.deletions, text, after),
{
    let (edit, deleting) = choose|edit: Edit, deleting: bool|
        may_roll(config.deletions, deleting) && #[trigger] decided(
            shape,
            table,
            config,
            deleting,
            Some(edit),
        ) && made_by(shape, text, edit, after);
    let start = shape.nodes[edit.node as int].start as int;
    let end = shape.nodes[edit.node as int].end as int;
    assert(after == spliced(text, start, end, edit.bytes@));
    assert(one_edit(text, after, edit.bytes@));
    if deleting {
        assert(edit.bytes@ =~= Seq::<u8>::empty());
    } else {
        let at = choose|at: int| #[trigger]
            rich(table, at) && table[at].1.contains(edit.bytes@) && (config.chaos == 0
                ==> table[at].0 == shape.nodes[edit.node as int].kind@);
        let f = choose|f: int| 0 <= f < table[at].1.len() && table[at].1[f] == edit.bytes@;
        assert(one_edit(text, after, table[at].1[f]));
        assert(one_substitution(table, text, after));
    }
}

/// One round on `text`, with a grammar that the parser takes: an edit is
/// decided on and applied to the span of its node. There is no new stage,
/// and no failure, where the round found no substitution: never where
/// every round deletes, nor where `next_edit` is certain of an edit; and
/// for certain where no round deletes and the table has no pool of two
/// fragments or more, or, without chaos, none for the kind of any node
/// that could be drawn.
pub fn mutate(
    rng: &mut StdRng,
    config: &Config,
    branches: &Branches,
    text: &[u8],
    tree: &Tree,
    shape: &Snapshot,
) -> (next: Result<Option<Stage>, SpliceError>)
    requires
        takes(config.language),
        branches.wf(),
        shape.wf(),
        shape.fits(text@.len()),
        mirrors(*tree, *shape),
    ensures
        next matches Ok(Some(stage)) ==> stage.wf() && edited(
            *shape,
            branches@,
            *config,
            text@,
            stage.text@,
        ) && round(branches@, config.deletions, text@, stage.text@),
        next matches Ok(Some(stage)) ==> follows(stage.shape, tree_nodes(stage.tree)),
        next matches Ok(None) ==> config.deletions < 100 && !(config.chaos == 0
            && every_candidate_rich(*shape, branches@)) && !(config.chaos >= 100
            && every_pool_rich(branches@)),
        config.deletions == 0 && (forall|at: int| !rich(branches@, at)) ==> next matches Ok(None),
        config.deletions == 0 && config.chaos == 0 && no_candidate_rich(*shape, branches@)
            ==> next matches Ok(None),
        next matches Err(error) ==> error == SpliceError::Render || error == SpliceError::Mismatch,
{
    let edit = next_edit(rng, config, branches, text, shape);
    let ghost deleting = choose|deleting: bool| #[trigger]
        may_roll(config.deletions, deleting) && decided(
            *shape,
            branches@,
            *config,
            deleting,
            edit,
        );
    match edit {
        None => Ok(None),
        Some(e) => {
            match rewrite(&config.language, text, tree, shape, &e) {
                Err(failure) => Err(failure),
                Ok(stage) => {
                    proof {
                        assert(decided(*shape, branches@, *config, deleting, Some(e)));
                        assert(made_by(*shape, text@, e, stage.text@));
                        lemma_edited_is_a_round(*shape, branches@, *config, text@, stage.text@);
                    }
                    Ok(Some(stage))
                },
            }
        },
    }
}

/// What follows a round: its failure ends the test case; where it left no
/// new stage, the stage before it stays; else its stage is the next one.
pub fn carry(stage: Option<Stage>, next: Result<Option<Stage>, SpliceError>) -> (carried: Result<
    Option<Stage>,
    SpliceError,
>)
    ensures
        carried == (match next {
            Err(failure) => Err::<Option<Stage>, SpliceError>(failure),
            Ok(None) => Ok::<Option<Stage>, SpliceError>(stage),
            Ok(Some(after)) => Ok::<Option<Stage>, SpliceError>(Some(after)),
        }),
{
    match next {
        Err(failure) => Err(failure),
        Ok(None) => Ok(stage),
        Ok(Some(after)) => Ok(Some(after)),
    }
}

/// One step of a test case on the tree `before.1` of the text `before.0`:
/// the text stays, unless every round deletes, or is edited as a round on
/// that tree may.
pub open spec fn step(
    table: Table,
    config: Config,
    before: (Seq<u8>, Snapshot),
    after: (Seq<u8>, Snapshot),
) -> bool {
    ||| config.deletions < 100 && after == before
    ||| edited(before.1, table, config, before.0, after.0)
}

/// Each text of `stages`, with its tree, comes of the one before it by one
/// step.
pub open spec fn traced(table: Table, config: Config, stages: Seq<(Seq<u8>, Snapshot)>) -> bool {
    forall|i: int|
        0 <= i < stages.len() - 1 ==> step(table, config, #[trigger] stages[i], stages[i + 1])
}

/// `to` comes of `from`, with the tree `shape`, by `rounds` steps.
pub open spec fn reaches_by(
    table: Table,
    config: Config,
    rounds: nat,
    from: Seq<u8>,
    shape: Snapshot,
    to: Seq<u8>,
) -> bool {
    exists|stages: Seq<(Seq<u8>, Snapshot)>| #[trigger]
        traced(table, config, stages) && stages.len() == rounds + 1 && stages[0] == (from, shape)
            && stages.last().0 == to
}

/// `to` comes of `from` by `rounds` rounds.
pub open spec fn reaches_in(table: Table, deletions: u8, rounds: nat, from: Seq<u8>, to: Seq<u8>) -> bool {
    exists|texts: Seq<Seq<u8>>| #[trigger]
        derived(table, deletions, texts) && texts.len() == rounds + 1 && texts[0] == from
            && texts.last() == to
}

/// Mutates `text` in `rounds` rounds: each works on the text and the tree
/// that the round before it left. A round that fails ends the test case
/// with its error, and nothing of the text comes back. The text comes
/// back as it was, for certain, where there is no round, and where no
/// round can find an edit: where no round deletes and the table has no
/// pool of two fragments or more, or, without chaos, none for the kind of
/// any node of the tree that could be drawn.
pub fn splice_rounds(
    rng: &mut StdRng,
    config: &Config,
    branches: &Branches,
    text: &[u8],
    tree: &Tree,
    shape: &Snapshot,
    rounds: usize,
) -> (mutated: Result<Vec<u8>, SpliceError>)
    requires
        takes(config.language),
        branches.wf(),
        shape.wf(),
        shape.fits(text@.len()),
        mirrors(*tree, *shape),
    ensures
        mutated matches Ok(out) ==> reaches_in(
            branches@,
            config.deletions,
            rounds as nat,
            text@,
            out@,
        ),
        mutated matches Ok(out) ==> reaches_by(
            branches@,
            *config,
            rounds as nat,
            text@,
            *shape,
            out@,
        ),
        rounds == 0 ==> (mutated matches Ok(out) && out@ == text@),
        config.deletions == 0 && (forall|at: int| !rich(branches@, at)) ==> (mutated matches Ok(
            out,
        ) && out@ == text@),
        config.deletions == 0 && config.chaos == 0 && no_candidate_rich(*shape, branches@) ==> (
        mutated matches Ok(out) && out@ == text@),
        mutated matches Err(error) ==> error == SpliceError::Render || error
            == SpliceError::Mismatch,
{
    let mut stage: Option<Stage> = None;
    let ghost mut texts: Seq<Seq<u8>> = seq![text@];
    let ghost mut stages: Seq<(Seq<u8>, Snapshot)> = seq![(text@, *shape)];
    let mut done: usize = 0;
    while done < rounds
        invariant
            done <= rounds,
            branches.wf(),
            shape.wf(),
            shape.fits(text@.len()),
            mirrors(*tree, *shape),
            stage matches Some(s) ==> s.wf(),
            texts.len() == done + 1,
            texts[0] == text@,
            texts.last() == (match stage {
                Some(s) => s.text@,
                None => text@,
            }),
            derived(branches@, config.deletions, texts),
            stages.len() == done + 1,
            stages[0] == (text@, *shape),
            stages.last() == (match stage {
                Some(s) => (s.text@, s.shape),
                None => (text@, *shape),
            }),
            traced(branches@, *config, stages),
            takes(config.language),
            config.deletions == 0 && (forall|at: int| !rich(branches@, at)) ==> stage is None,
            config.deletions == 0 && config.chaos == 0 && no_candidate_rich(*shape, branches@)
                ==> stage is None,
        decreases rounds - done,
    {
        let next = match &stage {
            Some(s) => mutate(rng, config, branches, s.text.as_slice(), &s.tree, &s.shape),
            None => mutate(rng, config, branches, text, tree, shape),
        };
        let ghost before = texts;
        let ghost traced_before = stages;
        match carry(stage, next) {
            Err(failure) => {
                return Err(failure);
            },
            Ok(carried) => {
                stage = carried;
            },
        }
        proof {
            let now = if stage is Some {
                (stage->0.text@, stage->0.shape)
            } else {
                (text@, *shape)
            };
            texts = before.push(now.0);
            stages = traced_before.push(now);
            assert forall|i: int| 0 <= i < texts.len() - 1 implies round(
                branches@,
                config.deletions,
                #[trigger] texts[i],
                texts[i + 1],
            ) by {
                if i < before.len() - 1 {
                    assert(texts[i] == before[i]);
                    assert(texts[i + 1] == before[i + 1]);
                }
            }
            assert forall|i: int| 0 <= i < stages.len() - 1 implies step(
                branches@,
                *config,
                #[trigger] stages[i],
                stages[i + 1],
            ) by {
                if i < traced_before.len() - 1 {
                    assert(stages[i] == traced_before[i]);
                    assert(stages[i + 1] == traced_before[i + 1]);
                }
            }
        }
        done += 1;
    }
    let out = match stage {
        Some(s) => s.text,
        None => slice_to_vec(text),
    };
    assert(derived(branches@, config.deletions, texts) && texts.len() == rounds + 1 && texts[0]
        == text@ && texts.last() == out@);
    assert(traced(branches@, *config, stages) && stages.len() == rounds + 1 && stages[0] == (
        text@,
        *shape,
    ) && stages.last().0 == out@);
    Ok(out)
}

/// Mutates `text` in rounds: their number is drawn below
/// `config.inter_splices`, and each works on the text and the tree that the
/// round before it left. A round that fails ends the test case with its
/// error. The text comes back as it was, for certain, under a limit of one
/// round and where no round can find an edit.
pub fn splice_tree(
    rng: &mut StdRng,
    config: &Config,
    branches: &Branches,
    text: &[u8],
    tree: &Tree,
    shape: &Snapshot,
) -> (mutated: Result<Vec<u8>, SpliceError>)
    requires
        config.inter_splices > 0,
        takes(config.language),
        branches.wf(),
        shape.wf(),
        shape.fits(text@.len()),
        mirrors(*tree, *shape),
    ensures
        mutated matches Ok(out) ==> reaches(
            branches@,
            config.deletions,
            config.inter_splices as nat,
            text@,
            out@,
        ),
        mutated matches Ok(out) ==> exists|rounds: nat|
            rounds < config.inter_splices && #[trigger] reaches_by(
                branches@,
                *config,
                rounds,
                text@,
                *shape,
                out@,
            ),
        config.inter_splices == 1 ==> (mutated matches Ok(out) && out@ == text@),
        config.deletions == 0 && (forall|at: int| !rich(branches@, at)) ==> (mutated matches Ok(
            out,
        ) && out@ == text@),
        config.deletions == 0 && config.chaos == 0 && no_candidate_rich(*shape, branches@) ==> (
        mutated matches Ok(out) && out@ == text@),
        mutated matches Err(error) ==> error == SpliceError::Render || error
            == SpliceError::Mismatch,
{
    let rounds = pick_usize(rng, config.inter_splices);
    let mutated = splice_rounds(rng, config, branches, text, tree, shape, rounds);
    proof {
        if mutated is Ok {
            let out = mutated->Ok_0;
            let texts = choose|texts: Seq<Seq<u8>>| #[trigger]
                derived(branches@, config.deletions, texts) && texts.len() == rounds + 1
                    && texts[0] == text@ && texts.last() == out@;
            assert(derived(branches@, config.deletions, texts) && 1 <= texts.len()
                <= config.inter_splices as nat && texts[0] == text@ && texts.last() == out@);
            assert(reaches_by(branches@, *config, rounds as nat, text@, *shape, out@));
        }
    }
    mutated
}

/// A session: the corpus with its table, the settings, and how many test
/// cases are left to produce.
pub struct Splicer<'a> {
    config: Config,
    branches: Branches,
    files: &'a Vec<(String, (Vec<u8>, Tree))>,
    shapes: Vec<Snapshot>,
    remaining: usize,
    rng: StdRng,
}

/// `item` comes of a text of `corpus` by rounds, fewer than `limit`.
pub open spec fn produced(table: Table, deletions: u8, limit: nat, corpus: Corpus, item: Seq<u8>) -> bool {
    exists|i: int|
        0 <= i < corpus.len() && reaches(table, deletions, limit, (#[trigger] corpus[i]).0, item)
}

/// The corpus that files and the snapshots of their trees stand for: each
/// text with its snapshot.
pub open spec fn corpus_from(files: Seq<(String, (Vec<u8>, Tree))>, shapes: Seq<Snapshot>) -> Corpus {
    Seq::new(files.len(), |i: int| (files[i].1.0@, shapes[i]))
}

/// `item` comes of a text of `corpus`, with its tree, by steps, fewer than
/// `config.inter_splices`.
pub open spec fn produced_by(table: Table, config: Config, corpus: Corpus, item: Seq<u8>) -> bool {
    exists|i: int, rounds: nat|
        0 <= i < corpus.len() && rounds < config.inter_splices && #[trigger] reaches_by(
            table,
            config,
            rounds,
            corpus[i].0,
            corpus[i].1,
            item,
        )
}

/// No round of a session can find an edit: no round deletes, there is no
/// chaos, and in no tree of `corpus` has a node that could be drawn a pool
/// of two fragments or more for its kind.
pub open spec fn no_choice(config: Config, corpus: Corpus, table: Table) -> bool {
    &&& config.deletions == 0
    &&& config.chaos == 0
    &&& forall|i: int| 0 <= i < corpus.len() ==> no_candidate_rich((#[trigger] corpus[i]).1, table)
}

/// A try of a session is certain to give a text of `corpus` as it is: the
/// limit is one round, or no round can find an edit.
pub open spec fn surely_unchanged(config: Config, corpus: Corpus, table: Table) -> bool {
    config.inter_splices == 1 || no_choice(config, corpus, table)
}

/// `item` is one of the texts of `corpus`.
pub open spec fn is_text_of(corpus: Corpus, item: Seq<u8>) -> bool {
    exists|i: int| 0 <= i < corpus.len() && (#[trigger] corpus[i]).0 == item
}

impl<'a> Splicer<'a> {
    /// The settings of the session.
    pub closed spec fn settings(&self) -> Config {
        self.config
    }

    /// The branch table of the corpus.
    pub closed spec fn table(&self) -> Table {
        self.branches@
    }

    /// The corpus: each text with the snapshot of its tree.
    pub closed spec fn corpus(&self) -> Corpus {
        corpus_from(self.files@, self.shapes@)
    }

    /// How many test cases are left to produce.
    pub closed spec fn left(&self) -> nat {
        self.remaining as nat
    }

    /// The session is in order: the parser takes the grammar, the snapshots
    /// go with the texts and trees of the corpus, the table is that of the
    /// corpus, and no more test cases are left than the budget allows.
    pub closed spec fn wf(&self) -> bool {
        &&& takes(self.config.language)
        &&& self.shapes.len() == self.files.len()
        &&& forall|i: int|
            0 <= i < self.shapes.len() ==> (#[trigger] self.shapes[i]).wf() && self.shapes[i].fits(
                self.files[i].1.0@.len(),
            ) && mirrors(self.files[i].1.1, self.shapes[i])
        &&& self.branches.wf()
        &&& self.branches@ == built(self.corpus(), self.files.len() as int)
        &&& self.remaining <= budget(self.branches@)
    }

    /// The session on the corpus `files` whose trees were read into
    /// `shapes`, with a grammar that the parser takes (`taken` tells): the
    /// table is built from the whole corpus, the generator is
    /// seeded, and as many test cases are left as are asked for, and no
    /// more than the budget of the table.
    pub fn new(config: Config, files: &'a Vec<(String, (Vec<u8>, Tree))>, shapes: Vec<Snapshot>) -> (session:
        Self)
        requires
            takes(config.language),
            shapes.len() == files.len(),
            forall|i: int|
                0 <= i < shapes.len() ==> (#[trigger] shapes[i]).wf() && shapes[i].fits(
                    files[i].1.0@.len(),
                ) && mirrors(files[i].1.1, shapes[i]),
        ensures
            session.wf(),
            session.settings() == config,
            session.corpus() == corpus_from(files@, shapes@),
            session.table() == built(session.corpus(), files.len() as int),
            session.left() == least(config.tests as nat, budget(session.table())),
    {
        let mut trees: Vec<(&[u8], &Snapshot)> = Vec::new();
        let mut k: usize = 0;
        while k < files.len()
            invariant
                k <= files.len(),
                shapes.len() == files.len(),
                trees.len() == k,
                forall|j: int|
                    0 <= j < k ==> (#[trigger] trees[j]).0@ == files[j].1.0@ && *trees[j].1
                        == shapes[j],
            decreases files.len() - k,
        {
            trees.push((files[k].1.0.as_slice(), &shapes[k]));
            k += 1;
        }
        let branches = Branches::new(&trees);
        let possible = branches.possible();
        let remaining = if config.tests < possible {
            config.tests
        } else {
            possible
        };
        let rng = seeded(config.seed);
        let ghost listed = crate::branches::corpus_of(trees@);
        assert(listed =~= corpus_from(files@, shapes@));
        Splicer { config, branches, files, shapes, remaining, rng }
    }

    /// How many test cases are left to produce.
    pub fn remaining(&self) -> (left: usize)
        ensures
            left == self.left(),
    {
        self.remaining
    }

    /// The mutation budget of the corpus, up to the largest `usize`.
    pub fn possible(&self) -> (possible: usize)
        requires
            self.wf(),
        ensures
            possible == least(budget(self.table()), usize::MAX as nat),
    {
        self.branches.possible()
    }

    /// Tries one test case: a text of the corpus is drawn, each as likely
    /// as the other, and mutated in rounds, whose number is drawn below the
    /// limit of the settings. The try counts among the test cases that were
    /// asked for, whether it fails or not. It gives a text of the corpus as
    /// it is, for certain, under a limit of one round and where no round
    /// can find an edit.
    pub fn attempt(&mut self) -> (case: Result<Vec<u8>, SpliceError>)
        requires
            old(self).wf(),
            old(self).left() > 0,
            old(self).settings().inter_splices > 0,
        ensures
            final(self).wf(),
            final(self).settings() == old(self).settings(),
            final(self).table() == old(self).table(),
            final(self).corpus() == old(self).corpus(),
            final(self).left() == old(self).left() - 1,
            case matches Ok(out) ==> produced(
                old(self).table(),
                old(self).settings().deletions,
                old(self).settings().inter_splices as nat,
                old(self).corpus(),
                out@,
            ),
            case matches Ok(out) ==> produced_by(
                old(self).table(),
                old(self).settings(),
                old(self).corpus(),
                out@,
            ),
            surely_unchanged(old(self).settings(), old(self).corpus(), old(self).table()) ==> (
            case matches Ok(out) && is_text_of(old(self).corpus(), out@)),
            case matches Err(error) ==> error == SpliceError::Render || error
                == SpliceError::Mismatch,
    {
        self.remaining = self.remaining - 1;
        let files = self.files;
        assert(files.len() > 0) by {
            if files.len() == 0 {
                assert(budget(built(self.corpus(), 0)) == 0);
            }
        }
        let at = pick_usize(&mut self.rng, files.len());
        let entry = &files[at];
        assert(self.shapes[at as int].wf());
        assert(self.corpus()[at as int] == (entry.1.0@, self.shapes[at as int]));
        let case = splice_tree(
            &mut self.rng,
            &self.config,
            &self.branches,
            entry.1.0.as_slice(),
            &entry.1.1,
            &self.shapes[at],
        );
        proof {
            if case is Ok {
                let out = case->Ok_0@;
                let rounds = choose|rounds: nat|
                    rounds < self.config.inter_splices && #[trigger] reaches_by(
                        self.branches@,
                        self.config,
                        rounds,
                        entry.1.0@,
                        self.shapes[at as int],
                        out,
                    );
                assert(reaches_by(
                    self.table(),
                    self.settings(),
                    rounds,
                    self.corpus()[at as int].0,
                    self.corpus()[at as int].1,
                    out,
                ));
            }
        }
        case
    }

    /// The next test case. A try that fails is passed over, and the next
    /// one is made in its place; there is no test case when none is left
    /// to try, and then nothing is drawn. Where a try is certain to give a
    /// text of the corpus as it is, the first try is the test case.
    pub fn next(&mut self) -> (item: Option<Vec<u8>>)
        requires
            old(self).wf(),
            old(self).left() > 0 ==> old(self).settings().inter_splices > 0,
        ensures
            final(self).wf(),
            final(self).settings() == old(self).settings(),
            final(self).table() == old(self).table(),
            final(self).corpus() == old(self).corpus(),
            final(self).left() <= old(self).left(),
            item is Some ==> final(self).left() < old(self).left(),
            item is None ==> final(self).left() == 0,
            old(self).left() == 0 ==> *final(self) == *old(self),
            item matches Some(out) ==> produced(
                old(self).table(),
                old(self).settings().deletions,
                old(self).settings().inter_splices as nat,
                old(self).corpus(),
                out@,
            ),
            item matches Some(out) ==> produced_by(
                old(self).table(),
                old(self).settings(),
                old(self).corpus(),
                out@,
            ),
            old(self).left() > 0 && surely_unchanged(
                old(self).settings(),
                old(self).corpus(),
                old(self).table(),
            ) ==> item is Some && final(self).left() == old(self).left() - 1,
            surely_unchanged(old(self).settings(), old(self).corpus(), old(self).table()) ==> (
            item matches Some(out) ==> is_text_of(old(self).corpus(), out@)),
    {
        while self.remaining > 0
            invariant
                self.wf(),
                old(self).left() > 0 ==> old(self).settings().inter_splices > 0,
                self.settings() == old(self).settings(),
                self.table() == old(self).table(),
                self.corpus() == old(self).corpus(),
                self.left() <= old(self).left(),
                old(self).left() == 0 ==> *self == *old(self),
                surely_unchanged(old(self).settings(), old(self).corpus(), old(self).table())
                    ==> self.left() == old(self).left(),
            decreases self.remaining,
        {
            match self.attempt() {
                Ok(out) => {
                    return Some(out);
                },
                Err(_) => {},
            }
        }
        None
    }

    /// All the test cases that are left, in the order in which they are
    /// produced. Where a try is certain to give a text of the corpus as it
    /// is, there are as many as were left, each a text of the corpus.
    pub fn collect(&mut self) -> (items: Vec<Vec<u8>>)
        requires
            old(self).wf(),
            old(self).left() > 0 ==> old(self).settings().inter_splices > 0,
        ensures
            final(self).wf(),
            final(self).settings() == old(self).settings(),
            final(self).table() == old(self).table(),
            final(self).corpus() == old(self).corpus(),
            final(self).left() == 0,
            old(self).left() == 0 ==> *final(self) == *old(self),
            items.len() <= old(self).left(),
            surely_unchanged(old(self).settings(), old(self).corpus(), old(self).table())
                ==> items.len() == old(self).left(),
            forall|k: int|
                0 <= k < items.len() ==> produced(
                    old(self).table(),
                    old(self).settings().deletions,
                    old(self).settings().inter_splices as nat,
                    old(self).corpus(),
                    (#[trigger] items[k])@,
                ),
            forall|k: int|
                0 <= k < items.len() ==> produced_by(
                    old(self).table(),
                    old(self).settings(),
                    old(self).corpus(),
                    (#[trigger] items[k])@,
                ),
            surely_unchanged(old(self).settings(), old(self).corpus(), old(self).table())
                ==> forall|k: int|
                0 <= k < items.len() ==> is_text_of(old(self).corpus(), (#[trigger] items[k])@),
    {
        let mut items: Vec<Vec<u8>> = Vec::new();
        while self.remaining > 0
            invariant
                self.wf(),
                old(self).left() > 0 ==> old(self).settings().inter_splices > 0,
                self.settings() == old(self).settings(),
                self.table() == old(self).table(),
                self.corpus() == old(self).corpus(),
                items.len() + self.left() <= old(self).left(),
                surely_unchanged(old(self).settings(), old(self).corpus(), old(self).table())
                    ==> items.len() + self.left() == old(self).left(),
                forall|k: int|
                    0 <= k < items.len() ==> produced(
                        old(self).table(),
                        old(self).settings().deletions,
                        old(self).settings().inter_splices as nat,
                        old(self).corpus(),
                        (#[trigger] items[k])@,
                    ),
                forall|k: int|
                    0 <= k < items.len() ==> produced_by(
                        old(self).table(),
                        old(self).settings(),
                        old(self).corpus(),
                        (#[trigger] items[k])@,
                    ),
                surely_unchanged(old(self).settings(), old(self).corpus(), old(self).table())
                    ==> forall|k: int|
                    0 <= k < items.len() ==> is_text_of(old(self).corpus(), (#[trigger] items[k])@),
                old(self).left() == 0 ==> *self == *old(self),
            decreases self.remaining,
        {
            match self.next() {
                Some(item) => {
                    items.push(item);
                },
                None => {},
            }
        }
        items
    }
}

/// The tree of `file` goes with its text: its nodes nest over the text.
pub open spec fn goes_with_its_text(file: (String, (Vec<u8>, Tree))) -> bool {
    nests(tree_nodes(file.1.1), file.1.0@.len())
}

/// Sets a session up on the corpus `files`: texts with their trees, each
/// under its name. Each tree is read into a snapshot; the table is built
/// once, from the whole corpus; the session will produce as many test
/// cases as are asked for, and no more than the budget of the table. There
/// is a session exactly where the parser takes the grammar and every tree
/// goes with its text: else the error is `SpliceError::Language` for the
/// grammar, and `SpliceError::Mismatch` for a tree.
pub fn splice<'a>(config: Config, files: &'a Vec<(String, (Vec<u8>, Tree))>) -> (made: Result<
    Splicer<'a>,
    SpliceError,
>)
    ensures
        made matches Ok(session) ==> {
            &&& session.wf()
            &&& session.settings() == config
            &&& session.corpus().len() == files.len()
            &&& forall|i: int|
                0 <= i < files.len() ==> (#[trigger] session.corpus()[i]).0 == files[i].1.0@
            &&& forall|i: int|
                0 <= i < files.len() ==> follows(
                    (#[trigger] session.corpus()[i]).1,
                    tree_nodes(files[i].1.1),
                )
            &&& session.table() == built(session.corpus(), files.len() as int)
            &&& session.left() == least(config.tests as nat, budget(session.table()))
        },
        made is Ok <==> takes(config.language) && forall|i: int|
            0 <= i < files.len() ==> goes_with_its_text(#[trigger] files[i]),
        !takes(config.language) ==> (made matches Err(error) && error == SpliceError::Language),
        takes(config.language) ==> (made matches Err(error) ==> error == SpliceError::Mismatch),
{
    if !taken(&config.language) {
        return Err(SpliceError::Language);
    }
    let mut shapes: Vec<Snapshot> = Vec::new();
    let mut i: usize = 0;
    while i < files.len()
        invariant
            i <= files.len(),
            shapes.len() == i,
            forall|j: int|
                0 <= j < i ==> (#[trigger] shapes[j]).wf() && shapes[j].fits(files[j].1.0@.len())
                    && mirrors(files[j].1.1, shapes[j]) && follows(
                    shapes[j],
                    tree_nodes(files[j].1.1),
                ),
            forall|j: int| 0 <= j < i ==> goes_with_its_text(#[trigger] files[j]),
            takes(config.language),
        decreases files.len() - i,
    {
        match capture(&files[i].1.1, files[i].1.0.len()) {
            Some(shape) => {
                shapes.push(shape);
            },
            None => {
                assert(!goes_with_its_text(files[i as int]));
                return Err(SpliceError::Mismatch);
            },
        }
        i += 1;
    }
    Ok(Splicer::new(config, files, shapes))
}

} // verus!
