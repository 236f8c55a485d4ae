//! Which kinds of node a grammar lets be left out.

use crate::snapshot::NodeRecord;
use vstd::prelude::*;

verus! {

/// The kinds of node that may be removed without leaving a gap that the
/// grammar requires to be filled.
#[derive(Debug)]
pub struct NodeTypes {
    pub optional: Vec<String>,
}

/// What a grammar says of the children of a kind of node in one place, a
/// field or the children without a field: whether one must be there, and
/// of which kinds it may be.
#[derive(Debug)]
pub struct ChildRule {
    pub required: bool,
    pub kinds: Vec<String>,
}

/// `rule` lists the kind `kind`.
pub open spec fn lists(rule: ChildRule, kind: Seq<char>) -> bool {
    exists|k: int| 0 <= k < rule.kinds.len() && (#[trigger] rule.kinds[k])@ == kind
}

/// Some rule of `rules` that does not require a child lists the kind
/// `kind`: a node of that kind may be left out there.
pub open spec fn may_be_left_out(rules: Seq<ChildRule>, kind: Seq<char>) -> bool {
    exists|r: int| 0 <= r < rules.len() && !rules[r].required && lists(#[trigger] rules[r], kind)
}

/// `kinds` holds the kind `kind`.
pub open spec fn names(kinds: Seq<String>, kind: Seq<char>) -> bool {
    exists|i: int| 0 <= i < kinds.len() && (#[trigger] kinds[i])@ == kind
}

impl View for NodeTypes {
    type V = Set<Seq<char>>;

    open spec fn view(&self) -> Set<Seq<char>> {
        Set::new(|kind: Seq<char>| self.is_optional(kind))
    }
}

impl NodeTypes {
    /// Whether nodes of the kind `kind` are optional.
    pub open spec fn is_optional(&self, kind: Seq<char>) -> bool {
        exists|i: int| 0 <= i < self.optional.len() && (#[trigger] self.optional[i])@ == kind
    }

    /// The classifier for which exactly the kinds `optional` are optional.
    pub fn new(optional: Vec<String>) -> (types: Self)
        ensures
            types.optional == optional,
    {
        NodeTypes { optional }
    }

    /// The classifier of a grammar with the rules `rules`: a kind is
    /// optional exactly where some rule that does not require a child lists
    /// it.
    pub fn from_rules(rules: &Vec<ChildRule>) -> (types: Self)
        ensures
            forall|kind: Seq<char>|
                #[trigger] types.is_optional(kind) <==> may_be_left_out(rules@, kind),
    {
        let mut optional: Vec<String> = Vec::new();
        let mut r: usize = 0;
        while r < rules.len()
            invariant
                r <= rules.len(),
                forall|kind: Seq<char>|
                    #[trigger] names(optional@, kind) <==> may_be_left_out(
                        rules@.take(r as int),
                        kind,
                    ),
            decreases rules.len() - r,
        {
            let ghost before = optional@;
            let ghost seen = rules@.take(r as int);
            let ghost next = rules@.take(r + 1);
            let rule = &rules[r];
            if !rule.required {
                let mut k: usize = 0;
                while k < rule.kinds.len()
                    invariant
                        k <= rule.kinds.len(),
                        optional.len() == before.len() + k,
                        forall|i: int| 0 <= i < before.len() ==> optional[i] == before[i],
                        forall|j: int|
                            0 <= j < k ==> (#[trigger] optional[before.len() + j])@
                                == rule.kinds[j]@,
                    decreases rule.kinds.len() - k,
                {
                    optional.push(rule.kinds[k].clone());
                    k += 1;
                }
            }
            proof {
                assert forall|kind: Seq<char>| #[trigger]
                    names(optional@, kind) <==> may_be_left_out(next, kind) by {
                    assert(names(before, kind) <==> may_be_left_out(seen, kind));
                    if names(optional@, kind) {
                        let i = choose|i: int|
                            0 <= i < optional.len() && (#[trigger] optional[i])@ == kind;
                        if i < before.len() {
                            assert(before[i]@ == kind);
                            let w = choose|w: int|
                                0 <= w < seen.len() && !seen[w].required && lists(
                                    #[trigger] seen[w],
                                    kind,
                                );
                            assert(next[w] == seen[w]);
                        } else {
                            let j = i - before.len();
                            assert(optional[before.len() + j]@ == rule.kinds[j]@);
                            assert(next[r as int] == *rule);
                            assert(lists(next[r as int], kind));
                        }
                    }
                    if may_be_left_out(next, kind) {
                        let w = choose|w: int|
                            0 <= w < next.len() && !next[w].required && lists(
                                #[trigger] next[w],
                                kind,
                            );
                        if w < r {
                            assert(seen[w] == next[w]);
                            assert(may_be_left_out(seen, kind));
                            let i = choose|i: int|
                                0 <= i < before.len() && (#[trigger] before[i])@ == kind;
                            assert(optional[i]@ == kind);
                        } else {
                            assert(next[w] == *rule);
                            let j = choose|j: int|
                                0 <= j < rule.kinds.len() && (#[trigger] rule.kinds[j])@ == kind;
                            assert(optional[before.len() + j]@ == kind);
                        }
                    }
                }
            }
            r += 1;
        }
        let types = NodeTypes { optional };
        proof {
            assert(rules@.take(rules.len() as int) =~= rules@);
            assert forall|kind: Seq<char>| #[trigger]
                types.is_optional(kind) <==> may_be_left_out(rules@, kind) by {
                assert(types.is_optional(kind) <==> names(types.optional@, kind));
            }
        }
        types
    }

    /// Whether nodes of the kind `kind` are optional.
    pub fn optional_kind(&self, kind: &String) -> (optional: bool)
        ensures
            optional == self.is_optional(kind@),
    {
        let mut i: usize = 0;
        while i < self.optional.len()
            invariant
                i <= self.optional.len(),
                forall|j: int| 0 <= j < i ==> (#[trigger] self.optional[j])@ != kind@,
            decreases self.optional.len() - i,
        {
            if self.optional[i] == *kind {
                return true;
            }
            i += 1;
        }
        false
    }

    /// Whether `node` is of an optional kind.
    pub fn optional_node(&self, node: &NodeRecord) -> (optional: bool)
        ensures
            optional == self.is_optional(node.kind@),
    {
        self.optional_kind(&node.kind)
    }
}

} // verus!
