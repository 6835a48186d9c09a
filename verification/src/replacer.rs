//! Resolution of a rule element into a replacer: each class reference and
//! each alternation takes the next binding index, on a counter of its own.

use crate::elem::{Element, LexcElem};
use crate::matcher::consecutive;
use crate::table::{ClassTable, ResolveError};
use vstd::prelude::*;

verus! {

/// The model of a resolved replacer.
pub enum Replacer {
    Char(char),
    Class { name: char, members: Seq<Seq<char>>, binding: nat },
    Sequence(Seq<Replacer>),
    Alternative { branches: Seq<Replacer>, binding: nat },
    Matched,
    Null,
}

/// A resolved replacer: what an engine needs to build the object that writes
/// the replacement.
#[derive(Debug, PartialEq, Eq)]
pub enum ReplacerNode {
    /// Writes one literal character.
    Char(char),
    /// Writes the member of a class that the binding of index `binding`
    /// chose.
    Class { name: char, members: Vec<String>, binding: usize },
    /// Writes its parts one after the other.
    Sequence(Vec<ReplacerNode>),
    /// Writes the branch that the binding of index `binding` chose.
    Alternative { branches: Vec<ReplacerNode>, binding: usize },
    /// Writes the whole text that the match consumed.
    Matched,
    /// Writes nothing.
    Null,
}

impl ReplacerNode {
    /// The tree that this replacer stands for.
    pub open spec fn model(self) -> Replacer
        decreases self,
    {
        match self {
            ReplacerNode::Char(c) => Replacer::Char(c),
            ReplacerNode::Class { name, members, binding } => Replacer::Class {
                name,
                members: members.deep_view(),
                binding: binding as nat,
            },
            ReplacerNode::Sequence(parts) => Replacer::Sequence(Self::models(parts@)),
            ReplacerNode::Alternative { branches, binding } => Replacer::Alternative {
                branches: Self::models(branches@),
                binding: binding as nat,
            },
            ReplacerNode::Matched => Replacer::Matched,
            ReplacerNode::Null => Replacer::Null,
        }
    }

    /// The trees of a list of replacers, in order.
    pub open spec fn models(nodes: Seq<ReplacerNode>) -> Seq<Replacer>
        decreases nodes,
    {
        Seq::new(
            nodes.len(),
            |i: int|
                if 0 <= i < nodes.len() {
                    nodes[i].model()
                } else {
                    Replacer::Null
                },
        )
    }
}

impl View for ReplacerNode {
    type V = Replacer;

    open spec fn view(&self) -> Replacer {
        self.model()
    }
}

/// How many binding indices the replace-side resolution of `elem` takes.
///
/// Repeats, negations, wildcards and word boundaries write nothing, and what
/// stands inside them is not visited.
pub open spec fn replace_bindings(elem: Element, table: Map<char, Seq<Seq<char>>>) -> nat
    decreases elem, 0nat,
{
    match elem {
        Element::Char(c) => if table.dom().contains(c) {
            1
        } else {
            0
        },
        Element::Sequence(items) => replace_bindings_upto(items, items.len(), table),
        Element::Alt(items) => 1 + replace_bindings_upto(items, items.len(), table),
        Element::RepeatAny(_) => 0,
        Element::RepeatOne(_) => 0,
        Element::Optional(_) => 0,
        Element::Invert(_) => 0,
        Element::Wildcard => 0,
        Element::WordBoundary => 0,
        Element::Capture => 0,
        Element::Null => 0,
    }
}

/// How many binding indices the first `n` of `items` take together.
pub open spec fn replace_bindings_upto(
    items: Seq<Element>,
    n: nat,
    table: Map<char, Seq<Seq<char>>>,
) -> nat
    decreases items, n,
{
    if n == 0 || n > items.len() {
        0
    } else {
        replace_bindings_upto(items, (n - 1) as nat, table) + replace_bindings(
            items[n - 1],
            table,
        )
    }
}

/// The replacer that `elem` resolves to when the next free binding index is
/// `start`.
///
/// The tree is walked in pre-order, children from left to right. A class
/// reference and an alternation each take the next index. A sequence of
/// exactly one member resolves to what its member resolves to. The capture
/// marker writes the matched text; what only a matcher can mean writes
/// nothing.
pub open spec fn resolve_replace(
    elem: Element,
    table: Map<char, Seq<Seq<char>>>,
    start: nat,
) -> Replacer
    decreases elem, 0nat,
{
    match elem {
        Element::Char(c) => if table.dom().contains(c) {
            Replacer::Class { name: c, members: table[c], binding: start }
        } else {
            Replacer::Char(c)
        },
        Element::Sequence(items) => if items.len() == 1 {
            resolve_replace(items[0], table, start)
        } else {
            Replacer::Sequence(resolve_replace_all(items, table, start))
        },
        Element::Alt(items) => Replacer::Alternative {
            branches: resolve_replace_all(items, table, start + 1),
            binding: start,
        },
        Element::RepeatAny(_) => Replacer::Null,
        Element::RepeatOne(_) => Replacer::Null,
        Element::Optional(_) => Replacer::Null,
        Element::Invert(_) => Replacer::Null,
        Element::Wildcard => Replacer::Null,
        Element::WordBoundary => Replacer::Null,
        Element::Capture => Replacer::Matched,
        Element::Null => Replacer::Null,
    }
}

/// The replacers that `items` resolve to, one after the other: each starts at
/// the index that the ones before it left free.
pub open spec fn resolve_replace_all(
    items: Seq<Element>,
    table: Map<char, Seq<Seq<char>>>,
    start: nat,
) -> Seq<Replacer>
    decreases items, 0nat,
{
    Seq::new(
        items.len(),
        |i: int|
            if 0 <= i < items.len() {
                resolve_replace(
                    items[i],
                    table,
                    start + replace_bindings_upto(items, i as nat, table),
                )
            } else {
                Replacer::Null
            },
    )
}

/// The count over a prefix never exceeds the count over a longer prefix.
pub proof fn lemma_replace_bindings_upto_grows(
    items: Seq<Element>,
    shorter: nat,
    longer: nat,
    table: Map<char, Seq<Seq<char>>>,
)
    requires
        shorter <= longer <= items.len(),
    ensures
        replace_bindings_upto(items, shorter, table) <= replace_bindings_upto(
            items,
            longer,
            table,
        ),
    decreases longer - shorter,
{
    if shorter < longer {
        lemma_replace_bindings_upto_grows(items, shorter, (longer - 1) as nat, table);
    }
}

impl LexcElem {
    /// Resolves this element into a replacer, taking binding indices from
    /// `counter` and leaving in it the next free index.
    ///
    /// It fails only where an index would not fit the counter.
    pub fn resolve_replacer(&self, table: &ClassTable, counter: &mut usize) -> (result: Result<
        ReplacerNode,
        ResolveError,
    >)
        ensures
            result is Ok <==> *old(counter) + replace_bindings(self@, table@) <= usize::MAX,
            match result {
                Ok(node) => {
                    &&& node@ == resolve_replace(self@, table@, *old(counter) as nat)
                    &&& *final(counter) == *old(counter) + replace_bindings(self@, table@)
                },
                Err(error) => {
                    &&& error == ResolveError::TooManyBindings
                    &&& *final(counter) == usize::MAX
                },
            },
        decreases self, 0nat,
    {
        match self {
            LexcElem::Char(c) => {
                if table.contains(*c) {
                    match table.members(*c) {
                        Ok(members) => {
                            let index: usize = *counter;
                            match index.checked_add(1) {
                                Some(next) => {
                                    *counter = next;
                                    Ok(ReplacerNode::Class { name: *c, members, binding: index })
                                },
                                None => Err(ResolveError::TooManyBindings),
                            }
                        },
                        Err(error) => Err(error),
                    }
                } else {
                    Ok(ReplacerNode::Char(*c))
                }
            },
            LexcElem::Sequence(items) => {
                if items.len() == 1 {
                    assert(LexcElem::models(items@)[0] == items@[0].model());
                    assert(replace_bindings_upto(LexcElem::models(items@), 1, table@)
                        == replace_bindings(items@[0].model(), table@)) by {
                        assert(replace_bindings_upto(LexcElem::models(items@), 0, table@) == 0);
                    }
                    items[0].resolve_replacer(table, counter)
                } else {
                    match resolve_replacers(items, table, counter) {
                        Ok(parts) => Ok(ReplacerNode::Sequence(parts)),
                        Err(error) => Err(error),
                    }
                }
            },
            LexcElem::Alt(items) => {
                let index: usize = *counter;
                match index.checked_add(1) {
                    Some(next) => {
                        *counter = next;
                        match resolve_replacers(items, table, counter) {
                            Ok(branches) => Ok(
                                ReplacerNode::Alternative { branches, binding: index },
                            ),
                            Err(error) => Err(error),
                        }
                    },
                    None => Err(ResolveError::TooManyBindings),
                }
            },
            LexcElem::RepeatAny(_) => Ok(ReplacerNode::Null),
            LexcElem::RepeatOne(_) => Ok(ReplacerNode::Null),
            LexcElem::Optional(_) => Ok(ReplacerNode::Null),
            LexcElem::Wildcard => Ok(ReplacerNode::Null),
            LexcElem::WordBoundary => Ok(ReplacerNode::Null),
            LexcElem::Invert(_) => Ok(ReplacerNode::Null),
            LexcElem::Capture => Ok(ReplacerNode::Matched),
            LexcElem::Null => Ok(ReplacerNode::Null),
        }
    }
}

/// Resolves `items` from left to right on one counter.
pub fn resolve_replacers(items: &Vec<LexcElem>, table: &ClassTable, counter: &mut usize) -> (result:
    Result<Vec<ReplacerNode>, ResolveError>)
    ensures
        result is Ok <==> *old(counter) + replace_bindings_upto(
            LexcElem::models(items@),
            items@.len(),
            table@,
        ) <= usize::MAX,
        match result {
            Ok(nodes) => {
                &&& ReplacerNode::models(nodes@) == resolve_replace_all(
                    LexcElem::models(items@),
                    table@,
                    *old(counter) as nat,
                )
                &&& *final(counter) == *old(counter) + replace_bindings_upto(
                    LexcElem::models(items@),
                    items@.len(),
                    table@,
                )
            },
            Err(error) => {
                &&& error == ResolveError::TooManyBindings
                &&& *final(counter) == usize::MAX
            },
        },
    decreases items, 1nat,
{
    let ghost start = *counter as nat;
    let ghost elems = LexcElem::models(items@);
    let mut nodes: Vec<ReplacerNode> = Vec::new();
    let mut i: usize = 0;
    while i < items.len()
        invariant
            i <= items.len(),
            start == *old(counter),
            elems == LexcElem::models(items@),
            nodes.len() == i,
            *counter == start + replace_bindings_upto(elems, i as nat, table@),
            forall|j: int|
                0 <= j < i ==> nodes[j].model() == resolve_replace(
                    elems[j],
                    table@,
                    start + replace_bindings_upto(elems, j as nat, table@),
                ),
        decreases items.len() - i,
    {
        assert(elems[i as int] == items@[i as int].model());
        match items[i].resolve_replacer(table, counter) {
            Ok(node) => {
                nodes.push(node);
            },
            Err(error) => {
                proof {
                    lemma_replace_bindings_upto_grows(elems, (i + 1) as nat, items@.len(), table@);
                }
                return Err(error);
            },
        }
        i += 1;
    }
    assert(ReplacerNode::models(nodes@) =~= resolve_replace_all(elems, table@, start));
    Ok(nodes)
}

/// The binding indices that a replacer refers to, in pre-order, children
/// from left to right.
pub open spec fn replacer_slots(replacer: Replacer) -> Seq<nat>
    decreases replacer, 0nat,
{
    match replacer {
        Replacer::Class { binding, .. } => seq![binding],
        Replacer::Sequence(parts) => replacer_slots_upto(parts, parts.len()),
        Replacer::Alternative { branches, binding } => seq![binding] + replacer_slots_upto(
            branches,
            branches.len(),
        ),
        Replacer::Char(_) => Seq::empty(),
        Replacer::Matched => Seq::empty(),
        Replacer::Null => Seq::empty(),
    }
}

/// The binding indices that the first `n` of `parts` refer to, in order.
pub open spec fn replacer_slots_upto(parts: Seq<Replacer>, n: nat) -> Seq<nat>
    decreases parts, n,
{
    if n == 0 || n > parts.len() {
        Seq::empty()
    } else {
        replacer_slots_upto(parts, (n - 1) as nat) + replacer_slots(parts[n - 1])
    }
}

/// Replace-side binding indices are handed out in pre-order, from the first
/// free index on and without a gap: listed in pre-order, the indices of the
/// resolved replacer are `start`, `start + 1`, ... , one for each class
/// reference and each alternation that was visited.
pub proof fn lemma_replace_slots_are_consecutive(
    elem: Element,
    table: Map<char, Seq<Seq<char>>>,
    start: nat,
)
    ensures
        replacer_slots(resolve_replace(elem, table, start)) == consecutive(
            start,
            replace_bindings(elem, table),
        ),
    decreases elem, 0nat,
{
    let resolved = resolve_replace(elem, table, start);
    let count = replace_bindings(elem, table);
    match elem {
        Element::Sequence(items) => {
            if items.len() == 1 {
                lemma_replace_slots_are_consecutive(items[0], table, start);
                assert(replace_bindings_upto(items, 0, table) == 0);
                assert(replace_bindings_upto(items, 1, table) == replace_bindings(
                    items[0],
                    table,
                ));
            } else {
                lemma_replace_slots_upto(items, items.len(), table, start);
            }
        },
        Element::Alt(items) => {
            lemma_replace_slots_upto(items, items.len(), table, start + 1);
            assert(replacer_slots(resolved) =~= consecutive(start, count));
        },
        _ => {
            assert(replacer_slots(resolved) =~= consecutive(start, count));
        },
    }
}

/// The same for the first `n` members of a list resolved on one counter.
pub proof fn lemma_replace_slots_upto(
    items: Seq<Element>,
    n: nat,
    table: Map<char, Seq<Seq<char>>>,
    start: nat,
)
    requires
        n <= items.len(),
    ensures
        replacer_slots_upto(resolve_replace_all(items, table, start), n) == consecutive(
            start,
            replace_bindings_upto(items, n, table),
        ),
    decreases items, n,
{
    let resolved = resolve_replace_all(items, table, start);
    if n == 0 {
        assert(replacer_slots_upto(resolved, n) =~= consecutive(start, 0));
    } else {
        let before = replace_bindings_upto(items, (n - 1) as nat, table);
        lemma_replace_slots_upto(items, (n - 1) as nat, table, start);
        lemma_replace_slots_are_consecutive(items[n - 1], table, start + before);
        assert(consecutive(start, before) + consecutive(
            start + before,
            replace_bindings(items[n - 1], table),
        ) =~= consecutive(start, replace_bindings_upto(items, n, table)));
    }
}

impl Replacer {
    /// Whether no sequence of exactly one part stands anywhere in the
    /// replacer.
    pub open spec fn has_no_single_sequence(self) -> bool
        decreases self,
    {
        match self {
            Replacer::Sequence(parts) => parts.len() != 1 && forall|i: int|
                0 <= i < parts.len() ==> (#[trigger] parts[i]).has_no_single_sequence(),
            Replacer::Alternative { branches, .. } => forall|i: int|
                0 <= i < branches.len() ==> (#[trigger] branches[i]).has_no_single_sequence(),
            Replacer::Char(_) => true,
            Replacer::Class { .. } => true,
            Replacer::Matched => true,
            Replacer::Null => true,
        }
    }
}

/// No wrapper around a single member survives resolution: whatever the
/// element, the replacer that it resolves to holds no sequence of exactly
/// one part.
pub proof fn lemma_no_single_sequence_is_written(
    elem: Element,
    table: Map<char, Seq<Seq<char>>>,
    start: nat,
)
    ensures
        resolve_replace(elem, table, start).has_no_single_sequence(),
    decreases elem,
{
    match elem {
        Element::Sequence(items) => {
            if items.len() == 1 {
                lemma_no_single_sequence_is_written(items[0], table, start);
            } else {
                let parts = resolve_replace_all(items, table, start);
                assert forall|i: int| 0 <= i < parts.len() implies (
                #[trigger] parts[i]).has_no_single_sequence() by {
                    lemma_no_single_sequence_is_written(
                        items[i],
                        table,
                        start + replace_bindings_upto(items, i as nat, table),
                    );
                }
                assert(Replacer::Sequence(parts).has_no_single_sequence());
            }
        },
        Element::Alt(items) => {
            let branches = resolve_replace_all(items, table, start + 1);
            assert forall|i: int| 0 <= i < branches.len() implies (
            #[trigger] branches[i]).has_no_single_sequence() by {
                lemma_no_single_sequence_is_written(
                    items[i],
                    table,
                    start + 1 + replace_bindings_upto(items, i as nat, table),
                );
            }
        },
        _ => {},
    }
}

/// A sequence of exactly one member resolves to the replacer of its member,
/// and takes the binding indices that its member takes: no wrapper is left
/// around it.
pub proof fn lemma_single_member_sequence_replaces_as_member(
    member: Element,
    table: Map<char, Seq<Seq<char>>>,
    start: nat,
)
    ensures
        resolve_replace(Element::Sequence(seq![member]), table, start) == resolve_replace(
            member,
            table,
            start,
        ),
        replace_bindings(Element::Sequence(seq![member]), table) == replace_bindings(
            member,
            table,
        ),
{
    let items = seq![member];
    assert(items[0] == member);
    assert(replace_bindings_upto(items, 0, table) == 0);
    assert(replace_bindings_upto(items, 1, table) == replace_bindings(items[0], table));
}

impl LexcElem {
    /// Resolves this element into a replacer on a counter of its own, which
    /// starts at zero.
    pub fn to_replacer(&self, table: &ClassTable) -> (result: Result<ReplacerNode, ResolveError>)
        ensures
            result is Ok <==> replace_bindings(self@, table@) <= usize::MAX,
            result matches Ok(node) ==> node@ == resolve_replace(self@, table@, 0)
                && replacer_slots(node@) == consecutive(0, replace_bindings(self@, table@)),
            result matches Err(error) ==> error == ResolveError::TooManyBindings,
    {
        proof {
            lemma_replace_slots_are_consecutive(self@, table@, 0);
        }
        let mut counter: usize = 0;
        self.resolve_replacer(table, &mut counter)
    }
}

/// The replace side takes no more binding indices than the element holds
/// literal characters and alternations.
pub proof fn lemma_replace_bindings_bounded(elem: Element, table: Map<char, Seq<Seq<char>>>)
    ensures
        replace_bindings(elem, table) <= elem.binders(),
    decreases elem, 0nat,
{
    match elem {
        Element::Sequence(items) => {
            lemma_replace_bindings_upto_bounded(items, items.len(), table);
        },
        Element::Alt(items) => {
            lemma_replace_bindings_upto_bounded(items, items.len(), table);
        },
        _ => {},
    }
}

/// The same over the first `n` of `items`.
pub proof fn lemma_replace_bindings_upto_bounded(
    items: Seq<Element>,
    n: nat,
    table: Map<char, Seq<Seq<char>>>,
)
    requires
        n <= items.len(),
    ensures
        replace_bindings_upto(items, n, table) <= Element::binders_upto(items, n),
    decreases items, n,
{
    if n > 0 {
        lemma_replace_bindings_upto_bounded(items, (n - 1) as nat, table);
        lemma_replace_bindings_bounded(items[n - 1], table);
    }
}

} // verus!
