//! Resolution of a rule element into a matcher: class names are told from
//! literal characters, and each class reference and each alternation outside
//! an environment clause is given the next binding index.

use crate::elem::{Element, LexcElem};
use crate::table::{ClassTable, ResolveError};
use vstd::prelude::*;

verus! {

/// The model of a resolved matcher.
pub enum Matcher {
    Char(char),
    Class { name: char, members: Seq<Seq<char>>, binding: Option<nat> },
    Sequence(Seq<Matcher>),
    Alternative { branches: Seq<Matcher>, binding: Option<nat> },
    RepeatAny(Box<Matcher>),
    RepeatOne(Box<Matcher>),
    Optional(Box<Matcher>),
    Wildcard,
    WordBoundary,
    Inverse(Box<Matcher>),
    Null,
}

/// A resolved matcher: what an engine needs to build the object that matches.
#[derive(Debug, PartialEq, Eq)]
pub enum MatcherNode {
    /// Matches one literal character.
    Char(char),
    /// Matches any member of a class; `binding` is the index under which the
    /// member that matched is remembered.
    Class { name: char, members: Vec<String>, binding: Option<usize> },
    /// Matches its parts one after the other.
    Sequence(Vec<MatcherNode>),
    /// Matches the first branch that matches; `binding` is the index under
    /// which the choice is remembered.
    Alternative { branches: Vec<MatcherNode>, binding: Option<usize> },
    /// Matches the inner matcher zero or more times.
    RepeatAny(Box<MatcherNode>),
    /// Matches the inner matcher one or more times.
    RepeatOne(Box<MatcherNode>),
    /// Matches the inner matcher once or not at all.
    Optional(Box<MatcherNode>),
    /// Matches exactly one unit of input.
    Wildcard,
    /// Matches at the edge of a word and consumes nothing.
    WordBoundary,
    /// Matches where the inner matcher does not.
    Inverse(Box<MatcherNode>),
    /// Always matches and consumes nothing.
    Null,
}

/// A binding index as the model has it.
pub open spec fn slot(binding: Option<usize>) -> Option<nat> {
    match binding {
        Some(index) => Some(index as nat),
        None => None,
    }
}

impl MatcherNode {
    /// The tree that this matcher stands for.
    pub open spec fn model(self) -> Matcher
        decreases self,
    {
        match self {
            MatcherNode::Char(c) => Matcher::Char(c),
            MatcherNode::Class { name, members, binding } => Matcher::Class {
                name,
                members: members.deep_view(),
                binding: slot(binding),
            },
            MatcherNode::Sequence(parts) => Matcher::Sequence(Self::models(parts@)),
            MatcherNode::Alternative { branches, binding } => Matcher::Alternative {
                branches: Self::models(branches@),
                binding: slot(binding),
            },
            MatcherNode::RepeatAny(inner) => Matcher::RepeatAny(Box::new((*inner).model())),
            MatcherNode::RepeatOne(inner) => Matcher::RepeatOne(Box::new((*inner).model())),
            MatcherNode::Optional(inner) => Matcher::Optional(Box::new((*inner).model())),
            MatcherNode::Wildcard => Matcher::Wildcard,
            MatcherNode::WordBoundary => Matcher::WordBoundary,
            MatcherNode::Inverse(inner) => Matcher::Inverse(Box::new((*inner).model())),
            MatcherNode::Null => Matcher::Null,
        }
    }

    /// The trees of a list of matchers, in order.
    pub open spec fn models(nodes: Seq<MatcherNode>) -> Seq<Matcher>
        decreases nodes,
    {
        Seq::new(
            nodes.len(),
            |i: int|
                if 0 <= i < nodes.len() {
                    nodes[i].model()
                } else {
                    Matcher::Null
                },
        )
    }
}

impl View for MatcherNode {
    type V = Matcher;

    open spec fn view(&self) -> Matcher {
        self.model()
    }
}

/// How many binding indices the match-side resolution of `elem` takes.
pub open spec fn match_bindings(
    elem: Element,
    table: Map<char, Seq<Seq<char>>>,
    is_env: bool,
) -> nat
    decreases elem, 0nat,
{
    match elem {
        Element::Char(c) => if !is_env && table.dom().contains(c) {
            1
        } else {
            0
        },
        Element::Sequence(items) => match_bindings_upto(items, items.len(), table, is_env),
        Element::Alt(items) => (if is_env {
            0nat
        } else {
            1nat
        }) + match_bindings_upto(items, items.len(), table, is_env),
        Element::RepeatAny(inner) => match_bindings(*inner, table, is_env),
        Element::RepeatOne(inner) => match_bindings(*inner, table, is_env),
        Element::Optional(inner) => match_bindings(*inner, table, is_env),
        Element::Invert(inner) => match_bindings(*inner, table, is_env),
        Element::Wildcard => 0,
        Element::WordBoundary => 0,
        Element::Capture => 0,
        Element::Null => 0,
    }
}

/// How many binding indices the first `n` of `items` take together.
pub open spec fn match_bindings_upto(
    items: Seq<Element>,
    n: nat,
    table: Map<char, Seq<Seq<char>>>,
    is_env: bool,
) -> nat
    decreases items, n,
{
    if n == 0 || n > items.len() {
        0
    } else {
        match_bindings_upto(items, (n - 1) as nat, table, is_env) + match_bindings(
            items[n - 1],
            table,
            is_env,
        )
    }
}

/// The matcher that `elem` resolves to when the next free binding index is
/// `start`.
///
/// The tree is walked in pre-order, children from left to right. Outside an
/// environment clause a class reference and an alternation each take the next
/// index; inside one nothing is bound. A sequence of exactly one member
/// resolves to what its member resolves to.
pub open spec fn resolve_match(
    elem: Element,
    table: Map<char, Seq<Seq<char>>>,
    start: nat,
    is_env: bool,
) -> Matcher
    decreases elem, 0nat,
{
    match elem {
        Element::Char(c) => if table.dom().contains(c) {
            Matcher::Class {
                name: c,
                members: table[c],
                binding: if is_env {
                    None
                } else {
                    Some(start)
                },
            }
        } else {
            Matcher::Char(c)
        },
        Element::Sequence(items) => if items.len() == 1 {
            resolve_match(items[0], table, start, is_env)
        } else {
            Matcher::Sequence(resolve_match_all(items, table, start, is_env))
        },
        Element::Alt(items) => if is_env {
            Matcher::Alternative {
                branches: resolve_match_all(items, table, start, is_env),
                binding: None,
            }
        } else {
            Matcher::Alternative {
                branches: resolve_match_all(items, table, start + 1, is_env),
                binding: Some(start),
            }
        },
        Element::RepeatAny(inner) => Matcher::RepeatAny(
            Box::new(resolve_match(*inner, table, start, is_env)),
        ),
        Element::RepeatOne(inner) => Matcher::RepeatOne(
            Box::new(resolve_match(*inner, table, start, is_env)),
        ),
        Element::Optional(inner) => Matcher::Optional(
            Box::new(resolve_match(*inner, table, start, is_env)),
        ),
        Element::Invert(inner) => Matcher::Inverse(
            Box::new(resolve_match(*inner, table, start, is_env)),
        ),
        Element::Wildcard => Matcher::Wildcard,
        Element::WordBoundary => Matcher::WordBoundary,
        Element::Capture => Matcher::Null,
        Element::Null => Matcher::Null,
    }
}

/// The matchers that `items` resolve to, one after the other: each starts at
/// the index that the ones before it left free.
pub open spec fn resolve_match_all(
    items: Seq<Element>,
    table: Map<char, Seq<Seq<char>>>,
    start: nat,
    is_env: bool,
) -> Seq<Matcher>
    decreases items, 0nat,
{
    Seq::new(
        items.len(),
        |i: int|
            if 0 <= i < items.len() {
                resolve_match(
                    items[i],
                    table,
                    start + match_bindings_upto(items, i as nat, table, is_env),
                    is_env,
                )
            } else {
                Matcher::Null
            },
    )
}

/// The count over a prefix never exceeds the count over a longer prefix.
pub proof fn lemma_match_bindings_upto_grows(
    items: Seq<Element>,
    shorter: nat,
    longer: nat,
    table: Map<char, Seq<Seq<char>>>,
    is_env: bool,
)
    requires
        shorter <= longer <= items.len(),
    ensures
        match_bindings_upto(items, shorter, table, is_env) <= match_bindings_upto(
            items,
            longer,
            table,
            is_env,
        ),
    decreases longer - shorter,
{
    if shorter < longer {
        lemma_match_bindings_upto_grows(items, shorter, (longer - 1) as nat, table, is_env);
    }
}

impl LexcElem {
    /// Resolves this element into a matcher, taking binding indices from
    /// `counter` and leaving in it the next free index.
    ///
    /// It fails only where an index would not fit the counter.
    pub fn resolve_matcher(
        &self,
        table: &ClassTable,
        counter: &mut usize,
        is_env: bool,
    ) -> (result: Result<MatcherNode, ResolveError>)
        ensures
            result is Ok <==> *old(counter) + match_bindings(self@, table@, is_env) <= usize::MAX,
            match result {
                Ok(node) => {
                    &&& node@ == resolve_match(self@, table@, *old(counter) as nat, is_env)
                    &&& *final(counter) == *old(counter) + match_bindings(self@, table@, is_env)
                },
                Err(error) => {
                    &&& error == ResolveError::TooManyBindings
                    &&& *final(counter) == usize::MAX
                },
            },
        decreases self, 0nat,
    {
        match self {
            LexcElem::Char(c) => {
                if table.contains(*c) {
                    match table.members(*c) {
                        Ok(members) => {
                            if is_env {
                                Ok(MatcherNode::Class { name: *c, members, binding: None })
                            } else {
                                let index: usize = *counter;
                                match index.checked_add(1) {
                                    Some(next) => {
                                        *counter = next;
                                        Ok(
                                            MatcherNode::Class {
                                                name: *c,
                                                members,
                                                binding: Some(index),
                                            },
                                        )
                                    },
                                    None => Err(ResolveError::TooManyBindings),
                                }
                            }
                        },
                        Err(error) => Err(error),
                    }
                } else {
                    Ok(MatcherNode::Char(*c))
                }
            },
            LexcElem::Sequence(items) => {
                if items.len() == 1 {
                    assert(LexcElem::models(items@)[0] == items@[0].model());
                    assert(match_bindings_upto(LexcElem::models(items@), 1, table@, is_env)
                        == match_bindings(items@[0].model(), table@, is_env)) by {
                        assert(match_bindings_upto(LexcElem::models(items@), 0, table@, is_env)
                            == 0);
                    }
                    items[0].resolve_matcher(table, counter, is_env)
                } else {
                    match resolve_matchers(items, table, counter, is_env) {
                        Ok(parts) => Ok(MatcherNode::Sequence(parts)),
                        Err(error) => Err(error),
                    }
                }
            },
            LexcElem::Alt(items) => {
                if is_env {
                    match resolve_matchers(items, table, counter, is_env) {
                        Ok(branches) => Ok(MatcherNode::Alternative { branches, binding: None }),
                        Err(error) => Err(error),
                    }
                } else {
                    let index: usize = *counter;
                    match index.checked_add(1) {
                        Some(next) => {
                            *counter = next;
                            match resolve_matchers(items, table, counter, is_env) {
                                Ok(branches) => Ok(
                                    MatcherNode::Alternative { branches, binding: Some(index) },
                                ),
                                Err(error) => Err(error),
                            }
                        },
                        None => Err(ResolveError::TooManyBindings),
                    }
                }
            },
            LexcElem::RepeatAny(inner) => {
                match inner.resolve_matcher(table, counter, is_env) {
                    Ok(node) => Ok(MatcherNode::RepeatAny(Box::new(node))),
                    Err(error) => Err(error),
                }
            },
            LexcElem::RepeatOne(inner) => {
                match inner.resolve_matcher(table, counter, is_env) {
                    Ok(node) => Ok(MatcherNode::RepeatOne(Box::new(node))),
                    Err(error) => Err(error),
                }
            },
            LexcElem::Optional(inner) => {
                match inner.resolve_matcher(table, counter, is_env) {
                    Ok(node) => Ok(MatcherNode::Optional(Box::new(node))),
                    Err(error) => Err(error),
                }
            },
            LexcElem::Wildcard => Ok(MatcherNode::Wildcard),
            LexcElem::WordBoundary => Ok(MatcherNode::WordBoundary),
            LexcElem::Invert(inner) => {
                match inner.resolve_matcher(table, counter, is_env) {
                    Ok(node) => Ok(MatcherNode::Inverse(Box::new(node))),
                    Err(error) => Err(error),
                }
            },
            LexcElem::Capture => Ok(MatcherNode::Null),
            LexcElem::Null => Ok(MatcherNode::Null),
        }
    }
}

/// Resolves `items` from left to right on one counter.
pub fn resolve_matchers(
    items: &Vec<LexcElem>,
    table: &ClassTable,
    counter: &mut usize,
    is_env: bool,
) -> (result: Result<Vec<MatcherNode>, ResolveError>)
    ensures
        result is Ok <==> *old(counter) + match_bindings_upto(
            LexcElem::models(items@),
            items@.len(),
            table@,
            is_env,
        ) <= usize::MAX,
        match result {
            Ok(nodes) => {
                &&& MatcherNode::models(nodes@) == resolve_match_all(
                    LexcElem::models(items@),
                    table@,
                    *old(counter) as nat,
                    is_env,
                )
                &&& *final(counter) == *old(counter) + match_bindings_upto(
                    LexcElem::models(items@),
                    items@.len(),
                    table@,
                    is_env,
                )
            },
            Err(error) => {
                &&& error == ResolveError::TooManyBindings
                &&& *final(counter) == usize::MAX
            },
        },
    decreases items, 1nat,
{
    let ghost start = *counter as nat;
    let ghost elems = LexcElem::models(items@);
    let mut nodes: Vec<MatcherNode> = Vec::new();
    let mut i: usize = 0;
    while i < items.len()
        invariant
            i <= items.len(),
            start == *old(counter),
            elems == LexcElem::models(items@),
            nodes.len() == i,
            *counter == start + match_bindings_upto(elems, i as nat, table@, is_env),
            forall|j: int|
                0 <= j < i ==> nodes[j].model() == resolve_match(
                    elems[j],
                    table@,
                    start + match_bindings_upto(elems, j as nat, table@, is_env),
                    is_env,
                ),
        decreases items.len() - i,
    {
        assert(elems[i as int] == items@[i as int].model());
        match items[i].resolve_matcher(table, counter, is_env) {
            Ok(node) => {
                nodes.push(node);
            },
            Err(error) => {
                proof {
                    lemma_match_bindings_upto_grows(
                        elems,
                        (i + 1) as nat,
                        items@.len(),
                        table@,
                        is_env,
                    );
                }
                return Err(error);
            },
        }
        i += 1;
    }
    assert(MatcherNode::models(nodes@) =~= resolve_match_all(elems, table@, start, is_env));
    Ok(nodes)
}

/// The indices `start`, `start + 1`, ... : `n` of them.
pub open spec fn consecutive(start: nat, n: nat) -> Seq<nat> {
    Seq::new(n, |k: int| (start + k) as nat)
}

/// The index of a binding as a list: one index, or none.
pub open spec fn slot_list(binding: Option<nat>) -> Seq<nat> {
    match binding {
        Some(index) => seq![index],
        None => Seq::empty(),
    }
}

/// The binding indices that a matcher holds, in pre-order, children from
/// left to right.
pub open spec fn matcher_slots(matcher: Matcher) -> Seq<nat>
    decreases matcher, 0nat,
{
    match matcher {
        Matcher::Class { binding, .. } => slot_list(binding),
        Matcher::Sequence(parts) => matcher_slots_upto(parts, parts.len()),
        Matcher::Alternative { branches, binding } => slot_list(binding) + matcher_slots_upto(
            branches,
            branches.len(),
        ),
        Matcher::RepeatAny(inner) => matcher_slots(*inner),
        Matcher::RepeatOne(inner) => matcher_slots(*inner),
        Matcher::Optional(inner) => matcher_slots(*inner),
        Matcher::Inverse(inner) => matcher_slots(*inner),
        Matcher::Char(_) => Seq::empty(),
        Matcher::Wildcard => Seq::empty(),
        Matcher::WordBoundary => Seq::empty(),
        Matcher::Null => Seq::empty(),
    }
}

/// The binding indices that the first `n` of `parts` hold, in order.
pub open spec fn matcher_slots_upto(parts: Seq<Matcher>, n: nat) -> Seq<nat>
    decreases parts, n,
{
    if n == 0 || n > parts.len() {
        Seq::empty()
    } else {
        matcher_slots_upto(parts, (n - 1) as nat) + matcher_slots(parts[n - 1])
    }
}

/// Match-side binding indices are handed out in pre-order, from the first
/// free index on and without a gap: listed in pre-order, the indices of the
/// resolved matcher are `start`, `start + 1`, ... , one for each class
/// reference and each alternation that was visited. Inside an environment
/// clause none is handed out.
pub proof fn lemma_match_slots_are_consecutive(
    elem: Element,
    table: Map<char, Seq<Seq<char>>>,
    start: nat,
    is_env: bool,
)
    ensures
        matcher_slots(resolve_match(elem, table, start, is_env)) == consecutive(
            start,
            match_bindings(elem, table, is_env),
        ),
        is_env ==> match_bindings(elem, table, is_env) == 0,
    decreases elem, 0nat,
{
    let resolved = resolve_match(elem, table, start, is_env);
    let count = match_bindings(elem, table, is_env);
    match elem {
        Element::Char(c) => {
            assert(matcher_slots(resolved) =~= consecutive(start, count));
        },
        Element::Sequence(items) => {
            if items.len() == 1 {
                lemma_match_slots_are_consecutive(items[0], table, start, is_env);
                assert(match_bindings_upto(items, 0, table, is_env) == 0);
                assert(match_bindings_upto(items, 1, table, is_env) == match_bindings(
                    items[0],
                    table,
                    is_env,
                ));
            } else {
                lemma_match_slots_upto(items, items.len(), table, start, is_env);
            }
        },
        Element::Alt(items) => {
            if is_env {
                lemma_match_slots_upto(items, items.len(), table, start, is_env);
                assert(matcher_slots(resolved) =~= consecutive(start, count));
            } else {
                lemma_match_slots_upto(items, items.len(), table, start + 1, is_env);
                assert(matcher_slots(resolved) =~= consecutive(start, count));
            }
        },
        Element::RepeatAny(inner) => {
            lemma_match_slots_are_consecutive(*inner, table, start, is_env);
        },
        Element::RepeatOne(inner) => {
            lemma_match_slots_are_consecutive(*inner, table, start, is_env);
        },
        Element::Optional(inner) => {
            lemma_match_slots_are_consecutive(*inner, table, start, is_env);
        },
        Element::Invert(inner) => {
            lemma_match_slots_are_consecutive(*inner, table, start, is_env);
        },
        _ => {
            assert(matcher_slots(resolved) =~= consecutive(start, count));
        },
    }
}

/// The same for the first `n` members of a list resolved on one counter.
pub proof fn lemma_match_slots_upto(
    items: Seq<Element>,
    n: nat,
    table: Map<char, Seq<Seq<char>>>,
    start: nat,
    is_env: bool,
)
    requires
        n <= items.len(),
    ensures
        matcher_slots_upto(resolve_match_all(items, table, start, is_env), n) == consecutive(
            start,
            match_bindings_upto(items, n, table, is_env),
        ),
        is_env ==> match_bindings_upto(items, n, table, is_env) == 0,
    decreases items, n,
{
    let resolved = resolve_match_all(items, table, start, is_env);
    if n == 0 {
        assert(matcher_slots_upto(resolved, n) =~= consecutive(start, 0));
    } else {
        let before = match_bindings_upto(items, (n - 1) as nat, table, is_env);
        lemma_match_slots_upto(items, (n - 1) as nat, table, start, is_env);
        lemma_match_slots_are_consecutive(items[n - 1], table, start + before, is_env);
        assert(consecutive(start, before) + consecutive(
            start + before,
            match_bindings(items[n - 1], table, is_env),
        ) =~= consecutive(start, match_bindings_upto(items, n, table, is_env)));
    }
}

impl Matcher {
    /// Whether no sequence of exactly one part stands anywhere in the
    /// matcher.
    pub open spec fn has_no_single_sequence(self) -> bool
        decreases self,
    {
        match self {
            Matcher::Sequence(parts) => parts.len() != 1 && forall|i: int|
                0 <= i < parts.len() ==> (#[trigger] parts[i]).has_no_single_sequence(),
            Matcher::Alternative { branches, .. } => forall|i: int|
                0 <= i < branches.len() ==> (#[trigger] branches[i]).has_no_single_sequence(),
            Matcher::RepeatAny(inner) => inner.has_no_single_sequence(),
            Matcher::RepeatOne(inner) => inner.has_no_single_sequence(),
            Matcher::Optional(inner) => inner.has_no_single_sequence(),
            Matcher::Inverse(inner) => inner.has_no_single_sequence(),
            Matcher::Char(_) => true,
            Matcher::Class { .. } => true,
            Matcher::Wildcard => true,
            Matcher::WordBoundary => true,
            Matcher::Null => true,
        }
    }
}

/// No wrapper around a single member survives resolution: whatever the
/// element, the matcher that it resolves to holds no sequence of exactly one
/// part.
pub proof fn lemma_no_single_sequence_is_matched(
    elem: Element,
    table: Map<char, Seq<Seq<char>>>,
    start: nat,
    is_env: bool,
)
    ensures
        resolve_match(elem, table, start, is_env).has_no_single_sequence(),
    decreases elem,
{
    match elem {
        Element::Sequence(items) => {
            if items.len() == 1 {
                lemma_no_single_sequence_is_matched(items[0], table, start, is_env);
            } else {
                let parts = resolve_match_all(items, table, start, is_env);
                assert forall|i: int| 0 <= i < parts.len() implies (
                #[trigger] parts[i]).has_no_single_sequence() by {
                    lemma_no_single_sequence_is_matched(
                        items[i],
                        table,
                        start + match_bindings_upto(items, i as nat, table, is_env),
                        is_env,
                    );
                }
                assert(Matcher::Sequence(parts).has_no_single_sequence());
            }
        },
        Element::Alt(items) => {
            let first = if is_env {
                start
            } else {
                start + 1
            };
            let branches = resolve_match_all(items, table, first, is_env);
            assert forall|i: int| 0 <= i < branches.len() implies (
            #[trigger] branches[i]).has_no_single_sequence() by {
                lemma_no_single_sequence_is_matched(
                    items[i],
                    table,
                    first + match_bindings_upto(items, i as nat, table, is_env),
                    is_env,
                );
            }
        },
        Element::RepeatAny(inner) => {
            lemma_no_single_sequence_is_matched(*inner, table, start, is_env);
        },
        Element::RepeatOne(inner) => {
            lemma_no_single_sequence_is_matched(*inner, table, start, is_env);
        },
        Element::Optional(inner) => {
            lemma_no_single_sequence_is_matched(*inner, table, start, is_env);
        },
        Element::Invert(inner) => {
            lemma_no_single_sequence_is_matched(*inner, table, start, is_env);
        },
        _ => {},
    }
}

/// A sequence of exactly one member resolves to the matcher of its member,
/// and takes the binding indices that its member takes: no wrapper is left
/// around it.
pub proof fn lemma_single_member_sequence_matches_as_member(
    member: Element,
    table: Map<char, Seq<Seq<char>>>,
    start: nat,
    is_env: bool,
)
    ensures
        resolve_match(Element::Sequence(seq![member]), table, start, is_env) == resolve_match(
            member,
            table,
            start,
            is_env,
        ),
        match_bindings(Element::Sequence(seq![member]), table, is_env) == match_bindings(
            member,
            table,
            is_env,
        ),
{
    let items = seq![member];
    assert(items[0] == member);
    assert(match_bindings_upto(items, 0, table, is_env) == 0);
    assert(match_bindings_upto(items, 1, table, is_env) == match_bindings(
        items[0],
        table,
        is_env,
    ));
}

impl LexcElem {
    /// Resolves this element into a matcher on a counter of its own, which
    /// starts at zero.
    pub fn to_matcher(&self, table: &ClassTable, is_env: bool) -> (result: Result<
        MatcherNode,
        ResolveError,
    >)
        ensures
            result is Ok <==> match_bindings(self@, table@, is_env) <= usize::MAX,
            result matches Ok(node) ==> node@ == resolve_match(self@, table@, 0, is_env)
                && matcher_slots(node@) == consecutive(0, match_bindings(self@, table@, is_env)),
            result matches Err(error) ==> error == ResolveError::TooManyBindings,
    {
        proof {
            lemma_match_slots_are_consecutive(self@, table@, 0, is_env);
        }
        let mut counter: usize = 0;
        self.resolve_matcher(table, &mut counter, is_env)
    }
}

/// The match side takes no more binding indices than the element holds
/// literal characters and alternations.
pub proof fn lemma_match_bindings_bounded(
    elem: Element,
    table: Map<char, Seq<Seq<char>>>,
    is_env: bool,
)
    ensures
        match_bindings(elem, table, is_env) <= elem.binders(),
    decreases elem, 0nat,
{
    match elem {
        Element::Sequence(items) => {
            lemma_match_bindings_upto_bounded(items, items.len(), table, is_env);
        },
        Element::Alt(items) => {
            lemma_match_bindings_upto_bounded(items, items.len(), table, is_env);
        },
        Element::RepeatAny(inner) => {
            lemma_match_bindings_bounded(*inner, table, is_env);
        },
        Element::RepeatOne(inner) => {
            lemma_match_bindings_bounded(*inner, table, is_env);
        },
        Element::Optional(inner) => {
            lemma_match_bindings_bounded(*inner, table, is_env);
        },
        Element::Invert(inner) => {
            lemma_match_bindings_bounded(*inner, table, is_env);
        },
        _ => {},
    }
}

/// The same over the first `n` of `items`.
pub proof fn lemma_match_bindings_upto_bounded(
    items: Seq<Element>,
    n: nat,
    table: Map<char, Seq<Seq<char>>>,
    is_env: bool,
)
    requires
        n <= items.len(),
    ensures
        match_bindings_upto(items, n, table, is_env) <= Element::binders_upto(items, n),
    decreases items, n,
{
    if n > 0 {
        lemma_match_bindings_upto_bounded(items, (n - 1) as nat, table, is_env);
        lemma_match_bindings_bounded(items[n - 1], table, is_env);
    }
}

} // verus!
