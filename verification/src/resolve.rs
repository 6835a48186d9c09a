//! Resolution of a whole rule: what it matches and what it writes are
//! resolved apart, each on a counter of its own that starts at zero, and
//! the two sides of the environment clause are resolved without bindings.

use crate::directive::{element_of, Rule, RuleDef};
use crate::elem::{Element, LexcElem};
use crate::chars::after_blanks;
use crate::grammar::Side;
use crate::grammar_laws::lemma_sequence_sound;
use crate::line::{optional_sequence_at, rule_line};
use crate::matcher::{
    lemma_match_bindings_bounded, lemma_match_slots_are_consecutive, match_bindings,
    resolve_match, Matcher, MatcherNode,
};
use crate::replacer::{
    lemma_replace_bindings_bounded, replace_bindings, resolve_replace, Replacer, ReplacerNode,
};
use crate::table::{ClassTable, ResolveError};
use vstd::prelude::*;

verus! {

/// The model of a resolved rule.
pub struct Resolved {
    pub matcher: Matcher,
    pub replacer: Replacer,
    pub pre: Option<Matcher>,
    pub post: Option<Matcher>,
}

/// A resolved rule: the matcher, the replacer, and the matchers of what
/// must stand before and behind.
#[derive(Debug, PartialEq, Eq)]
pub struct ResolvedRule {
    pub matcher: MatcherNode,
    pub replacer: ReplacerNode,
    pub pre: Option<MatcherNode>,
    pub post: Option<MatcherNode>,
}

/// The model of a matcher that may be absent.
pub open spec fn matcher_of(node: Option<MatcherNode>) -> Option<Matcher> {
    match node {
        Some(n) => Some(n@),
        None => None,
    }
}

impl View for ResolvedRule {
    type V = Resolved;

    open spec fn view(&self) -> Resolved {
        Resolved {
            matcher: self.matcher@,
            replacer: self.replacer@,
            pre: matcher_of(self.pre),
            post: matcher_of(self.post),
        }
    }
}

/// The matcher of one side of an environment clause: nothing is bound in
/// it.
pub open spec fn resolve_context(
    elem: Option<Element>,
    table: Map<char, Seq<Seq<char>>>,
) -> Option<Matcher> {
    match elem {
        Some(e) => Some(resolve_match(e, table, 0, true)),
        None => None,
    }
}

/// What a rule resolves to: each side starts at the binding index zero.
pub open spec fn resolve_rule(rule: Rule, table: Map<char, Seq<Seq<char>>>) -> Resolved {
    Resolved {
        matcher: resolve_match(rule.matcher, table, 0, false),
        replacer: resolve_replace(rule.replacer, table, 0),
        pre: match rule.env {
            Some(env) => resolve_context(env.pre, table),
            None => None,
        },
        post: match rule.env {
            Some(env) => resolve_context(env.post, table),
            None => None,
        },
    }
}

/// Resolves one side of an environment clause.
pub fn resolve_side(elem: &Option<LexcElem>, table: &ClassTable) -> (result: Result<
    Option<MatcherNode>,
    ResolveError,
>)
    ensures
        result is Ok,
        matcher_of(result->Ok_0) == resolve_context(
            element_of(*elem),
            table@,
        ),
{
    match elem {
        Some(e) => {
            proof {
                lemma_match_slots_are_consecutive(e@, table@, 0, true);
            }
            match e.to_matcher(table, true) {
                Ok(node) => Ok(Some(node)),
                Err(error) => Err(error),
            }
        },
        None => Ok(None),
    }
}

impl RuleDef {
    /// Resolves the rule against `table`.
    ///
    /// It fails only where one side would take more binding indices than a
    /// counter can hold.
    pub fn resolve(&self, table: &ClassTable) -> (result: Result<ResolvedRule, ResolveError>)
        ensures
            result is Ok <==> match_bindings(self@.matcher, table@, false) <= usize::MAX
                && replace_bindings(self@.replacer, table@) <= usize::MAX,
            result matches Ok(resolved) ==> resolved@ == resolve_rule(self@, table@),
            result matches Err(error) ==> error == ResolveError::TooManyBindings,
    {
        let matcher = match self.matcher.to_matcher(table, false) {
            Ok(node) => node,
            Err(error) => {
                return Err(error);
            },
        };
        let replacer = match self.replacer.to_replacer(table) {
            Ok(node) => node,
            Err(error) => {
                return Err(error);
            },
        };
        let (pre, post) = match &self.env {
            Some(env) => {
                let pre = match resolve_side(&env.pre, table) {
                    Ok(node) => node,
                    Err(error) => {
                        return Err(error);
                    },
                };
                let post = match resolve_side(&env.post, table) {
                    Ok(node) => node,
                    Err(error) => {
                        return Err(error);
                    },
                };
                (pre, post)
            },
            None => (None, None),
        };
        Ok(ResolvedRule { matcher, replacer, pre, post })
    }
}

/// A sequence that may be absent holds no more literal characters and
/// alternations than the text has characters.
proof fn lemma_optional_sequence_small(side: Side, s: Seq<char>, at: nat)
    ensures
        optional_sequence_at(side, s, at).0 matches Some(elem) ==> elem.binders() <= s.len(),
{
    lemma_sequence_sound(side, s, at);
}

/// A rule that was read from a line takes, on either side, no more binding
/// indices than the line has characters: the rules of a text that a machine
/// can hold always resolve.
pub proof fn lemma_rule_of_line_resolves(s: Seq<char>, table: Map<char, Seq<Seq<char>>>)
    requires
        rule_line(s) is Some,
    ensures
        match_bindings(rule_line(s)->Some_0.matcher, table, false) <= s.len(),
        replace_bindings(rule_line(s)->Some_0.replacer, table) <= s.len(),
{
    let rule = rule_line(s)->Some_0;
    let start = after_blanks(s, 0);
    let (matcher, separator) = optional_sequence_at(Side::Match, s, start);
    let behind = after_blanks(s, separator + 1);
    lemma_optional_sequence_small(Side::Match, s, start);
    lemma_optional_sequence_small(Side::Replace, s, behind);
    lemma_match_bindings_bounded(rule.matcher, table, false);
    lemma_replace_bindings_bounded(rule.replacer, table);
}

} // verus!
