//! One line of a script: the definition of a class, or a rule. A line that
//! is neither, or that goes on behind one of them, gives nothing.

use crate::chars::{after_blanks, char_at, ends_member, ends_name, skip_blanks};
use crate::directive::{
    element_of, well_formed_if_any, Directive, DirectiveModel, Environment, EnvironmentDef, Rule,
    RuleDef,
};
use crate::elem::{Element, LexcElem};
use crate::grammar::{left, sequence_at, Side};
use crate::parse::sequence;
use crate::text::{chars_of, piece};
use vstd::prelude::*;

verus! {

/// The identifier that a rule carries until the script gives it its own.
pub open spec fn placeholder_id() -> Seq<char> {
    "unassigned"@
}

/// Whether the line ends at `at`: nothing follows, or one newline and
/// nothing behind it.
pub open spec fn is_line_end(s: Seq<char>, at: nat) -> bool {
    at == s.len() || (at + 1 == s.len() && s[at as int] == '\n')
}

/// How many characters from `at` on belong to one member of a class.
pub open spec fn member_run(s: Seq<char>, at: nat) -> nat
    decreases s.len() - at,
{
    if at < s.len() && !ends_member(s[at as int]) {
        1 + member_run(s, at + 1)
    } else {
        0
    }
}

/// The members of a class from `at` on, with commas between them, and the
/// place behind the last: at least one member.
pub open spec fn class_members_at(s: Seq<char>, at: nat) -> Option<(Seq<Seq<char>>, nat)> {
    let n = member_run(s, at);
    if n == 0 {
        None
    } else {
        let (more, end) = more_class_members_at(s, at + n);
        Some((seq![s.subrange(at as int, (at + n) as int)] + more, end))
    }
}

/// The members that follow the first, and the place behind the last. The
/// list ends before a comma that no member follows.
pub open spec fn more_class_members_at(s: Seq<char>, at: nat) -> (Seq<Seq<char>>, nat)
    decreases left(s, at),
{
    let comma = after_blanks(s, at);
    if comma < s.len() && s[comma as int] == ',' {
        let next = after_blanks(s, comma + 1);
        let n = member_run(s, next);
        if n == 0 {
            (Seq::empty(), at)
        } else {
            let (more, end) = more_class_members_at(s, next + n);
            (seq![s.subrange(next as int, (next + n) as int)] + more, end)
        }
    } else {
        (Seq::empty(), at)
    }
}

/// The class that the line defines: blanks, the name, blanks, two colons,
/// blanks, the members, blanks, the end of the line.
pub open spec fn class_line(s: Seq<char>) -> Option<(char, Seq<Seq<char>>)> {
    let name = after_blanks(s, 0);
    if name < s.len() && !ends_name(s[name as int]) {
        let colons = after_blanks(s, name + 1);
        if colons + 1 < s.len() && s[colons as int] == ':' && s[(colons + 1) as int] == ':' {
            match class_members_at(s, after_blanks(s, colons + 2)) {
                Some((members, end)) => if is_line_end(s, after_blanks(s, end)) {
                    Some((s[name as int], members))
                } else {
                    None
                },
                None => None,
            }
        } else {
            None
        }
    } else {
        None
    }
}

/// A sequence that may be absent, with the blanks behind it, and the place
/// behind those.
pub open spec fn optional_sequence_at(side: Side, s: Seq<char>, at: nat) -> (Option<Element>, nat) {
    match sequence_at(side, s, at) {
        Some((elem, taken)) => (Some(elem), after_blanks(s, at + taken)),
        None => (None, at),
    }
}

/// A sequence of the match grammar that may be absent, and the place behind
/// it.
pub open spec fn optional_context_at(s: Seq<char>, at: nat) -> (Option<Element>, nat) {
    match sequence_at(Side::Match, s, at) {
        Some((elem, taken)) => (Some(elem), at + taken),
        None => (None, at),
    }
}

/// An environment clause and the place behind it: a slash, what must stand
/// before, an underscore, what must stand behind. Either side may be absent,
/// and blanks may stand around each part.
pub open spec fn environment_at(s: Seq<char>, at: nat) -> Option<(Environment, nat)> {
    if at < s.len() && s[at as int] == '/' {
        let (pre, behind_pre) = optional_context_at(s, after_blanks(s, at + 1));
        let focus = after_blanks(s, behind_pre);
        if focus < s.len() && s[focus as int] == '_' {
            let (post, behind_post) = optional_context_at(s, after_blanks(s, focus + 1));
            Some((Environment { pre, post }, after_blanks(s, behind_post)))
        } else {
            None
        }
    } else {
        None
    }
}

/// The element, or the empty element where there is none.
pub open spec fn or_null(elem: Option<Element>) -> Element {
    match elem {
        Some(e) => e,
        None => Element::Null,
    }
}

/// The rule that the line holds: blanks, what to match, `>` or `/`, blanks,
/// what to put there, an environment clause, the end of the line. All but
/// the separator may be absent.
pub open spec fn rule_line(s: Seq<char>) -> Option<Rule> {
    let (matcher, separator) = optional_sequence_at(Side::Match, s, after_blanks(s, 0));
    if separator < s.len() && (s[separator as int] == '>' || s[separator as int] == '/') {
        let (replacer, behind) = optional_sequence_at(
            Side::Replace,
            s,
            after_blanks(s, separator + 1),
        );
        match environment_at(s, behind) {
            Some((env, end)) => if is_line_end(s, end) {
                Some(
                    Rule {
                        matcher: or_null(matcher),
                        replacer: or_null(replacer),
                        env: Some(env),
                    },
                )
            } else {
                None
            },
            None => if is_line_end(s, behind) {
                Some(Rule { matcher: or_null(matcher), replacer: or_null(replacer), env: None })
            } else {
                None
            },
        }
    } else {
        None
    }
}

/// The directive that the line gives: the definition of a class where it is
/// one, else a rule under the placeholder identifier where it is one.
pub open spec fn line_directive(s: Seq<char>) -> Option<DirectiveModel> {
    match class_line(s) {
        Some((name, members)) => Some(DirectiveModel::DefineClass(name, members)),
        None => match rule_line(s) {
            Some(rule) => Some(DirectiveModel::Transform(placeholder_id(), rule)),
            None => None,
        },
    }
}

/// Whether the line ends at `at`.
pub fn at_line_end(input: &[char], at: usize) -> (yes: bool)
    ensures
        yes == is_line_end(input@, at as nat),
{
    at == input.len() || (at < input.len() && at + 1 == input.len() && char_at(input, at) == '\n')
}

/// The place behind the member of a class that starts at `at`.
pub fn skip_member(input: &[char], at: usize) -> (end: usize)
    ensures
        end == at + member_run(input@, at as nat),
        at <= input@.len() ==> end <= input@.len(),
{
    let mut end: usize = at;
    while end < input.len() && !member_end(char_at(input, end))
        invariant
            at <= end,
            at <= input@.len() ==> end <= input@.len(),
            at + member_run(input@, at as nat) == end + member_run(input@, end as nat),
        decreases input@.len() - end,
    {
        end += 1;
    }
    end
}

/// Whether `c` ends a member of a class.
pub fn member_end(c: char) -> (yes: bool)
    ensures
        yes == ends_member(c),
{
    c == ' ' || c == '\t' || c == '\n' || c == ','
}

/// The members of a class from `at` on.
fn class_members(text: &str, input: &[char], at: usize) -> (found: Option<(Vec<String>, usize)>)
    requires
        input@ == text@,
    ensures
        match found {
            Some((members, end)) => end <= input@.len() && class_members_at(
                input@,
                at as nat,
            ) == Some((members.deep_view(), end as nat)),
            None => class_members_at(input@, at as nat) is None,
        },
{
    let ghost s = input@;
    if at >= input.len() {
        return None;
    }
    let first_end: usize = skip_member(input, at);
    if first_end == at {
        return None;
    }
    let mut members: Vec<String> = Vec::new();
    members.push(piece(text, at, first_end));
    let mut end: usize = first_end;
    assert(members.deep_view() =~= seq![s.subrange(at as int, first_end as int)]);
    loop
        invariant_except_break
            class_members_at(s, at as nat) == Some(
                (
                    members.deep_view() + more_class_members_at(s, end as nat).0,
                    more_class_members_at(s, end as nat).1,
                ),
            ),
        invariant
            s == input@,
            s == text@,
            end <= s.len(),
        ensures
            class_members_at(s, at as nat) == Some((members.deep_view(), end as nat)),
        decreases s.len() - end,
    {
        let comma: usize = skip_blanks(input, end);
        if !(comma < input.len() && char_at(input, comma) == ',') {
            proof {
                assert(members.deep_view() + Seq::<Seq<char>>::empty() =~= members.deep_view());
            }
            break ;
        }
        let next: usize = skip_blanks(input, comma + 1);
        let next_end: usize = skip_member(input, next);
        if next_end == next {
            proof {
                assert(members.deep_view() + Seq::<Seq<char>>::empty() =~= members.deep_view());
            }
            break ;
        }
        let member = piece(text, next, next_end);
        proof {
            let more = more_class_members_at(s, next_end as nat);
            assert(more_class_members_at(s, end as nat) == (
                seq![s.subrange(next as int, next_end as int)] + more.0,
                more.1,
            ));
            assert(members.deep_view() + (seq![member@] + more.0) =~= members.deep_view().push(
                member@,
            ) + more.0);
        }
        let ghost before = members.deep_view();
        let ghost text_of_member = member@;
        members.push(member);
        assert(members.deep_view() =~= before.push(text_of_member));
        end = next_end;
    }
    Some((members, end))
}

/// The definition of a class that `input` holds.
pub fn parse_lexc_class(input: &str) -> (found: Option<Directive>)
    ensures
        match found {
            Some(directive) => class_line(input@) matches Some((name, members))
                && directive@ == DirectiveModel::DefineClass(name, members),
            None => class_line(input@) is None,
        },
{
    let chars = chars_of(input);
    let line: &[char] = chars.as_slice();
    let name_at: usize = skip_blanks(line, 0);
    if !(name_at < line.len() && !name_end(char_at(line, name_at))) {
        return None;
    }
    let name: char = char_at(line, name_at);
    let colons: usize = skip_blanks(line, name_at + 1);
    if !(colons < line.len() && colons + 1 < line.len() && char_at(line, colons) == ':' && char_at(
        line,
        colons + 1,
    ) == ':') {
        return None;
    }
    let first: usize = skip_blanks(line, colons + 2);
    match class_members(input, line, first) {
        Some((members, end)) => {
            let tail: usize = skip_blanks(line, end);
            if at_line_end(line, tail) {
                Some(Directive::DefineClass(name, members))
            } else {
                None
            }
        },
        None => None,
    }
}

/// Whether `c` cannot be the name of a class.
pub fn name_end(c: char) -> (yes: bool)
    ensures
        yes == ends_name(c),
{
    c == ' ' || c == '\t' || c == '\n' || c == ':'
}

/// A sequence that may be absent, with the blanks behind it.
pub fn optional_sequence(side: Side, input: &[char], at: usize) -> (found: (
    Option<LexcElem>,
    usize,
))
    ensures
        element_of(found.0) == optional_sequence_at(side, input@, at as nat).0,
        found.1 == optional_sequence_at(side, input@, at as nat).1,
        well_formed_if_any(element_of(found.0)),
        at <= found.1,
        at <= input@.len() ==> found.1 <= input@.len(),
{
    match sequence(side, input, at) {
        Some((elem, end)) => (Some(elem), skip_blanks(input, end)),
        None => (None, at),
    }
}

/// A sequence of the match grammar that may be absent.
pub fn optional_context(input: &[char], at: usize) -> (found: (Option<LexcElem>, usize))
    ensures
        element_of(found.0) == optional_context_at(input@, at as nat).0,
        found.1 == optional_context_at(input@, at as nat).1,
        well_formed_if_any(element_of(found.0)),
        at <= found.1,
        at <= input@.len() ==> found.1 <= input@.len(),
{
    match sequence(Side::Match, input, at) {
        Some((elem, end)) => (Some(elem), end),
        None => (None, at),
    }
}

/// An environment clause and the place behind it.
pub fn environment(input: &[char], at: usize) -> (found: Option<(EnvironmentDef, usize)>)
    ensures
        match found {
            Some((env, end)) => end <= input@.len() && environment_at(input@, at as nat) == Some(
                (env@, end as nat),
            ) && env@.well_formed(),
            None => environment_at(input@, at as nat) is None,
        },
{
    if !(at < input.len() && char_at(input, at) == '/') {
        return None;
    }
    let (pre, behind_pre) = optional_context(input, skip_blanks(input, at + 1));
    let focus: usize = skip_blanks(input, behind_pre);
    if !(focus < input.len() && char_at(input, focus) == '_') {
        return None;
    }
    let (post, behind_post) = optional_context(input, skip_blanks(input, focus + 1));
    let end: usize = skip_blanks(input, behind_post);
    Some((EnvironmentDef { pre, post }, end))
}

/// The element, or the empty element where there is none.
pub fn unwrap_or_null(elem: Option<LexcElem>) -> (out: LexcElem)
    ensures
        out@ == or_null(element_of(elem)),
{
    match elem {
        Some(e) => e,
        None => LexcElem::Null,
    }
}

/// The rule that `input` holds.
pub fn rule_of(input: &[char]) -> (found: Option<RuleDef>)
    ensures
        match found {
            Some(rule) => rule_line(input@) == Some(rule@) && rule@.well_formed(),
            None => rule_line(input@) is None,
        },
{
    let (matcher, separator) = optional_sequence(Side::Match, input, skip_blanks(input, 0));
    if !(separator < input.len() && (char_at(input, separator) == '>' || char_at(input, separator)
        == '/')) {
        return None;
    }
    let (replacer, behind) = optional_sequence(
        Side::Replace,
        input,
        skip_blanks(input, separator + 1),
    );
    match environment(input, behind) {
        Some((env, end)) => {
            if at_line_end(input, end) {
                Some(
                    RuleDef {
                        matcher: unwrap_or_null(matcher),
                        replacer: unwrap_or_null(replacer),
                        env: Some(env),
                    },
                )
            } else {
                None
            }
        },
        None => {
            if at_line_end(input, behind) {
                Some(
                    RuleDef {
                        matcher: unwrap_or_null(matcher),
                        replacer: unwrap_or_null(replacer),
                        env: None,
                    },
                )
            } else {
                None
            }
        },
    }
}

/// The rule that `input` holds, under the placeholder identifier.
pub fn parse_lexc_rule(input: &str) -> (found: Option<Directive>)
    ensures
        match found {
            Some(directive) => rule_line(input@) matches Some(rule) && directive@
                == DirectiveModel::Transform(placeholder_id(), rule) && rule.well_formed(),
            None => rule_line(input@) is None,
        },
{
    let chars = chars_of(input);
    match rule_of(chars.as_slice()) {
        Some(rule) => Some(Directive::Transform("unassigned".to_owned(), rule)),
        None => None,
    }
}

/// The directive that the line `input` gives, if it gives one.
pub fn parse_lexc_line(input: &str) -> (found: Option<Directive>)
    ensures
        match found {
            Some(directive) => line_directive(input@) == Some(directive@)
                && directive@.well_formed(),
            None => line_directive(input@) is None,
        },
{
    match parse_lexc_class(input) {
        Some(directive) => Some(directive),
        None => parse_lexc_rule(input),
    }
}

} // verus!
