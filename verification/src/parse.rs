//! The parsers of rule elements. Each reads `input` from the place `at` and
//! gives the element that starts there with the place behind it, or nothing
//! where no such element starts there.

use crate::chars::{after_blanks, char_at, is_repeat_mark, reserved, skip_blanks};
use crate::elem::{Element, LexcElem};
use crate::grammar::{
    alternation_at, atom_at, branches_at, group_at, literal_at, mark_at, member_at, members_at,
    more_branches_at, more_members_at, negation_at, repeat_at, repeated, sequence_at, unit_at,
    Side,
};
use crate::grammar_laws::{
    lemma_alternation_sound, lemma_atom_sound, lemma_group_sound, lemma_member_sound,
    lemma_negation_sound, lemma_repeat_sound, lemma_sequence_sound, lemma_unit_sound,
};
use vstd::prelude::*;

verus! {

/// What it means that a parser, started at `at` in a text of `len`
/// characters, found what the grammar says is there: the same element, and
/// the same place behind it, which lies in the text and behind `at`.
pub open spec fn reads(
    found: Option<(LexcElem, usize)>,
    expected: Option<(Element, nat)>,
    at: usize,
    len: nat,
) -> bool {
    match found {
        Some((elem, end)) => at < end <= len && expected == Some((elem@, (end - at) as nat)),
        None => expected is None,
    }
}

/// Whether what a parser found is well formed.
pub open spec fn well_formed(found: Option<(LexcElem, usize)>) -> bool {
    match found {
        Some((elem, _)) => elem@.well_formed(),
        None => true,
    }
}

/// The models of a list grown by one element.
proof fn lemma_models_push(items: Seq<LexcElem>, last: LexcElem)
    ensures
        LexcElem::models(items.push(last)) == LexcElem::models(items).push(last@),
{
    assert(LexcElem::models(items.push(last)) =~= LexcElem::models(items).push(last@));
}

/// A literal character.
pub fn lexc_char(input: &[char], at: usize) -> (found: Option<(LexcElem, usize)>)
    ensures
        reads(found, literal_at(input@, at as nat), at, input@.len()),
        well_formed(found),
{
    if at < input.len() && !reserved(char_at(input, at)) {
        Some((LexcElem::Char(char_at(input, at)), at + 1))
    } else if at < input.len() && char_at(input, at) == '\\' && at + 1 < input.len() {
        Some((LexcElem::Char(char_at(input, at + 1)), at + 2))
    } else {
        None
    }
}

/// A mark with a meaning of its own.
pub fn lexc_reserved(input: &[char], at: usize) -> (found: Option<(LexcElem, usize)>)
    ensures
        reads(found, mark_at(input@, at as nat), at, input@.len()),
        well_formed(found),
{
    if at < input.len() && char_at(input, at) == '.' {
        Some((LexcElem::Wildcard, at + 1))
    } else if at < input.len() && (char_at(input, at) == '^' || char_at(input, at) == '#') {
        Some((LexcElem::WordBoundary, at + 1))
    } else {
        None
    }
}

/// A sequence of the grammar of `side`.
#[verifier::rlimit(40)]
#[verifier::spinoff_prover]
pub fn sequence(side: Side, input: &[char], at: usize) -> (found: Option<(LexcElem, usize)>)
    ensures
        reads(found, sequence_at(side, input@, at as nat), at, input@.len()),
        well_formed(found),
    decreases input@.len() - at, 7nat,
{
    proof {
        lemma_sequence_sound(side, input@, at as nat);
    }
    if at >= input.len() {
        return None;
    }
    let ghost s = input@;
    let mut members: Vec<LexcElem> = Vec::new();
    let mut end: usize = at;
    match member(side, input, at) {
        Some((first, behind)) => {
            proof {
                lemma_models_push(members@, first);
            }
            members.push(first);
            end = behind;
        },
        None => {
            return None;
        },
    }
    assert(LexcElem::models(members@) =~= seq![members@[0]@]);
    loop
        invariant_except_break
            match more_members_at(side, s, end as nat) {
                Some((more, taken)) => members_at(side, s, at as nat) == Some(
                    (LexcElem::models(members@) + more, (end - at + taken) as nat),
                ),
                None => members_at(side, s, at as nat) is None,
            },
        invariant
            s == input@,
            at < end <= s.len(),
            members@.len() >= 1,
        ensures
            members_at(side, s, at as nat) == Some(
                (LexcElem::models(members@), (end - at) as nat),
            ),
        decreases s.len() - end,
    {
        match member(side, input, end) {
            Some((next, behind)) => {
                proof {
                    lemma_models_push(members@, next);
                    match more_members_at(side, s, behind as nat) {
                        Some((more, taken_more)) => {
                            assert(LexcElem::models(members@) + (seq![next@] + more)
                                =~= LexcElem::models(members@).push(next@) + more);
                        },
                        None => {},
                    }
                }
                members.push(next);
                end = behind;
            },
            None => {
                proof {
                    assert(more_members_at(side, s, end as nat) == Some(
                        (Seq::<Element>::empty(), 0nat),
                    ));
                    assert(LexcElem::models(members@) + Seq::<Element>::empty()
                        =~= LexcElem::models(members@));
                }
                break ;
            },
        }
    }
    if members.len() == 1 {
        let only = members.pop();
        match only {
            Some(elem) => Some((elem, end)),
            None => None,
        }
    } else {
        Some((LexcElem::Sequence(members), end))
    }
}

/// One member of a sequence.
pub fn member(side: Side, input: &[char], at: usize) -> (found: Option<(LexcElem, usize)>)
    ensures
        reads(found, member_at(side, input@, at as nat), at, input@.len()),
        well_formed(found),
    decreases input@.len() - at, 4nat,
{
    proof {
        lemma_member_sound(side, input@, at as nat);
    }
    if at >= input.len() {
        return None;
    }
    match unit(side, input, at) {
        Some((inner, end)) => {
            if end < input.len() && repeat_mark(char_at(input, end)) {
                Some((repeat_of(inner, char_at(input, end)), end + 1))
            } else {
                Some((inner, end))
            }
        },
        None => None,
    }
}

/// A repeat: a unit with a repeat mark right behind it.
pub fn repeat(side: Side, input: &[char], at: usize) -> (found: Option<(LexcElem, usize)>)
    ensures
        reads(found, repeat_at(side, input@, at as nat), at, input@.len()),
        well_formed(found),
{
    proof {
        lemma_repeat_sound(side, input@, at as nat);
    }
    if at >= input.len() {
        return None;
    }
    match unit(side, input, at) {
        Some((inner, end)) => {
            if end < input.len() && repeat_mark(char_at(input, end)) {
                Some((repeat_of(inner, char_at(input, end)), end + 1))
            } else {
                None
            }
        },
        None => None,
    }
}

/// Whether `c` is a repeat mark.
pub fn repeat_mark(c: char) -> (yes: bool)
    ensures
        yes == is_repeat_mark(c),
{
    c == '?' || c == '*' || c == '+'
}

/// The element that the repeat mark `mark` makes of `inner`.
pub fn repeat_of(inner: LexcElem, mark: char) -> (elem: LexcElem)
    ensures
        elem@ == repeated(inner@, mark),
{
    if mark == '?' {
        LexcElem::Optional(Box::new(inner))
    } else if mark == '*' {
        LexcElem::RepeatAny(Box::new(inner))
    } else {
        LexcElem::RepeatOne(Box::new(inner))
    }
}

/// What a repeat mark may follow.
pub fn unit(side: Side, input: &[char], at: usize) -> (found: Option<(LexcElem, usize)>)
    ensures
        reads(found, unit_at(side, input@, at as nat), at, input@.len()),
        well_formed(found),
    decreases input@.len() - at, 2nat,
{
    proof {
        lemma_unit_sound(side, input@, at as nat);
    }
    if at >= input.len() {
        return None;
    }
    match alternation(side, input, at) {
        Some(found) => Some(found),
        None => match negation(side, input, at) {
            Some(found) => Some(found),
            None => atom(side, input, at),
        },
    }
}

/// An alternation between braces.
#[verifier::rlimit(40)]
pub fn alternation(side: Side, input: &[char], at: usize) -> (found: Option<(LexcElem, usize)>)
    ensures
        reads(found, alternation_at(side, input@, at as nat), at, input@.len()),
        well_formed(found),
    decreases input@.len() - at, 1nat,
{
    proof {
        lemma_alternation_sound(side, input@, at as nat);
    }
    if !(at < input.len() && char_at(input, at) == '{') {
        return None;
    }
    let first: usize = skip_blanks(input, at + 1);
    match branches(side, input, first) {
        Some((list, end)) => {
            let close: usize = skip_blanks(input, end);
            if close < input.len() && char_at(input, close) == '}' {
                Some((LexcElem::Alt(list), close + 1))
            } else {
                None
            }
        },
        None => None,
    }
}

/// What holds while the branches of an alternation are read: with the
/// branches that may still follow at `end`, those read so far make up the
/// branches that the grammar finds at `at`.
#[verifier::opaque]
pub open spec fn branches_so_far(
    side: Side,
    s: Seq<char>,
    at: nat,
    so_far: Seq<Element>,
    end: nat,
) -> bool {
    at <= end && branches_at(side, s, at) == Some(
        (
            so_far + more_branches_at(side, s, end).0,
            (end - at + more_branches_at(side, s, end).1) as nat,
        ),
    )
}

/// The first branch starts the list.
proof fn lemma_branches_start(side: Side, s: Seq<char>, at: nat, first: Element, taken: nat)
    requires
        at < s.len(),
        sequence_at(side, s, at) == Some((first, taken)),
    ensures
        branches_so_far(side, s, at, seq![first], at + taken),
{
    reveal(branches_so_far);
}

/// Where no comma with a sequence behind it follows, the list of branches is
/// complete.
proof fn lemma_branches_end(side: Side, s: Seq<char>, at: nat, so_far: Seq<Element>, end: nat)
    requires
        branches_so_far(side, s, at, so_far, end),
        ({
            let comma = after_blanks(s, end);
            !(comma < s.len() && s[comma as int] == ',') || sequence_at(
                side,
                s,
                after_blanks(s, comma + 1),
            ) is None
        }),
    ensures
        branches_at(side, s, at) == Some((so_far, (end - at) as nat)),
{
    reveal(branches_so_far);
    assert(so_far + Seq::<Element>::empty() =~= so_far);
}

/// Where a comma with a sequence behind it follows, that sequence is the
/// next branch.
#[verifier::rlimit(40)]
proof fn lemma_branches_go_on(
    side: Side,
    s: Seq<char>,
    at: nat,
    so_far: Seq<Element>,
    end: nat,
    branch: Element,
    taken: nat,
)
    requires
        branches_so_far(side, s, at, so_far, end),
        ({
            let comma = after_blanks(s, end);
            comma < s.len() && s[comma as int] == ',' && sequence_at(
                side,
                s,
                after_blanks(s, comma + 1),
            ) == Some((branch, taken))
        }),
    ensures
        branches_so_far(
            side,
            s,
            at,
            so_far.push(branch),
            after_blanks(s, after_blanks(s, end) + 1) + taken,
        ),
{
    reveal(branches_so_far);
    let behind = after_blanks(s, after_blanks(s, end) + 1) + taken;
    let more = more_branches_at(side, s, behind);
    assert(so_far + (seq![branch] + more.0) =~= so_far.push(branch) + more.0);
}

/// The branches of an alternation.
#[verifier::rlimit(40)]
pub fn branches(side: Side, input: &[char], at: usize) -> (found: Option<(Vec<LexcElem>, usize)>)
    ensures
        match found {
            Some((list, end)) => at < end <= input@.len() && branches_at(
                side,
                input@,
                at as nat,
            ) == Some((LexcElem::models(list@), (end - at) as nat)),
            None => branches_at(side, input@, at as nat) is None,
        },
    decreases input@.len() - at, 9nat,
{
    if at >= input.len() {
        return None;
    }
    let ghost s = input@;
    let mut list: Vec<LexcElem> = Vec::new();
    let mut end: usize = at;
    match sequence(side, input, at) {
        Some((branch, behind)) => {
            proof {
                lemma_models_push(list@, branch);
                lemma_branches_start(side, s, at as nat, branch@, (behind - at) as nat);
            }
            list.push(branch);
            end = behind;
        },
        None => {
            return None;
        },
    }
    assert(LexcElem::models(list@) =~= seq![list@[0]@]);
    loop
        invariant_except_break
            branches_so_far(side, s, at as nat, LexcElem::models(list@), end as nat),
        invariant
            s == input@,
            at < end <= s.len(),
        ensures
            branches_at(side, s, at as nat) == Some((LexcElem::models(list@), (end - at) as nat)),
        decreases s.len() - end,
    {
        let comma: usize = skip_blanks(input, end);
        if !(comma < input.len() && char_at(input, comma) == ',') {
            proof {
                lemma_branches_end(side, s, at as nat, LexcElem::models(list@), end as nat);
            }
            break ;
        }
        let next: usize = skip_blanks(input, comma + 1);
        match sequence(side, input, next) {
            Some((branch, behind)) => {
                proof {
                    lemma_models_push(list@, branch);
                    lemma_branches_go_on(
                        side,
                        s,
                        at as nat,
                        LexcElem::models(list@),
                        end as nat,
                        branch@,
                        (behind - next) as nat,
                    );
                }
                list.push(branch);
                end = behind;
            },
            None => {
                proof {
                    lemma_branches_end(side, s, at as nat, LexcElem::models(list@), end as nat);
                }
                break ;
            },
        }
    }
    Some((list, end))
}

/// A negation: an exclamation mark and an atom.
pub fn negation(side: Side, input: &[char], at: usize) -> (found: Option<(LexcElem, usize)>)
    ensures
        reads(found, negation_at(side, input@, at as nat), at, input@.len()),
        well_formed(found),
    decreases input@.len() - at, 1nat,
{
    proof {
        lemma_negation_sound(side, input@, at as nat);
    }
    if at < input.len() && char_at(input, at) == '!' {
        match atom(side, input, at + 1) {
            Some((inner, end)) => Some((LexcElem::Invert(Box::new(inner)), end)),
            None => None,
        }
    } else {
        None
    }
}

/// An atom of the grammar of `side`.
pub fn atom(side: Side, input: &[char], at: usize) -> (found: Option<(LexcElem, usize)>)
    ensures
        reads(found, atom_at(side, input@, at as nat), at, input@.len()),
        well_formed(found),
    decreases input@.len() - at, 1nat,
{
    proof {
        lemma_atom_sound(side, input@, at as nat);
    }
    if at >= input.len() {
        return None;
    }
    if side == Side::Replace && char_at(input, at) == '_' {
        return Some((LexcElem::Capture, at + 1));
    }
    match group(input, at) {
        Some(found) => Some(found),
        None => match lexc_reserved(input, at) {
            Some(found) => Some(found),
            None => lexc_char(input, at),
        },
    }
}

/// A sequence of the replace grammar between parentheses.
pub fn group(input: &[char], at: usize) -> (found: Option<(LexcElem, usize)>)
    ensures
        reads(found, group_at(input@, at as nat), at, input@.len()),
        well_formed(found),
    decreases input@.len() - at, 0nat,
{
    proof {
        lemma_group_sound(input@, at as nat);
    }
    if at < input.len() && char_at(input, at) == '(' {
        match sequence(Side::Replace, input, at + 1) {
            Some((inner, end)) => {
                if end < input.len() && char_at(input, end) == ')' {
                    Some((inner, end + 1))
                } else {
                    None
                }
            },
            None => None,
        }
    } else {
        None
    }
}

/// A sequence of the match grammar.
pub fn seq_matcher(input: &[char], at: usize) -> (found: Option<(LexcElem, usize)>)
    ensures
        reads(found, sequence_at(Side::Match, input@, at as nat), at, input@.len()),
        well_formed(found),
{
    proof {
        lemma_sequence_sound(Side::Match, input@, at as nat);
    }
    sequence(Side::Match, input, at)
}

/// A repeat of the match grammar.
pub fn repeat_matcher(input: &[char], at: usize) -> (found: Option<(LexcElem, usize)>)
    ensures
        reads(found, repeat_at(Side::Match, input@, at as nat), at, input@.len()),
        well_formed(found),
{
    proof {
        lemma_repeat_sound(Side::Match, input@, at as nat);
    }
    repeat(Side::Match, input, at)
}

/// An alternation of the match grammar.
pub fn alt_matcher(input: &[char], at: usize) -> (found: Option<(LexcElem, usize)>)
    ensures
        reads(found, alternation_at(Side::Match, input@, at as nat), at, input@.len()),
        well_formed(found),
{
    proof {
        lemma_alternation_sound(Side::Match, input@, at as nat);
    }
    alternation(Side::Match, input, at)
}

/// A negation of the match grammar.
pub fn inv_matcher(input: &[char], at: usize) -> (found: Option<(LexcElem, usize)>)
    ensures
        reads(found, negation_at(Side::Match, input@, at as nat), at, input@.len()),
        well_formed(found),
{
    proof {
        lemma_negation_sound(Side::Match, input@, at as nat);
    }
    negation(Side::Match, input, at)
}

/// An atom of the match grammar.
pub fn elem_matcher(input: &[char], at: usize) -> (found: Option<(LexcElem, usize)>)
    ensures
        reads(found, atom_at(Side::Match, input@, at as nat), at, input@.len()),
        well_formed(found),
{
    proof {
        lemma_atom_sound(Side::Match, input@, at as nat);
    }
    atom(Side::Match, input, at)
}

/// A sequence of the replace grammar.
pub fn seq_replacer(input: &[char], at: usize) -> (found: Option<(LexcElem, usize)>)
    ensures
        reads(found, sequence_at(Side::Replace, input@, at as nat), at, input@.len()),
        well_formed(found),
{
    proof {
        lemma_sequence_sound(Side::Replace, input@, at as nat);
    }
    sequence(Side::Replace, input, at)
}

/// A repeat of the replace grammar.
pub fn repeat_replacer(input: &[char], at: usize) -> (found: Option<(LexcElem, usize)>)
    ensures
        reads(found, repeat_at(Side::Replace, input@, at as nat), at, input@.len()),
        well_formed(found),
{
    proof {
        lemma_repeat_sound(Side::Replace, input@, at as nat);
    }
    repeat(Side::Replace, input, at)
}

/// An alternation of the replace grammar.
pub fn alt_replacer(input: &[char], at: usize) -> (found: Option<(LexcElem, usize)>)
    ensures
        reads(found, alternation_at(Side::Replace, input@, at as nat), at, input@.len()),
        well_formed(found),
{
    proof {
        lemma_alternation_sound(Side::Replace, input@, at as nat);
    }
    alternation(Side::Replace, input, at)
}

/// A negation of the replace grammar.
pub fn inv_replacer(input: &[char], at: usize) -> (found: Option<(LexcElem, usize)>)
    ensures
        reads(found, negation_at(Side::Replace, input@, at as nat), at, input@.len()),
        well_formed(found),
{
    proof {
        lemma_negation_sound(Side::Replace, input@, at as nat);
    }
    negation(Side::Replace, input, at)
}

/// An atom of the replace grammar.
pub fn elem_replacer(input: &[char], at: usize) -> (found: Option<(LexcElem, usize)>)
    ensures
        reads(found, atom_at(Side::Replace, input@, at as nat), at, input@.len()),
        well_formed(found),
{
    proof {
        lemma_atom_sound(Side::Replace, input@, at as nat);
    }
    atom(Side::Replace, input, at)
}

} // verus!
