//! The grammar of rule elements, as a function from a text and a place in it
//! to the element that starts there and the number of characters it takes.
//!
//! The grammar is an ordered choice: of two readings the first that fits is
//! taken, and a repetition takes as much as it can. Both sides of a rule have
//! the same shape. They differ in one atom, the underscore, which only the
//! replace side reads; and what stands in parentheses is read by the replace
//! grammar on either side.

use crate::chars::{after_blanks, is_repeat_mark, is_reserved};
use crate::elem::Element;
use vstd::prelude::*;

verus! {

/// The side of a rule whose grammar is meant.
#[derive(Debug, Clone, Copy, PartialEq, Eq, Structural)]
pub enum Side {
    Match,
    Replace,
}

/// How many characters of `s` are left at `at`.
pub open spec fn left(s: Seq<char>, at: nat) -> nat {
    if at <= s.len() {
        (s.len() - at) as nat
    } else {
        0
    }
}

/// A literal character: one that is not reserved, or any one behind a
/// backslash.
pub open spec fn literal_at(s: Seq<char>, at: nat) -> Option<(Element, nat)> {
    if at < s.len() && !is_reserved(s[at as int]) {
        Some((Element::Char(s[at as int]), 1))
    } else if at + 1 < s.len() && s[at as int] == '\\' {
        Some((Element::Char(s[(at + 1) as int]), 2))
    } else {
        None
    }
}

/// A mark with a meaning of its own: the dot for any character, the caret
/// and the hash for the edge of a word.
pub open spec fn mark_at(s: Seq<char>, at: nat) -> Option<(Element, nat)> {
    if at < s.len() && s[at as int] == '.' {
        Some((Element::Wildcard, 1))
    } else if at < s.len() && (s[at as int] == '^' || s[at as int] == '#') {
        Some((Element::WordBoundary, 1))
    } else {
        None
    }
}

/// The element that `mark` makes of `inner`.
pub open spec fn repeated(inner: Element, mark: char) -> Element {
    if mark == '?' {
        Element::Optional(Box::new(inner))
    } else if mark == '*' {
        Element::RepeatAny(Box::new(inner))
    } else {
        Element::RepeatOne(Box::new(inner))
    }
}

/// The element that a list of members makes: the member itself where there
/// is one, else the sequence of them.
pub open spec fn collapsed(members: Seq<Element>) -> Element {
    if members.len() == 1 {
        members[0]
    } else {
        Element::Sequence(members)
    }
}

/// A sequence: one or more members with nothing between them.
pub open spec fn sequence_at(side: Side, s: Seq<char>, at: nat) -> Option<(Element, nat)>
    decreases left(s, at), 7nat,
{
    match members_at(side, s, at) {
        Some((members, taken)) => Some((collapsed(members), taken)),
        None => None,
    }
}

/// The members of a sequence: as many as can be read, and at least one.
pub open spec fn members_at(side: Side, s: Seq<char>, at: nat) -> Option<(Seq<Element>, nat)>
    decreases left(s, at), 6nat,
{
    if at >= s.len() {
        None
    } else {
        match member_at(side, s, at) {
            Some((first, taken)) => match more_members_at(side, s, at + taken) {
                Some((more, taken_more)) => Some((seq![first] + more, taken + taken_more)),
                None => None,
            },
            None => None,
        }
    }
}

/// The members that follow the first: as many as can be read. One that took
/// no character would never end the list, and makes the reading fail.
pub open spec fn more_members_at(side: Side, s: Seq<char>, at: nat) -> Option<
    (Seq<Element>, nat),
>
    decreases left(s, at), 5nat,
{
    if at >= s.len() {
        Some((Seq::empty(), 0))
    } else {
        match member_at(side, s, at) {
            Some((next, taken)) => if taken == 0 {
                None
            } else {
                match more_members_at(side, s, at + taken) {
                    Some((more, taken_more)) => Some((seq![next] + more, taken + taken_more)),
                    None => None,
                }
            },
            None => Some((Seq::empty(), 0)),
        }
    }
}

/// One member of a sequence: a repeat, else what a repeat mark may follow
/// without one.
pub open spec fn member_at(side: Side, s: Seq<char>, at: nat) -> Option<(Element, nat)>
    decreases left(s, at), 4nat,
{
    if at >= s.len() {
        None
    } else {
        match repeat_at(side, s, at) {
            Some(found) => Some(found),
            None => unit_at(side, s, at),
        }
    }
}

/// A repeat: an alternation, a negation or an atom, and right behind it one
/// repeat mark.
pub open spec fn repeat_at(side: Side, s: Seq<char>, at: nat) -> Option<(Element, nat)>
    decreases left(s, at), 3nat,
{
    if at >= s.len() {
        None
    } else {
        match unit_at(side, s, at) {
            Some((inner, taken)) => if at + taken < s.len() && is_repeat_mark(
                s[(at + taken) as int],
            ) {
                Some((repeated(inner, s[(at + taken) as int]), taken + 1))
            } else {
                None
            },
            None => None,
        }
    }
}

/// What a repeat mark may follow: an alternation, else a negation, else an
/// atom.
pub open spec fn unit_at(side: Side, s: Seq<char>, at: nat) -> Option<(Element, nat)>
    decreases left(s, at), 2nat,
{
    if at >= s.len() {
        None
    } else {
        match alternation_at(side, s, at) {
            Some(found) => Some(found),
            None => match negation_at(side, s, at) {
                Some(found) => Some(found),
                None => atom_at(side, s, at),
            },
        }
    }
}

/// An alternation: branches between braces, with commas between them.
/// Blanks may stand inside the braces and around the commas.
pub open spec fn alternation_at(side: Side, s: Seq<char>, at: nat) -> Option<(Element, nat)>
    decreases left(s, at), 1nat,
{
    if at < s.len() && s[at as int] == '{' {
        let first = after_blanks(s, at + 1);
        match branches_at(side, s, first) {
            Some((branches, taken)) => {
                let close = after_blanks(s, first + taken);
                if close < s.len() && s[close as int] == '}' {
                    Some((Element::Alt(branches), (close + 1 - at) as nat))
                } else {
                    None
                }
            },
            None => None,
        }
    } else {
        None
    }
}

/// The branches of an alternation: a sequence, and as many more as follow,
/// each behind a comma.
pub open spec fn branches_at(side: Side, s: Seq<char>, at: nat) -> Option<(Seq<Element>, nat)>
    decreases left(s, at), 9nat,
{
    if at >= s.len() {
        None
    } else {
        match sequence_at(side, s, at) {
            Some((first, taken)) => {
                let (more, taken_more) = more_branches_at(side, s, at + taken);
                Some((seq![first] + more, taken + taken_more))
            },
            None => None,
        }
    }
}

/// The branches that follow the first. The list ends before a comma that no
/// sequence follows.
pub open spec fn more_branches_at(side: Side, s: Seq<char>, at: nat) -> (Seq<Element>, nat)
    decreases left(s, at), 8nat,
{
    let comma = after_blanks(s, at);
    if comma < s.len() && s[comma as int] == ',' {
        let next = after_blanks(s, comma + 1);
        match sequence_at(side, s, next) {
            Some((branch, taken)) => {
                let (more, taken_more) = more_branches_at(side, s, next + taken);
                (seq![branch] + more, (next + taken + taken_more - at) as nat)
            },
            None => (Seq::empty(), 0),
        }
    } else {
        (Seq::empty(), 0)
    }
}

/// A negation: an exclamation mark and the atom that it denies.
pub open spec fn negation_at(side: Side, s: Seq<char>, at: nat) -> Option<(Element, nat)>
    decreases left(s, at), 1nat,
{
    if at < s.len() && s[at as int] == '!' {
        match atom_at(side, s, at + 1) {
            Some((inner, taken)) => Some((Element::Invert(Box::new(inner)), taken + 1)),
            None => None,
        }
    } else {
        None
    }
}

/// An atom. On the replace side the underscore is the capture marker. On
/// both sides parentheses hold a sequence of the replace grammar. Then come
/// the marks and the literal characters.
pub open spec fn atom_at(side: Side, s: Seq<char>, at: nat) -> Option<(Element, nat)>
    decreases left(s, at), 1nat,
{
    if at >= s.len() {
        None
    } else if side == Side::Replace && s[at as int] == '_' {
        Some((Element::Capture, 1))
    } else {
        match group_at(s, at) {
            Some(found) => Some(found),
            None => match mark_at(s, at) {
                Some(found) => Some(found),
                None => literal_at(s, at),
            },
        }
    }
}

/// A sequence of the replace grammar between parentheses.
pub open spec fn group_at(s: Seq<char>, at: nat) -> Option<(Element, nat)>
    decreases left(s, at), 0nat,
{
    if at < s.len() && s[at as int] == '(' {
        match sequence_at(Side::Replace, s, at + 1) {
            Some((inner, taken)) => if at + 1 + taken < s.len() && s[(at + 1 + taken) as int]
                == ')' {
                Some((inner, taken + 2))
            } else {
                None
            },
            None => None,
        }
    } else {
        None
    }
}

} // verus!
