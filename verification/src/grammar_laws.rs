//! What holds of everything that the grammar reads: a reading takes at
//! least one character and ends inside the text, and the element that it
//! gives is well formed.

use crate::chars::{after_blanks, lemma_blank_run};
use crate::elem::Element;
use crate::grammar::{
    alternation_at, atom_at, branches_at, group_at, left, member_at, members_at,
    more_branches_at, more_members_at, negation_at, repeat_at, sequence_at, unit_at, Side,
};
use vstd::prelude::*;

verus! {

/// What holds of an element that was read at `at` in `s`: it took a
/// character or more, it ends inside `s`, it is well formed, and it holds no
/// more literal characters and alternations than it took characters.
pub open spec fn sound(found: Option<(Element, nat)>, s: Seq<char>, at: nat) -> bool {
    match found {
        Some((elem, taken)) => taken >= 1 && at + taken <= s.len() && elem.well_formed()
            && elem.binders() <= taken,
        None => true,
    }
}

/// What holds of a list of elements that was read from `at` on.
pub open spec fn all_sound(list: Seq<Element>, taken: nat, s: Seq<char>, at: nat) -> bool {
    &&& at + taken <= s.len()
    &&& forall|i: int| 0 <= i < list.len() ==> (#[trigger] list[i]).well_formed()
    &&& Element::binders_upto(list, list.len()) <= taken
}

/// The count over a list that starts with `first`.
proof fn lemma_binders_of_front(first: Element, more: Seq<Element>, n: nat)
    requires
        n <= more.len(),
    ensures
        Element::binders_upto(seq![first] + more, n + 1) == first.binders()
            + Element::binders_upto(more, n),
    decreases n,
{
    let all = seq![first] + more;
    if n == 0 {
        assert(Element::binders_upto(all, 0) == 0);
        assert(all[0] == first);
    } else {
        lemma_binders_of_front(first, more, (n - 1) as nat);
        assert(all[n as int] == more[n - 1]);
    }
}

/// A list that starts with a sound element and goes on with a sound list is
/// sound.
proof fn lemma_front_sound(
    first: Element,
    taken: nat,
    more: Seq<Element>,
    taken_more: nat,
    s: Seq<char>,
    at: nat,
)
    requires
        sound(Some((first, taken)), s, at),
        all_sound(more, taken_more, s, at + taken),
    ensures
        all_sound(seq![first] + more, taken + taken_more, s, at),
{
    let all = seq![first] + more;
    lemma_binders_of_front(first, more, more.len());
    assert forall|i: int| 0 <= i < all.len() implies (#[trigger] all[i]).well_formed() by {
        if i > 0 {
            assert(all[i] == more[i - 1]);
        }
    }
}

/// A sequence that was read is sound.
pub proof fn lemma_sequence_sound(side: Side, s: Seq<char>, at: nat)
    ensures
        sound(sequence_at(side, s, at), s, at),
    decreases left(s, at), 7nat,
{
    lemma_members_sound(side, s, at);
    match members_at(side, s, at) {
        Some((members, taken)) => {
            if members.len() == 1 {
                assert(Element::binders_upto(members, 0) == 0);
                assert(Element::binders_upto(members, 1) == members[0].binders());
            }
        },
        None => {},
    }
}

/// The members of a sequence that were read are sound, and there is one or
/// more.
pub proof fn lemma_members_sound(side: Side, s: Seq<char>, at: nat)
    ensures
        match members_at(side, s, at) {
            Some((members, taken)) => members.len() >= 1 && taken >= 1 && all_sound(
                members,
                taken,
                s,
                at,
            ),
            None => true,
        },
    decreases left(s, at), 6nat,
{
    if at < s.len() {
        lemma_member_sound(side, s, at);
        match member_at(side, s, at) {
            Some((first, taken)) => {
                lemma_more_members_sound(side, s, at + taken);
                match more_members_at(side, s, at + taken) {
                    Some((more, taken_more)) => {
                        lemma_front_sound(first, taken, more, taken_more, s, at);
                    },
                    None => {},
                }
            },
            None => {},
        }
    }
}

/// The members behind the first are sound.
pub proof fn lemma_more_members_sound(side: Side, s: Seq<char>, at: nat)
    requires
        at <= s.len(),
    ensures
        match more_members_at(side, s, at) {
            Some((members, taken)) => all_sound(members, taken, s, at),
            None => true,
        },
    decreases left(s, at), 5nat,
{
    if at < s.len() {
        lemma_member_sound(side, s, at);
        match member_at(side, s, at) {
            Some((next, taken)) => {
                lemma_more_members_sound(side, s, at + taken);
                match more_members_at(side, s, at + taken) {
                    Some((more, taken_more)) => {
                        lemma_front_sound(next, taken, more, taken_more, s, at);
                    },
                    None => {},
                }
            },
            None => {
                assert(Element::binders_upto(Seq::<Element>::empty(), 0) == 0);
            },
        }
    } else {
        assert(Element::binders_upto(Seq::<Element>::empty(), 0) == 0);
    }
}

/// After a first member the reading of a sequence cannot fail: each member
/// takes a character, so the list of members ends.
pub proof fn lemma_more_members_never_fail(side: Side, s: Seq<char>, at: nat)
    requires
        at <= s.len(),
    ensures
        more_members_at(side, s, at) is Some,
    decreases left(s, at),
{
    if at < s.len() {
        lemma_member_sound(side, s, at);
        match member_at(side, s, at) {
            Some((next, taken)) => {
                lemma_more_members_never_fail(side, s, at + taken);
            },
            None => {},
        }
    }
}

/// A member that was read is sound.
pub proof fn lemma_member_sound(side: Side, s: Seq<char>, at: nat)
    ensures
        sound(member_at(side, s, at), s, at),
    decreases left(s, at), 4nat,
{
    if at < s.len() {
        lemma_repeat_sound(side, s, at);
        lemma_unit_sound(side, s, at);
    }
}

/// A repeat that was read is sound.
pub proof fn lemma_repeat_sound(side: Side, s: Seq<char>, at: nat)
    ensures
        sound(repeat_at(side, s, at), s, at),
    decreases left(s, at), 3nat,
{
    if at < s.len() {
        lemma_unit_sound(side, s, at);
    }
}

/// What a repeat mark may follow is sound where it was read.
pub proof fn lemma_unit_sound(side: Side, s: Seq<char>, at: nat)
    ensures
        sound(unit_at(side, s, at), s, at),
    decreases left(s, at), 2nat,
{
    if at < s.len() {
        lemma_alternation_sound(side, s, at);
        lemma_negation_sound(side, s, at);
        lemma_atom_sound(side, s, at);
    }
}

/// An alternation that was read is sound.
pub proof fn lemma_alternation_sound(side: Side, s: Seq<char>, at: nat)
    ensures
        sound(alternation_at(side, s, at), s, at),
    decreases left(s, at), 1nat,
{
    if at < s.len() && s[at as int] == '{' {
        lemma_blank_run(s, at + 1);
        let first = after_blanks(s, at + 1);
        lemma_branches_sound(side, s, first);
        match branches_at(side, s, first) {
            Some((branches, taken)) => {
                lemma_blank_run(s, first + taken);
            },
            None => {},
        }
    }
}

/// The branches of an alternation that were read are sound, and there is
/// one or more.
pub proof fn lemma_branches_sound(side: Side, s: Seq<char>, at: nat)
    ensures
        match branches_at(side, s, at) {
            Some((branches, taken)) => branches.len() >= 1 && taken >= 1 && all_sound(
                branches,
                taken,
                s,
                at,
            ),
            None => true,
        },
    decreases left(s, at), 9nat,
{
    if at < s.len() {
        lemma_sequence_sound(side, s, at);
        match sequence_at(side, s, at) {
            Some((first, taken)) => {
                lemma_more_branches_sound(side, s, at + taken);
                let (more, taken_more) = more_branches_at(side, s, at + taken);
                lemma_front_sound(first, taken, more, taken_more, s, at);
            },
            None => {},
        }
    }
}

/// The branches behind the first are sound.
pub proof fn lemma_more_branches_sound(side: Side, s: Seq<char>, at: nat)
    requires
        at <= s.len(),
    ensures
        all_sound(more_branches_at(side, s, at).0, more_branches_at(side, s, at).1, s, at),
    decreases left(s, at), 8nat,
{
    lemma_blank_run(s, at);
    let comma = after_blanks(s, at);
    if comma < s.len() && s[comma as int] == ',' {
        lemma_blank_run(s, comma + 1);
        let next = after_blanks(s, comma + 1);
        lemma_sequence_sound(side, s, next);
        match sequence_at(side, s, next) {
            Some((branch, taken)) => {
                lemma_more_branches_sound(side, s, next + taken);
                let (more, taken_more) = more_branches_at(side, s, next + taken);
                lemma_front_sound(branch, taken, more, taken_more, s, next);
            },
            None => {
                assert(Element::binders_upto(Seq::<Element>::empty(), 0) == 0);
            },
        }
    } else {
        assert(Element::binders_upto(Seq::<Element>::empty(), 0) == 0);
    }
}

/// A negation that was read is sound.
pub proof fn lemma_negation_sound(side: Side, s: Seq<char>, at: nat)
    ensures
        sound(negation_at(side, s, at), s, at),
    decreases left(s, at), 1nat,
{
    if at < s.len() && s[at as int] == '!' {
        lemma_atom_sound(side, s, at + 1);
    }
}

/// An atom that was read is sound.
pub proof fn lemma_atom_sound(side: Side, s: Seq<char>, at: nat)
    ensures
        sound(atom_at(side, s, at), s, at),
    decreases left(s, at), 1nat,
{
    if at < s.len() {
        lemma_group_sound(s, at);
    }
}

/// What was read between parentheses is sound.
pub proof fn lemma_group_sound(s: Seq<char>, at: nat)
    ensures
        sound(group_at(s, at), s, at),
    decreases left(s, at), 0nat,
{
    if at < s.len() && s[at as int] == '(' {
        lemma_sequence_sound(Side::Replace, s, at + 1);
    }
}

} // verus!
