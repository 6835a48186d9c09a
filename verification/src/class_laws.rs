//! What holds of every line that defines a class: its members are pieces of
//! the line in the order in which they stand there, and the line written
//! out again from what was read gives the same class.

use crate::chars::{after_blanks, blank_run, ends_member, ends_name, is_blank, lemma_blank_run};
use crate::grammar::left;
use crate::line::{
    class_line, class_members_at, is_line_end, member_run, more_class_members_at,
};
use vstd::prelude::*;

verus! {

/// What a member of a class is: a text that is not empty and holds no
/// blank, no newline and no comma.
pub open spec fn is_member(text: Seq<char>) -> bool {
    text.len() > 0 && forall|j: int| 0 <= j < text.len() ==> !ends_member(#[trigger] text[j])
}

/// What the members of a class are: at least one, and each of them a
/// member.
pub open spec fn are_members(members: Seq<Seq<char>>) -> bool {
    members.len() > 0 && forall|i: int| 0 <= i < members.len() ==> is_member(#[trigger] members[i])
}

/// The members from `from` on, with a comma and a space between each two.
pub open spec fn member_list(members: Seq<Seq<char>>, from: nat) -> Seq<char>
    decreases members.len() - from,
{
    if from >= members.len() {
        Seq::empty()
    } else if from + 1 == members.len() {
        members[from as int]
    } else {
        members[from as int] + seq![',', ' '] + member_list(members, from + 1)
    }
}

/// The line that defines the class `name` with `members`, written plainly:
/// the name, two colons between spaces, and the members with a comma and a
/// space between each two.
pub open spec fn class_text(name: char, members: Seq<Seq<char>>) -> Seq<char> {
    seq![name, ' ', ':', ':', ' '] + member_list(members, 0)
}

/// The places in `s` where the members start that are read from `at` on.
pub open spec fn member_places_at(s: Seq<char>, at: nat) -> Seq<nat> {
    let n = member_run(s, at);
    if n == 0 {
        Seq::empty()
    } else {
        seq![at] + more_member_places_at(s, at + n)
    }
}

/// The places where the members behind the first start.
pub open spec fn more_member_places_at(s: Seq<char>, at: nat) -> Seq<nat>
    decreases left(s, at),
{
    let comma = after_blanks(s, at);
    if comma < s.len() && s[comma as int] == ',' {
        let next = after_blanks(s, comma + 1);
        let n = member_run(s, next);
        if n == 0 {
            Seq::empty()
        } else {
            seq![next] + more_member_places_at(s, next + n)
        }
    } else {
        Seq::empty()
    }
}

/// The place in the line `s` where the list of members starts.
pub open spec fn member_list_start(s: Seq<char>) -> nat {
    let name = after_blanks(s, 0);
    let colons = after_blanks(s, name + 1);
    after_blanks(s, colons + 2)
}

/// Whether `members` stand in `s` at `places`, one behind the other: each
/// is the piece of `s` that starts at its place, and the next starts behind
/// the end of the one before.
pub open spec fn stand_in_order(s: Seq<char>, members: Seq<Seq<char>>, places: Seq<nat>) -> bool {
    &&& places.len() == members.len()
    &&& forall|i: int|
        0 <= i < members.len() ==> places[i] + members[i].len() <= s.len() && #[trigger] members[i]
            == s.subrange(places[i] as int, (places[i] + members[i].len()) as int)
    &&& forall|i: int|
        0 <= i < members.len() - 1 ==> places[i] + (#[trigger] members[i]).len() < places[i + 1]
}

/// A run of member characters ends inside the text, and holds none that
/// ends a member.
pub proof fn lemma_member_run(s: Seq<char>, at: nat)
    requires
        at <= s.len(),
    ensures
        at + member_run(s, at) <= s.len(),
        forall|j: int| at <= j < at + member_run(s, at) ==> !ends_member(#[trigger] s[j]),
        at + member_run(s, at) < s.len() ==> ends_member(s[(at + member_run(s, at)) as int]),
    decreases s.len() - at,
{
    if at < s.len() && !ends_member(s[at as int]) {
        lemma_member_run(s, at + 1);
    }
}

/// A stretch without a character that ends a member, up to one that does
/// or up to the end, is one run.
pub proof fn lemma_member_run_exact(s: Seq<char>, at: nat, n: nat)
    requires
        at + n <= s.len(),
        forall|j: int| at <= j < at + n ==> !ends_member(#[trigger] s[j]),
        at + n == s.len() || ends_member(s[(at + n) as int]),
    ensures
        member_run(s, at) == n,
    decreases n,
{
    if n > 0 {
        lemma_member_run_exact(s, at + 1, (n - 1) as nat);
    }
}

/// The members behind the first are members, stand in the line in their
/// order behind `at`, and end inside the line.
pub proof fn lemma_more_members(s: Seq<char>, at: nat)
    requires
        at <= s.len(),
    ensures
        ({
            let (more, end) = more_class_members_at(s, at);
            let places = more_member_places_at(s, at);
            &&& at <= end <= s.len()
            &&& forall|i: int| 0 <= i < more.len() ==> is_member(#[trigger] more[i])
            &&& stand_in_order(s, more, places)
            &&& more.len() > 0 ==> at < places[0]
            &&& more.len() > 0 ==> places[more.len() - 1] + more[more.len() - 1].len() == end
            &&& more.len() == 0 ==> end == at
        }),
    decreases left(s, at),
{
    lemma_blank_run(s, at);
    let comma = after_blanks(s, at);
    if comma < s.len() && s[comma as int] == ',' {
        lemma_blank_run(s, comma + 1);
        let next = after_blanks(s, comma + 1);
        let n = member_run(s, next);
        lemma_member_run(s, next);
        if n > 0 {
            lemma_more_members(s, next + n);
            let (rest, end) = more_class_members_at(s, next + n);
            let rest_places = more_member_places_at(s, next + n);
            let member = s.subrange(next as int, (next + n) as int);
            let more = seq![member] + rest;
            let places = seq![next] + rest_places;
            assert(more_class_members_at(s, at) == (more, end));
            assert(more_member_places_at(s, at) == places);
            assert(is_member(member));
            assert forall|i: int| 0 <= i < more.len() implies is_member(#[trigger] more[i]) by {
                if i > 0 {
                    assert(more[i] == rest[i - 1]);
                }
            }
            assert forall|i: int| 0 <= i < more.len() implies places[i] + more[i].len()
                <= s.len() && #[trigger] more[i] == s.subrange(
                places[i] as int,
                (places[i] + more[i].len()) as int,
            ) by {
                if i > 0 {
                    assert(more[i] == rest[i - 1]);
                    assert(places[i] == rest_places[i - 1]);
                }
            }
            assert forall|i: int| 0 <= i < more.len() - 1 implies places[i] + (
            #[trigger] more[i]).len() < places[i + 1] by {
                if i > 0 {
                    assert(more[i] == rest[i - 1]);
                    assert(places[i] == rest_places[i - 1]);
                    assert(places[i + 1] == rest_places[i]);
                } else {
                    assert(places[1] == rest_places[0]);
                }
            }
            if rest.len() > 0 {
                assert(more[more.len() - 1] == rest[rest.len() - 1]);
                assert(places[more.len() - 1] == rest_places[rest.len() - 1]);
            }
        }
    }
}

/// The members of a class line are members, and they stand in the line in
/// the order in which they were read: the list keeps the order of the
/// source and the exact text of each member.
pub proof fn lemma_members_keep_source_order(s: Seq<char>)
    requires
        class_line(s) is Some,
    ensures
        !ends_name(class_line(s)->Some_0.0),
        are_members(class_line(s)->Some_0.1),
        stand_in_order(s, class_line(s)->Some_0.1, member_places_at(s, member_list_start(s))),
{
    let name = after_blanks(s, 0);
    let colons = after_blanks(s, name + 1);
    lemma_blank_run(s, 0);
    lemma_blank_run(s, name + 1);
    lemma_blank_run(s, colons + 2);
    let at = after_blanks(s, colons + 2);
    let n = member_run(s, at);
    lemma_member_run(s, at);
    lemma_more_members(s, at + n);
    let (rest, end) = more_class_members_at(s, at + n);
    let rest_places = more_member_places_at(s, at + n);
    let member = s.subrange(at as int, (at + n) as int);
    let members = seq![member] + rest;
    let places = seq![at] + rest_places;
    assert(class_line(s)->Some_0.1 == members);
    assert(member_places_at(s, at) == places);
    assert(is_member(member));
    assert forall|i: int| 0 <= i < members.len() implies is_member(#[trigger] members[i]) by {
        if i > 0 {
            assert(members[i] == rest[i - 1]);
        }
    }
    assert forall|i: int| 0 <= i < members.len() implies places[i] + members[i].len() <= s.len()
        && #[trigger] members[i] == s.subrange(
        places[i] as int,
        (places[i] + members[i].len()) as int,
    ) by {
        if i > 0 {
            assert(members[i] == rest[i - 1]);
            assert(places[i] == rest_places[i - 1]);
        }
    }
    assert forall|i: int| 0 <= i < members.len() - 1 implies places[i] + (
    #[trigger] members[i]).len() < places[i + 1] by {
        if i > 0 {
            assert(members[i] == rest[i - 1]);
            assert(places[i] == rest_places[i - 1]);
            assert(places[i + 1] == rest_places[i]);
        } else {
            assert(places[1] == rest_places[0]);
        }
    }
}

/// No blank stands at `at`: the run of blanks there is empty.
proof fn lemma_no_blank(s: Seq<char>, at: nat)
    requires
        at >= s.len() || !is_blank(s[at as int]),
    ensures
        after_blanks(s, at) == at,
{
}

/// One blank stands at `at`, and none behind it.
proof fn lemma_one_blank(s: Seq<char>, at: nat)
    requires
        at < s.len(),
        is_blank(s[at as int]),
        at + 1 >= s.len() || !is_blank(s[(at + 1) as int]),
    ensures
        after_blanks(s, at) == at + 1,
{
    assert(blank_run(s, at + 1) == 0);
}

/// Where a text holds, from `at` on, the members from `from` on written
/// with a comma and a space between each two, reading gives those members
/// back and ends at the end of the text.
proof fn lemma_list_reads_back(t: Seq<char>, at: nat, members: Seq<Seq<char>>, from: nat)
    requires
        are_members(members),
        from < members.len(),
        at <= t.len(),
        t.subrange(at as int, t.len() as int) == member_list(members, from),
    ensures
        member_run(t, at) == members[from as int].len(),
        at + members[from as int].len() <= t.len(),
        t.subrange(at as int, (at + members[from as int].len()) as int) == members[from as int],
        more_class_members_at(t, at + members[from as int].len()) == (
            members.subrange((from + 1) as int, members.len() as int),
            t.len(),
        ),
    decreases members.len() - from,
{
    let member = members[from as int];
    let list = member_list(members, from);
    let tail = t.subrange(at as int, t.len() as int);
    let n = member.len();
    assert(is_member(member));
    assert(forall|j: int| 0 <= j < tail.len() ==> tail[j] == t[(at + j) as int]);
    if from + 1 == members.len() {
        assert(list == member);
        assert(at + n == t.len());
        assert forall|j: int| at <= j < at + n implies !ends_member(#[trigger] t[j]) by {
            assert(t[j] == member[j - at]);
        }
        lemma_member_run_exact(t, at, n);
        assert(t.subrange(at as int, (at + n) as int) =~= member);
        lemma_no_blank(t, at + n);
        assert(members.subrange((from + 1) as int, members.len() as int) =~= Seq::<
            Seq<char>,
        >::empty());
    } else {
        let rest = member_list(members, from + 1);
        let next_member = members[(from + 1) as int];
        assert(is_member(next_member));
        assert(list == member + seq![',', ' '] + rest);
        assert(list.len() == n + 2 + rest.len());
        assert(rest.len() >= next_member.len()) by {
            if from + 2 == members.len() {
                assert(rest == next_member);
            } else {
                assert(rest == next_member + seq![',', ' '] + member_list(members, from + 2));
            }
        }
        assert forall|j: int| at <= j < at + n implies !ends_member(#[trigger] t[j]) by {
            assert(t[j] == tail[j - at]);
            assert(list[j - at] == member[j - at]);
        }
        let comma = at + n;
        assert(t[comma as int] == ',') by {
            assert(t[comma as int] == tail[n as int]);
            assert(list[n as int] == ',');
        }
        assert(t[(comma + 1) as int] == ' ') by {
            assert(t[(comma + 1) as int] == tail[(n + 1) as int]);
            assert(list[(n + 1) as int] == ' ');
        }
        assert(t[(comma + 2) as int] == next_member[0]) by {
            assert(t[(comma + 2) as int] == tail[(n + 2) as int]);
            assert(list[(n + 2) as int] == rest[0]);
            if from + 2 == members.len() {
                assert(rest == next_member);
            } else {
                assert(rest == next_member + seq![',', ' '] + member_list(members, from + 2));
            }
        }
        lemma_member_run_exact(t, at, n);
        assert(t.subrange(at as int, (at + n) as int) =~= member);
        lemma_no_blank(t, comma);
        lemma_one_blank(t, comma + 1);
        let next = comma + 2;
        assert(after_blanks(t, comma + 1) == next);
        assert(t.subrange(next as int, t.len() as int) =~= rest) by {
            assert(tail.len() == n + 2 + rest.len());
            assert forall|j: int| 0 <= j < rest.len() implies t[next + j] == rest[j] by {
                assert(t[next + j] == tail[n + 2 + j]);
                assert(list[n + 2 + j] == rest[j]);
            }
        }
        lemma_list_reads_back(t, next, members, from + 1);
        let m = next_member.len();
        assert(member_run(t, next) == m);
        assert(more_class_members_at(t, comma) == (
            seq![t.subrange(next as int, (next + m) as int)] + members.subrange(
                (from + 2) as int,
                members.len() as int,
            ),
            t.len(),
        ));
        assert(seq![next_member] + members.subrange((from + 2) as int, members.len() as int)
            =~= members.subrange((from + 1) as int, members.len() as int));
    }
}

/// A class written plainly is read back as it was: from the line made of a
/// name and of members, reading gives that name and those members, in
/// their order and letter for letter.
pub proof fn lemma_class_text_reads_back(name: char, members: Seq<Seq<char>>)
    requires
        !ends_name(name),
        are_members(members),
    ensures
        class_line(class_text(name, members)) == Some((name, members)),
{
    let head = seq![name, ' ', ':', ':', ' '];
    let list = member_list(members, 0);
    let t = class_text(name, members);
    let first = members[0];
    assert(is_member(first));
    assert(list.len() >= first.len()) by {
        if members.len() == 1 {
            assert(list == first);
        } else {
            assert(list == first + seq![',', ' '] + member_list(members, 1));
        }
    }
    assert(t[0] == name && t[1] == ' ' && t[2] == ':' && t[3] == ':' && t[4] == ' ');
    assert(t[5] == first[0]) by {
        assert(t[5] == list[0]);
        if members.len() == 1 {
            assert(list == first);
        } else {
            assert(list == first + seq![',', ' '] + member_list(members, 1));
        }
    }
    lemma_no_blank(t, 0);
    lemma_one_blank(t, 1);
    lemma_one_blank(t, 4);
    assert(after_blanks(t, 0) == 0);
    assert(after_blanks(t, 1) == 2);
    assert(after_blanks(t, 4) == 5);
    assert(t.subrange(5, t.len() as int) =~= list);
    lemma_list_reads_back(t, 5, members, 0);
    assert(seq![first] + members.subrange(1, members.len() as int) =~= members);
    assert(class_members_at(t, 5) == Some((members, t.len())));
    lemma_no_blank(t, t.len());
    assert(is_line_end(t, t.len()));
}

/// Reading a class line and writing the class out again gives a line that
/// is read as the first was: the same name, and the same members in the
/// same order.
pub proof fn lemma_class_line_round_trip(s: Seq<char>)
    requires
        class_line(s) is Some,
    ensures
        class_line(class_text(class_line(s)->Some_0.0, class_line(s)->Some_0.1)) == class_line(s),
{
    lemma_members_keep_source_order(s);
    lemma_class_text_reads_back(class_line(s)->Some_0.0, class_line(s)->Some_0.1);
}

} // verus!
