//! The character sets of the notation.

use vstd::prelude::*;

verus! {

/// A space or a tab: what may stand between the parts of a line.
pub open spec fn is_blank(c: char) -> bool {
    c == ' ' || c == '\t'
}

/// The characters that mean something to the grammar, and so stand for
/// themselves only behind a backslash.
pub open spec fn is_reserved(c: char) -> bool {
    c == ' ' || c == '\t' || c == '\n' || c == '\\' || c == '>' || c == '/' || c == '+' || c
        == '*' || c == '?' || c == '{' || c == '}' || c == '(' || c == ')' || c == '^' || c == '#'
        || c == '_'
}

/// The marks that repeat what stands before them.
pub open spec fn is_repeat_mark(c: char) -> bool {
    c == '?' || c == '*' || c == '+'
}

/// What a class name cannot be: a blank, a newline or a colon.
pub open spec fn ends_name(c: char) -> bool {
    c == ' ' || c == '\t' || c == '\n' || c == ':'
}

/// What ends a member of a class: a blank, a newline or a comma.
pub open spec fn ends_member(c: char) -> bool {
    c == ' ' || c == '\t' || c == '\n' || c == ','
}

/// How many blanks stand in `s` from `at` on, up to the first character that
/// is none.
pub open spec fn blank_run(s: Seq<char>, at: nat) -> nat
    decreases s.len() - at,
{
    if at < s.len() && is_blank(s[at as int]) {
        1 + blank_run(s, at + 1)
    } else {
        0
    }
}

/// The place of the first character from `at` on that is no blank, or the
/// end of `s`.
pub open spec fn after_blanks(s: Seq<char>, at: nat) -> nat {
    at + blank_run(s, at)
}

/// A run of blanks ends inside `s`, at a character that is no blank.
pub proof fn lemma_blank_run(s: Seq<char>, at: nat)
    requires
        at <= s.len(),
    ensures
        after_blanks(s, at) <= s.len(),
        after_blanks(s, at) < s.len() ==> !is_blank(s[after_blanks(s, at) as int]),
        forall|i: int| at <= i < after_blanks(s, at) ==> is_blank(#[trigger] s[i]),
    decreases s.len() - at,
{
    if at < s.len() && is_blank(s[at as int]) {
        lemma_blank_run(s, at + 1);
    }
}

/// The character of `input` at the place `at`.
pub(crate) fn char_at(input: &[char], at: usize) -> (c: char)
    requires
        at < input@.len(),
    ensures
        c == input@[at as int],
{
    input[at]
}

/// Whether `c` is a space or a tab.
pub fn blank(c: char) -> (yes: bool)
    ensures
        yes == is_blank(c),
{
    c == ' ' || c == '\t'
}

/// Whether `c` is reserved by the grammar.
pub fn reserved(c: char) -> (yes: bool)
    ensures
        yes == is_reserved(c),
{
    c == ' ' || c == '\t' || c == '\n' || c == '\\' || c == '>' || c == '/' || c == '+' || c
        == '*' || c == '?' || c == '{' || c == '}' || c == '(' || c == ')' || c == '^' || c == '#'
        || c == '_'
}

/// The place of the first character of `input` from `at` on that is no
/// blank, or the end of `input`.
pub fn skip_blanks(input: &[char], at: usize) -> (end: usize)
    ensures
        end == after_blanks(input@, at as nat),
        at <= end,
        at <= input@.len() ==> end <= input@.len(),
{
    let mut end: usize = at;
    while end < input.len() && blank(input[end])
        invariant
            at <= end,
            at <= input@.len() ==> end <= input@.len(),
            after_blanks(input@, at as nat) == after_blanks(input@, end as nat),
        decreases input@.len() - end,
    {
        end += 1;
    }
    end
}

} // verus!
