//! A whole script: its lines are read in order, the rules among them are
//! numbered, and one configuration directive is put before them all.

use crate::chars::char_at;
use crate::directive::{Directive, DirectiveModel};
use crate::grammar::left;
use crate::line::{line_directive, parse_lexc_line};
use crate::names::{rule_id, rule_name};
use crate::table::{clone_texts, ClassTable};
use crate::text::chars_of;
use vstd::prelude::*;
use vstd::string::*;

verus! {

/// The front end for the line-oriented notation.
#[derive(Debug, Clone, Copy)]
pub struct TadpoleLexc;

/// The directive that starts every list: class names are written as
/// strings.
pub open spec fn config_directive() -> DirectiveModel {
    DirectiveModel::Config("class_as_string"@, true)
}

/// How many characters the line that starts at `at` has, its newline
/// counted.
pub open spec fn line_len(s: Seq<char>, at: nat) -> nat
    decreases s.len() - at,
{
    if at >= s.len() {
        0
    } else if s[at as int] == '\n' {
        1
    } else {
        1 + line_len(s, at + 1)
    }
}

/// The line that starts at `at`, its newline included.
pub open spec fn line_from(s: Seq<char>, at: nat) -> Seq<char> {
    s.subrange(at as int, (at + line_len(s, at)) as int)
}

/// The directive that a line gives in a script in which `next_rule` rules
/// came before it: a rule gets its number as identifier, anything else stays
/// as it is.
pub open spec fn numbered(found: Option<DirectiveModel>, next_rule: nat) -> Option<
    DirectiveModel,
> {
    match found {
        Some(DirectiveModel::Transform(_, rule)) => Some(
            DirectiveModel::Transform(rule_id(next_rule), rule),
        ),
        other => other,
    }
}

/// The number of the next rule behind a line.
pub open spec fn rules_after(found: Option<DirectiveModel>, next_rule: nat) -> nat {
    match found {
        Some(DirectiveModel::Transform(_, _)) => next_rule + 1,
        _ => next_rule,
    }
}

/// As a list: the directive, or nothing.
pub open spec fn listed(found: Option<DirectiveModel>) -> Seq<DirectiveModel> {
    match found {
        Some(directive) => seq![directive],
        None => Seq::empty(),
    }
}

/// The directives of the lines of `s` from `at` on, where `next_rule` rules
/// came before. Each line that is a rule takes the next number; a line that
/// gives nothing takes none.
pub open spec fn directives_from(s: Seq<char>, at: nat, next_rule: nat) -> Seq<DirectiveModel>
    decreases left(s, at),
{
    if at >= s.len() {
        Seq::empty()
    } else {
        let found = line_directive(line_from(s, at));
        listed(numbered(found, next_rule)) + directives_from(
            s,
            at + line_len(s, at),
            rules_after(found, next_rule),
        )
    }
}

/// The directives of the script `s`: the configuration directive, then what
/// the lines give, in their order.
pub open spec fn script_directives(s: Seq<char>) -> Seq<DirectiveModel> {
    seq![config_directive()] + directives_from(s, 0, 0)
}

/// The models of a list of directives, in order.
pub open spec fn directive_models(list: Seq<Directive>) -> Seq<DirectiveModel> {
    Seq::new(list.len(), |i: int| list[i]@)
}

/// The place behind the line of `input` that starts at `at`.
fn line_end(input: &[char], at: usize) -> (end: usize)
    requires
        at < input@.len(),
    ensures
        end == at + line_len(input@, at as nat),
        at < end <= input@.len(),
{
    let mut end: usize = at;
    while end < input.len() && char_at(input, end) != '\n'
        invariant
            at <= end <= input@.len(),
            at + line_len(input@, at as nat) == end + line_len(input@, end as nat),
        decreases input@.len() - end,
    {
        end += 1;
    }
    if end < input.len() {
        end + 1
    } else {
        end
    }
}

impl TadpoleLexc {
    /// Turns a script into its list of directives.
    pub fn parse_spec(&self, input: &str) -> (out: Vec<Directive>)
        ensures
            directive_models(out@) == script_directives(input@),
            out@.len() >= 1,
            out@[0]@ == config_directive(),
            forall|i: int| 1 <= i < out@.len() ==> !(#[trigger] out@[i]@ is Config),
            rule_ids(directive_models(out@)) == numbering(
                0,
                rule_ids(directive_models(out@)).len(),
            ),
            forall|i: int| 0 <= i < out@.len() ==> (#[trigger] out@[i])@.well_formed(),
    {
        proof {
            lemma_script_starts_with_one_config(input@);
            lemma_rules_are_numbered_in_order(input@);
        }
        let chars = chars_of(input);
        let text: &[char] = chars.as_slice();
        let ghost s = input@;
        let mut out: Vec<Directive> = Vec::new();
        out.push(Directive::Config("class_as_string".to_owned(), true));
        assert(directive_models(out@) =~= seq![config_directive()]);
        let mut at: usize = 0;
        let mut rule_num: usize = 0;
        while at < text.len()
            invariant
                s == input@,
                s == text@,
                at <= s.len(),
                rule_num <= at,
                forall|i: int| 0 <= i < out@.len() ==> (#[trigger] out@[i])@.well_formed(),
                script_directives(s) == directive_models(out@) + directives_from(
                    s,
                    at as nat,
                    rule_num as nat,
                ),
            decreases s.len() - at,
        {
            let end: usize = line_end(text, at);
            let line: &str = input.substring_char(at, end);
            let ghost before = directive_models(out@);
            let ghost found = line_directive(line_from(s, at as nat));
            let ghost rest = directives_from(s, end as nat, rules_after(found, rule_num as nat));
            assert(directives_from(s, at as nat, rule_num as nat) == listed(
                numbered(found, rule_num as nat),
            ) + rest);
            match parse_lexc_line(line) {
                Some(Directive::Transform(_, rule)) => {
                    let directive = Directive::Transform(rule_name(rule_num), rule);
                    proof {
                        assert(numbered(found, rule_num as nat) == Some(directive@));
                        assert(before + (seq![directive@] + rest) =~= before.push(directive@)
                            + rest);
                    }
                    out.push(directive);
                    assert(directive_models(out@) =~= before.push(directive@));
                    rule_num += 1;
                },
                Some(directive) => {
                    proof {
                        assert(numbered(found, rule_num as nat) == Some(directive@));
                        assert(before + (seq![directive@] + rest) =~= before.push(directive@)
                            + rest);
                    }
                    let ghost model = directive@;
                    out.push(directive);
                    assert(directive_models(out@) =~= before.push(model));
                },
                None => {
                    assert(before + (Seq::<DirectiveModel>::empty() + rest) =~= before + rest);
                },
            }
            at = end;
        }
        assert(directive_models(out@) + Seq::<DirectiveModel>::empty() =~= directive_models(
            out@,
        ));
        assert forall|i: int| 1 <= i < out@.len() implies !(#[trigger] out@[i]@ is Config) by {
            assert(directive_models(out@)[i] == out@[i]@);
        }
        out
    }
}

/// The classes that the first `n` directives of a list define; a later
/// definition of a name takes the place of an earlier one.
pub open spec fn classes_of(list: Seq<DirectiveModel>, n: nat) -> Map<char, Seq<Seq<char>>>
    decreases n,
{
    if n == 0 || n > list.len() {
        Map::empty()
    } else {
        match list[n - 1] {
            DirectiveModel::DefineClass(name, members) => classes_of(list, (n - 1) as nat).insert(
                name,
                members,
            ),
            _ => classes_of(list, (n - 1) as nat),
        }
    }
}

/// The names of the classes that the first `n` directives of a list define,
/// in the order of the list.
pub open spec fn class_names_of(list: Seq<DirectiveModel>, n: nat) -> Seq<char>
    decreases n,
{
    if n == 0 || n > list.len() {
        Seq::empty()
    } else {
        match list[n - 1] {
            DirectiveModel::DefineClass(name, _) => class_names_of(list, (n - 1) as nat).push(
                name,
            ),
            _ => class_names_of(list, (n - 1) as nat),
        }
    }
}

/// The table of the classes that `directives` define, in the order of the
/// list.
pub fn class_table(directives: &Vec<Directive>) -> (table: ClassTable)
    ensures
        table@ == classes_of(directive_models(directives@), directives@.len()),
        table.order() == class_names_of(directive_models(directives@), directives@.len()),
{
    let ghost list = directive_models(directives@);
    let mut table = ClassTable::new();
    let mut i: usize = 0;
    while i < directives.len()
        invariant
            i <= directives@.len(),
            list == directive_models(directives@),
            table@ == classes_of(list, i as nat),
            table.order() == class_names_of(list, i as nat),
        decreases directives@.len() - i,
    {
        assert(list[i as int] == directives@[i as int]@);
        match &directives[i] {
            Directive::DefineClass(name, members) => {
                table.define(*name, clone_texts(members));
            },
            _ => {},
        }
        i += 1;
    }
    table
}

/// The identifiers of the rules in a list of directives, in the order of the
/// list.
pub open spec fn rule_ids(list: Seq<DirectiveModel>) -> Seq<Seq<char>>
    decreases list.len(),
{
    if list.len() == 0 {
        Seq::empty()
    } else {
        (match list[0] {
            DirectiveModel::Transform(id, _) => seq![id],
            _ => Seq::empty(),
        }) + rule_ids(list.drop_first())
    }
}

/// The identifiers of `n` rules in a row, of which the first has the number
/// `first`.
pub open spec fn numbering(first: nat, n: nat) -> Seq<Seq<char>> {
    Seq::new(n, |i: int| rule_id((first + i) as nat))
}

/// A line gives the definition of a class or a rule, never a configuration
/// directive.
pub proof fn lemma_line_gives_no_config(line: Seq<char>, next_rule: nat)
    ensures
        !(line_directive(line) matches Some(DirectiveModel::Config(_, _))),
        !(numbered(line_directive(line), next_rule) matches Some(DirectiveModel::Config(_, _))),
{
}

/// What the lines give holds no configuration directive, and the rules in
/// it are numbered from `next_rule` on without a gap.
pub proof fn lemma_directives_from(s: Seq<char>, at: nat, next_rule: nat)
    ensures
        forall|i: int|
            0 <= i < directives_from(s, at, next_rule).len() ==> !(#[trigger] directives_from(
                s,
                at,
                next_rule,
            )[i] is Config),
        rule_ids(directives_from(s, at, next_rule)) == numbering(
            next_rule,
            rule_ids(directives_from(s, at, next_rule)).len(),
        ),
    decreases left(s, at),
{
    let all = directives_from(s, at, next_rule);
    if at >= s.len() {
        assert(rule_ids(all) =~= numbering(next_rule, 0));
    } else {
        let found = line_directive(line_from(s, at));
        let rest = directives_from(s, at + line_len(s, at), rules_after(found, next_rule));
        lemma_line_gives_no_config(line_from(s, at), next_rule);
        lemma_directives_from(s, at + line_len(s, at), rules_after(found, next_rule));
        match numbered(found, next_rule) {
            Some(first) => {
                assert(all =~= seq![first] + rest);
                assert(all.drop_first() =~= rest);
                assert(forall|i: int| 1 <= i < all.len() ==> all[i] == rest[i - 1]);
                assert(rule_ids(all) =~= numbering(next_rule, rule_ids(all).len()));
            },
            None => {
                assert(all =~= rest);
            },
        }
    }
}

/// Every list of directives starts with the one configuration directive,
/// whatever the script holds, and holds no other; an empty script gives
/// that directive alone.
pub proof fn lemma_script_starts_with_one_config(s: Seq<char>)
    ensures
        script_directives(s).len() >= 1,
        script_directives(s)[0] == config_directive(),
        forall|i: int|
            1 <= i < script_directives(s).len() ==> !(#[trigger] script_directives(s)[i]
                is Config),
        s.len() == 0 ==> script_directives(s) == seq![config_directive()],
{
    lemma_directives_from(s, 0, 0);
    let rest = directives_from(s, 0, 0);
    assert(forall|i: int|
        1 <= i < script_directives(s).len() ==> script_directives(s)[i] == rest[i - 1]);
    if s.len() == 0 {
        assert(script_directives(s) =~= seq![config_directive()]);
    }
}

/// The rules of a script carry the identifiers of the numbers 0, 1, 2, ...
/// in the order of their lines: each line that is a rule takes the next
/// number, and a line that gives nothing takes none.
pub proof fn lemma_rules_are_numbered_in_order(s: Seq<char>)
    ensures
        rule_ids(script_directives(s)) == numbering(0, rule_ids(script_directives(s)).len()),
{
    lemma_directives_from(s, 0, 0);
    let all = script_directives(s);
    assert(all.drop_first() =~= directives_from(s, 0, 0));
    assert(rule_ids(all) =~= rule_ids(directives_from(s, 0, 0)));
}

} // verus!
