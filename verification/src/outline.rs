//! A plain listing of a script in a simpler notation of its own: entries
//! follow one another, each ended by a newline, a semicolon or the end of
//! the text, and each is written out on a line of its own.
//!
//! An entry is a category, `name :: item item ...`, or a rule,
//! `pattern > substitute / before_behind`. Names, patterns and substitutes
//! are runs of ASCII letters and digits. What is neither ends the listing
//! with a description of the failure.

use crate::chars::char_at;
use crate::text::{chars_of, piece};
use vstd::prelude::*;
use vstd::string::*;

verus! {

/// Whether `c` is white space as Unicode defines it.
pub uninterp spec fn white_space(c: char) -> bool;

/// `char::is_whitespace` of std: whether the character has the Unicode
/// property White_Space. The result is given a name, since std's
/// documentation does not list the characters.
pub assume_specification[ char::is_whitespace ](c: char) -> (yes: bool)
    ensures
        yes == white_space(c),
;

/// What a rule lacked where the reading of it failed.
#[derive(Debug, Clone, Copy, PartialEq, Eq, Structural)]
pub enum Missing {
    /// A letter or a digit, where the pattern should start.
    Pattern,
    /// The `>` or `/` behind the pattern.
    Separator,
    /// The end of the entry.
    End,
}

/// The description of a failure, as the parser library words it: what was
/// left of the text where the reading failed, and what was missing there.
pub uninterp spec fn failure_text(rest: Seq<char>, missing: Missing) -> Seq<char>;

/// The `Debug` text of the error that nom's parsers give: an
/// `nom::Err::Error` around an `nom::error::Error` that holds the rest of
/// the input and the kind of the parser that failed. The contract names the
/// text; it depends on the two arguments alone.
#[verifier::external_body]
fn describe_failure(rest: &str, missing: Missing) -> (text: String)
    ensures
        text@ == failure_text(rest@, missing),
{
    let code = match missing {
        Missing::Pattern => nom::error::ErrorKind::AlphaNumeric,
        Missing::Separator => nom::error::ErrorKind::Tag,
        Missing::End => nom::error::ErrorKind::Eof,
    };
    let error: nom::Err<nom::error::Error<&str>> = nom::Err::Error(
        nom::error::Error::new(rest, code),
    );
    format!("{:?}", error)
}

/// A letter or a digit of ASCII.
pub open spec fn is_alnum(c: char) -> bool {
    ('a' <= c && c <= 'z') || ('A' <= c && c <= 'Z') || ('0' <= c && c <= '9')
}

/// How many characters of white space stand in `s` from `at` on.
pub open spec fn space_run(s: Seq<char>, at: nat) -> nat
    decreases s.len() - at,
{
    if at < s.len() && white_space(s[at as int]) {
        1 + space_run(s, at + 1)
    } else {
        0
    }
}

/// How many letters and digits stand in `s` from `at` on.
pub open spec fn alnum_run(s: Seq<char>, at: nat) -> nat
    decreases s.len() - at,
{
    if at < s.len() && is_alnum(s[at as int]) {
        1 + alnum_run(s, at + 1)
    } else {
        0
    }
}

/// How many characters stand in `s` from `at` on before the first `stop`,
/// or before the end where there is none.
pub open spec fn run_until(s: Seq<char>, at: nat, stop: char) -> nat
    decreases s.len() - at,
{
    if at < s.len() && s[at as int] != stop {
        1 + run_until(s, at + 1, stop)
    } else {
        0
    }
}

/// How many characters that are no white space stand in `s` from `at` on.
pub open spec fn word_run(s: Seq<char>, at: nat) -> nat
    decreases s.len() - at,
{
    if at < s.len() && !white_space(s[at as int]) {
        1 + word_run(s, at + 1)
    } else {
        0
    }
}

/// One entry of a listing, as it was read from the start of a text; `end`
/// is the place behind it.
pub enum Entry {
    Category { name: Seq<char>, items: Seq<char>, end: nat },
    Rule { pattern: Seq<char>, substitute: Seq<char>, context: Seq<char>, end: nat },
    Failure { at: nat, missing: Missing },
}

/// Whether an entry ends at `at`, and with which character: a newline or a
/// semicolon.
pub open spec fn is_end_mark(s: Seq<char>, at: nat) -> bool {
    at < s.len() && (s[at as int] == '\n' || s[at as int] == ';')
}

/// The category at the start of `s`: white space, a name, white space, two
/// colons, white space, and the items. The items go up to the first newline
/// of the text; in a text without one, up to the first semicolon; in a text
/// without either, there are none and the text must end here.
pub open spec fn category_of(s: Seq<char>) -> Option<Entry> {
    let name = space_run(s, 0);
    let name_end = name + alnum_run(s, name);
    let colons = name_end + space_run(s, name_end);
    let items = colons + 2 + space_run(s, colons + 2);
    let newline = items + run_until(s, items, '\n');
    let semicolon = items + run_until(s, items, ';');
    if name < name_end && colons + 1 < s.len() && s[colons as int] == ':' && s[(colons + 1) as int]
        == ':' {
        if newline < s.len() {
            Some(
                Entry::Category {
                    name: s.subrange(name as int, name_end as int),
                    items: s.subrange(items as int, newline as int),
                    end: newline + 1,
                },
            )
        } else if semicolon < s.len() {
            Some(
                Entry::Category {
                    name: s.subrange(name as int, name_end as int),
                    items: s.subrange(items as int, semicolon as int),
                    end: semicolon + 1,
                },
            )
        } else if items >= s.len() {
            Some(
                Entry::Category {
                    name: s.subrange(name as int, name_end as int),
                    items: Seq::empty(),
                    end: items,
                },
            )
        } else {
            None
        }
    } else {
        None
    }
}

/// The context clause at `at` and the place behind it: a slash, white
/// space, letters and digits around one underscore, white space, and the end
/// of the entry.
pub open spec fn context_of(s: Seq<char>, at: nat) -> Option<(Seq<char>, nat)> {
    let before = at + 1 + space_run(s, at + 1);
    let focus = before + alnum_run(s, before);
    let behind = focus + 1 + alnum_run(s, focus + 1);
    let tail = behind + space_run(s, behind);
    if at < s.len() && s[at as int] == '/' && focus < s.len() && s[focus as int] == '_' {
        if is_end_mark(s, tail) {
            Some((s.subrange(before as int, behind as int), tail + 1))
        } else if tail >= s.len() {
            Some((s.subrange(before as int, behind as int), tail))
        } else {
            None
        }
    } else {
        None
    }
}

/// The rule at the start of `s`, or the failure to read one: white space, a
/// pattern, white space, `>` or `/`, white space, a substitute that may be
/// empty, white space, and then a context clause or the end of the entry.
/// Where the entry ends without a clause, the mark that ends it stands for
/// the context.
pub open spec fn rule_of(s: Seq<char>) -> Entry {
    let pattern = space_run(s, 0);
    let pattern_end = pattern + alnum_run(s, pattern);
    let separator = pattern_end + space_run(s, pattern_end);
    let substitute = separator + 1 + space_run(s, separator + 1);
    let substitute_end = substitute + alnum_run(s, substitute);
    let tail = substitute_end + space_run(s, substitute_end);
    if pattern_end == pattern {
        Entry::Failure { at: pattern, missing: Missing::Pattern }
    } else if !(separator < s.len() && (s[separator as int] == '>' || s[separator as int]
        == '/')) {
        Entry::Failure { at: separator, missing: Missing::Separator }
    } else {
        match context_of(s, tail) {
            Some((context, end)) => Entry::Rule {
                pattern: s.subrange(pattern as int, pattern_end as int),
                substitute: s.subrange(substitute as int, substitute_end as int),
                context,
                end,
            },
            None => if is_end_mark(s, tail) {
                Entry::Rule {
                    pattern: s.subrange(pattern as int, pattern_end as int),
                    substitute: s.subrange(substitute as int, substitute_end as int),
                    context: s.subrange(tail as int, (tail + 1) as int),
                    end: tail + 1,
                }
            } else if tail >= s.len() {
                Entry::Rule {
                    pattern: s.subrange(pattern as int, pattern_end as int),
                    substitute: s.subrange(substitute as int, substitute_end as int),
                    context: Seq::empty(),
                    end: tail,
                }
            } else {
                Entry::Failure { at: tail, missing: Missing::End }
            },
        }
    }
}

/// The entry at the start of `s`: a category where there is one, else a
/// rule or the failure to read one.
pub open spec fn entry_of(s: Seq<char>) -> Entry {
    match category_of(s) {
        Some(entry) => entry,
        None => rule_of(s),
    }
}

/// The words of `s` from `at` on: the runs of characters that are no white
/// space.
pub open spec fn words(s: Seq<char>, at: nat) -> Seq<Seq<char>>
    decreases s.len() - at,
{
    let start = at + space_run(s, at);
    let n = word_run(s, start);
    if n == 0 || start + n > s.len() {
        Seq::empty()
    } else {
        seq![s.subrange(start as int, (start + n) as int)] + words(s, start + n)
    }
}

/// The first `n` of `items`, with `gap` between each two of them.
pub open spec fn joined(items: Seq<Seq<char>>, n: nat, gap: Seq<char>) -> Seq<char>
    decreases n,
{
    if n == 0 || n > items.len() {
        Seq::empty()
    } else if n == 1 {
        items[0]
    } else {
        joined(items, (n - 1) as nat, gap) + gap + items[n - 1]
    }
}

/// The heading of an entry.
pub open spec fn heading(s: Seq<char>, entry: Entry) -> Seq<char> {
    match entry {
        Entry::Category { name, .. } => "Name: "@ + name + " - Items:"@,
        Entry::Rule { pattern, .. } => "Pattern: "@ + pattern,
        Entry::Failure { at, missing } => failure_text(
            s.subrange(at as int, s.len() as int),
            missing,
        ),
    }
}

/// What is listed under the heading of an entry.
pub open spec fn details(entry: Entry) -> Seq<Seq<char>> {
    match entry {
        Entry::Category { items, .. } => words(items, 0),
        Entry::Rule { substitute, context, .. } => seq![
            "- Substitute:"@,
            substitute,
            "- Context:"@,
            context,
        ],
        Entry::Failure { .. } => Seq::empty(),
    }
}

/// What is left of the text behind an entry. Behind a failure nothing is
/// read any more.
pub open spec fn remainder(s: Seq<char>, entry: Entry) -> Seq<char> {
    match entry {
        Entry::Category { end, .. } => s.subrange(end as int, s.len() as int),
        Entry::Rule { end, .. } => s.subrange(end as int, s.len() as int),
        Entry::Failure { .. } => Seq::empty(),
    }
}

/// The line of one entry: a newline and a space, the heading, a space, and
/// the details with one space between each two.
pub open spec fn entry_line(name: Seq<char>, items: Seq<Seq<char>>) -> Seq<char> {
    "\n "@ + name + " "@ + joined(items, items.len(), " "@)
}

/// The place behind an entry, or the end of the text behind a failure.
pub open spec fn entry_end(s: Seq<char>, entry: Entry) -> nat {
    match entry {
        Entry::Category { end, .. } => end,
        Entry::Rule { end, .. } => end,
        Entry::Failure { .. } => s.len(),
    }
}

/// The listing of `s`: the line of its first entry, then the listing of
/// what is left, as long as anything is left.
pub open spec fn outline(s: Seq<char>) -> Seq<char>
    decreases s.len(),
{
    let entry = entry_of(s);
    let end = entry_end(s, entry);
    entry_line(heading(s, entry), details(entry)) + if 0 < end < s.len() {
        outline(s.subrange(end as int, s.len() as int))
    } else {
        Seq::empty()
    }
}

/// Whether `c` is a letter or a digit of ASCII.
pub fn alnum(c: char) -> (yes: bool)
    ensures
        yes == is_alnum(c),
{
    ('a' <= c && c <= 'z') || ('A' <= c && c <= 'Z') || ('0' <= c && c <= '9')
}

/// The place behind the white space that starts at `at`.
pub fn skip_space(input: &[char], at: usize) -> (end: usize)
    ensures
        end == at + space_run(input@, at as nat),
        at <= input@.len() ==> end <= input@.len(),
{
    let mut end: usize = at;
    while end < input.len() && char_at(input, end).is_whitespace()
        invariant
            at <= end,
            at <= input@.len() ==> end <= input@.len(),
            at + space_run(input@, at as nat) == end + space_run(input@, end as nat),
        decreases input@.len() - end,
    {
        end += 1;
    }
    end
}

/// The place behind the letters and digits that start at `at`.
pub fn skip_alnum(input: &[char], at: usize) -> (end: usize)
    ensures
        end == at + alnum_run(input@, at as nat),
        at <= input@.len() ==> end <= input@.len(),
{
    let mut end: usize = at;
    while end < input.len() && alnum(char_at(input, end))
        invariant
            at <= end,
            at <= input@.len() ==> end <= input@.len(),
            at + alnum_run(input@, at as nat) == end + alnum_run(input@, end as nat),
        decreases input@.len() - end,
    {
        end += 1;
    }
    end
}

/// The place of the first `stop` from `at` on, or the end of `input`.
pub fn skip_until(input: &[char], at: usize, stop: char) -> (end: usize)
    ensures
        end == at + run_until(input@, at as nat, stop),
        at <= input@.len() ==> end <= input@.len(),
{
    let mut end: usize = at;
    while end < input.len() && char_at(input, end) != stop
        invariant
            at <= end,
            at <= input@.len() ==> end <= input@.len(),
            at + run_until(input@, at as nat, stop) == end + run_until(input@, end as nat, stop),
        decreases input@.len() - end,
    {
        end += 1;
    }
    end
}

/// The place behind the word that starts at `at`.
pub fn skip_word(input: &[char], at: usize) -> (end: usize)
    ensures
        end == at + word_run(input@, at as nat),
        at <= input@.len() ==> end <= input@.len(),
{
    let mut end: usize = at;
    while end < input.len() && !char_at(input, end).is_whitespace()
        invariant
            at <= end,
            at <= input@.len() ==> end <= input@.len(),
            at + word_run(input@, at as nat) == end + word_run(input@, end as nat),
        decreases input@.len() - end,
    {
        end += 1;
    }
    end
}

/// A part of a text: from the place `from` up to the place `to`.
#[derive(Debug, Clone, Copy, PartialEq, Eq)]
pub struct Span {
    pub from: usize,
    pub to: usize,
}

impl Span {
    /// The part of `s` that the span covers.
    pub open spec fn of(self, s: Seq<char>) -> Seq<char> {
        s.subrange(self.from as int, self.to as int)
    }

    /// Whether the span lies in a text of `len` characters.
    pub open spec fn fits(self, len: nat) -> bool {
        self.from <= self.to <= len
    }
}

/// An entry as the places of its parts in the text that it was read from.
#[derive(Debug, Clone, Copy, PartialEq, Eq)]
pub enum Found {
    Category { name: Span, items: Span, end: usize },
    Rule { pattern: Span, substitute: Span, context: Span, end: usize },
    Failure { at: usize, missing: Missing },
}

impl Found {
    /// The entry that these places make in `s`.
    pub open spec fn entry(self, s: Seq<char>) -> Entry {
        match self {
            Found::Category { name, items, end } => Entry::Category {
                name: name.of(s),
                items: items.of(s),
                end: end as nat,
            },
            Found::Rule { pattern, substitute, context, end } => Entry::Rule {
                pattern: pattern.of(s),
                substitute: substitute.of(s),
                context: context.of(s),
                end: end as nat,
            },
            Found::Failure { at, missing } => Entry::Failure { at: at as nat, missing },
        }
    }

    /// Whether all places lie in a text of `len` characters, and the entry
    /// is not empty.
    pub open spec fn fits(self, len: nat) -> bool {
        match self {
            Found::Category { name, items, end } => name.fits(len) && items.fits(len) && 0 < end
                <= len,
            Found::Rule { pattern, substitute, context, end } => pattern.fits(len)
                && substitute.fits(len) && context.fits(len) && 0 < end <= len,
            Found::Failure { at, .. } => at <= len,
        }
    }
}

/// Whether an entry ends at `at` with a newline or a semicolon.
pub fn end_mark(input: &[char], at: usize) -> (yes: bool)
    ensures
        yes == is_end_mark(input@, at as nat),
{
    at < input.len() && (char_at(input, at) == '\n' || char_at(input, at) == ';')
}

/// The category at the start of `input`.
pub fn category_parse(input: &[char]) -> (found: Option<Found>)
    ensures
        match found {
            Some(entry) => entry is Category && entry.fits(input@.len()) && category_of(input@)
                == Some(entry.entry(input@)),
            None => category_of(input@) is None,
        },
{
    let name: usize = skip_space(input, 0);
    let name_end: usize = skip_alnum(input, name);
    if name_end == name {
        return None;
    }
    let colons: usize = skip_space(input, name_end);
    if !(colons < input.len() && colons + 1 < input.len() && char_at(input, colons) == ':'
        && char_at(input, colons + 1) == ':') {
        return None;
    }
    let items: usize = skip_space(input, colons + 2);
    let newline: usize = skip_until(input, items, '\n');
    if newline < input.len() {
        return Some(
            Found::Category {
                name: Span { from: name, to: name_end },
                items: Span { from: items, to: newline },
                end: newline + 1,
            },
        );
    }
    let semicolon: usize = skip_until(input, items, ';');
    if semicolon < input.len() {
        return Some(
            Found::Category {
                name: Span { from: name, to: name_end },
                items: Span { from: items, to: semicolon },
                end: semicolon + 1,
            },
        );
    }
    if items >= input.len() {
        assert(input@.subrange(items as int, items as int) =~= Seq::<char>::empty());
        return Some(
            Found::Category {
                name: Span { from: name, to: name_end },
                items: Span { from: items, to: items },
                end: items,
            },
        );
    }
    None
}

/// The context clause at `at`: the place of its text, and the place behind
/// the clause.
pub fn context_parser(input: &[char], at: usize) -> (found: Option<(Span, usize)>)
    ensures
        match found {
            Some((context, end)) => context.fits(input@.len()) && at < end <= input@.len()
                && context_of(input@, at as nat) == Some((context.of(input@), end as nat)),
            None => context_of(input@, at as nat) is None,
        },
{
    if !(at < input.len() && char_at(input, at) == '/') {
        return None;
    }
    let before: usize = skip_space(input, at + 1);
    let focus: usize = skip_alnum(input, before);
    if !(focus < input.len() && char_at(input, focus) == '_') {
        return None;
    }
    let behind: usize = skip_alnum(input, focus + 1);
    let tail: usize = skip_space(input, behind);
    if end_mark(input, tail) {
        Some((Span { from: before, to: behind }, tail + 1))
    } else if tail >= input.len() {
        Some((Span { from: before, to: behind }, tail))
    } else {
        None
    }
}

/// The rule at the start of `input`, or the failure to read one.
pub fn rule_parse(input: &[char]) -> (found: Found)
    ensures
        !(found is Category),
        found.fits(input@.len()),
        rule_of(input@) == found.entry(input@),
{
    let pattern: usize = skip_space(input, 0);
    let pattern_end: usize = skip_alnum(input, pattern);
    if pattern_end == pattern {
        return Found::Failure { at: pattern, missing: Missing::Pattern };
    }
    let separator: usize = skip_space(input, pattern_end);
    if !(separator < input.len() && (char_at(input, separator) == '>' || char_at(input, separator)
        == '/')) {
        return Found::Failure { at: separator, missing: Missing::Separator };
    }
    let substitute: usize = skip_space(input, separator + 1);
    let substitute_end: usize = skip_alnum(input, substitute);
    let tail: usize = skip_space(input, substitute_end);
    match context_parser(input, tail) {
        Some((context, end)) => Found::Rule {
            pattern: Span { from: pattern, to: pattern_end },
            substitute: Span { from: substitute, to: substitute_end },
            context,
            end,
        },
        None => {
            if end_mark(input, tail) {
                Found::Rule {
                    pattern: Span { from: pattern, to: pattern_end },
                    substitute: Span { from: substitute, to: substitute_end },
                    context: Span { from: tail, to: tail + 1 },
                    end: tail + 1,
                }
            } else if tail >= input.len() {
                assert(input@.subrange(tail as int, tail as int) =~= Seq::<char>::empty());
                Found::Rule {
                    pattern: Span { from: pattern, to: pattern_end },
                    substitute: Span { from: substitute, to: substitute_end },
                    context: Span { from: tail, to: tail },
                    end: tail,
                }
            } else {
                Found::Failure { at: tail, missing: Missing::End }
            }
        },
    }
}

/// The words of `text`.
pub fn split_words(text: &str) -> (list: Vec<String>)
    ensures
        list.deep_view() == words(text@, 0),
{
    let chars = chars_of(text);
    let input: &[char] = chars.as_slice();
    let ghost s = text@;
    let mut list: Vec<String> = Vec::new();
    let mut at: usize = 0;
    assert(list.deep_view() =~= Seq::<Seq<char>>::empty());
    loop
        invariant_except_break
            words(s, 0) == list.deep_view() + words(s, at as nat),
        invariant
            s == text@,
            s == input@,
            at <= s.len(),
        ensures
            words(s, 0) == list.deep_view(),
        decreases s.len() - at,
    {
        let start: usize = skip_space(input, at);
        let end: usize = skip_word(input, start);
        if end == start {
            assert(list.deep_view() + Seq::<Seq<char>>::empty() =~= list.deep_view());
            break ;
        }
        let word = piece(text, start, end);
        let ghost before = list.deep_view();
        let ghost rest = words(s, end as nat);
        assert(before + (seq![word@] + rest) =~= before.push(word@) + rest);
        list.push(word);
        assert(list.deep_view() =~= before.push(s.subrange(start as int, end as int)));
        at = end;
    }
    list
}

/// The texts of `items` with one space between each two.
pub fn join_with_spaces(items: &Vec<String>) -> (text: String)
    ensures
        text@ == joined(items.deep_view(), items@.len(), " "@),
{
    let mut text: String = String::new();
    let mut i: usize = 0;
    while i < items.len()
        invariant
            i <= items@.len(),
            text@ == joined(items.deep_view(), i as nat, " "@),
        decreases items@.len() - i,
    {
        let ghost before = text@;
        if i > 0 {
            text.append(" ");
        }
        text.append(items[i].as_str());
        proof {
            assert(items.deep_view()[i as int] == items@[i as int]@);
            if i == 0 {
                assert(Seq::<char>::empty() + items@[0]@ =~= items@[0]@);
            }
        }
        i += 1;
    }
    text
}

/// The line of one entry.
pub fn render(name: &str, items: &Vec<String>) -> (line: String)
    ensures
        line@ == entry_line(name@, items.deep_view()),
{
    let mut line: String = "\n ".to_owned();
    line.append(name);
    line.append(" ");
    let details = join_with_spaces(items);
    line.append(details.as_str());
    line
}

/// The first entry of `input`: its heading, what is listed under it, and
/// what is left of the text behind it.
pub fn parse(input: &str) -> (parts: (String, Vec<String>, String))
    ensures
        parts.0@ == heading(input@, entry_of(input@)),
        parts.1.deep_view() == details(entry_of(input@)),
        parts.2@ == remainder(input@, entry_of(input@)),
        0 < parts.2@.len() ==> parts.2@ == input@.subrange(
            entry_end(input@, entry_of(input@)) as int,
            input@.len() as int,
        ) && 0 < entry_end(input@, entry_of(input@)) < input@.len(),
        parts.2@.len() == 0 ==> !(0 < entry_end(input@, entry_of(input@)) < input@.len()),
{
    let chars = chars_of(input);
    let text: &[char] = chars.as_slice();
    let len: usize = text.len();
    let found = match category_parse(text) {
        Some(entry) => entry,
        None => rule_parse(text),
    };
    assert(found.entry(input@) == entry_of(input@));
    match found {
        Found::Category { name, items, end } => {
            let mut title: String = "Name: ".to_owned();
            let name_text = piece(input, name.from, name.to);
            title.append(name_text.as_str());
            title.append(" - Items:");
            let items_text = piece(input, items.from, items.to);
            let list = split_words(items_text.as_str());
            (title, list, piece(input, end, len))
        },
        Found::Rule { pattern, substitute, context, end } => {
            let mut title: String = "Pattern: ".to_owned();
            let pattern_text = piece(input, pattern.from, pattern.to);
            title.append(pattern_text.as_str());
            let mut list: Vec<String> = Vec::new();
            list.push("- Substitute:".to_owned());
            list.push(piece(input, substitute.from, substitute.to));
            list.push("- Context:".to_owned());
            list.push(piece(input, context.from, context.to));
            assert(list.deep_view() =~= details(entry_of(input@)));
            (title, list, piece(input, end, len))
        },
        Found::Failure { at, missing } => {
            let rest = piece(input, at, len);
            let list: Vec<String> = Vec::new();
            assert(list.deep_view() =~= details(entry_of(input@)));
            (describe_failure(rest.as_str(), missing), list, String::new())
        },
    }
}

/// The listing of `input`.
pub fn process(input: &String) -> (listing: String)
    ensures
        listing@ == outline(input@),
    decreases input@.len(),
{
    let (name, items, remainder) = parse(input.as_str());
    let mut listing = render(name.as_str(), &items);
    if !remainder.as_str().is_empty() {
        let rest = process(&remainder);
        listing.append(rest.as_str());
    } else {
        assert(listing@ + Seq::<char>::empty() =~= listing@);
    }
    listing
}

} // verus!
