// The grammar once more, written with nom's combinators, and the library's
// parsers held against it on many short texts.

use nom::branch::alt;
use nom::bytes::complete::tag;
use nom::character::complete::{anychar, none_of, one_of, space0};
use nom::combinator::{eof, opt, recognize};
use nom::multi::{many1, separated_list1};
use nom::sequence::{delimited, preceded, terminated};
use nom::{IResult, Parser};

use tadpole_lexc::directive::{Directive, EnvironmentDef, RuleDef};
use tadpole_lexc::elem::LexcElem;
use tadpole_lexc::line::parse_lexc_line;
use tadpole_lexc::parse::{seq_matcher, seq_replacer};

fn collapse(mut seq: Vec<LexcElem>) -> LexcElem {
    if seq.len() == 1 {
        seq.remove(0)
    } else {
        LexcElem::Sequence(seq)
    }
}

fn repeat(inner: LexcElem, mark: char) -> LexcElem {
    match mark {
        '?' => LexcElem::Optional(Box::new(inner)),
        '*' => LexcElem::RepeatAny(Box::new(inner)),
        _ => LexcElem::RepeatOne(Box::new(inner)),
    }
}

fn c_seq_matcher(input: &str) -> IResult<&str, LexcElem> {
    nom::combinator::map(
        many1(alt((c_repeat_matcher, c_alt_matcher, c_inv_matcher, c_elem_matcher))),
        collapse,
    )
    .parse(input)
}

fn c_repeat_matcher(input: &str) -> IResult<&str, LexcElem> {
    nom::combinator::map(
        (alt((c_alt_matcher, c_inv_matcher, c_elem_matcher)), one_of("?*+")),
        |(inner, mark)| repeat(inner, mark),
    )
    .parse(input)
}

fn c_alt_matcher(input: &str) -> IResult<&str, LexcElem> {
    nom::combinator::map(
        (
            tag("{"),
            space0,
            separated_list1((space0, tag(","), space0), c_seq_matcher),
            space0,
            tag("}"),
        ),
        |(_, _, list, _, _)| LexcElem::Alt(list),
    )
    .parse(input)
}

fn c_inv_matcher(input: &str) -> IResult<&str, LexcElem> {
    nom::combinator::map((tag("!"), c_elem_matcher), |(_, inner)| LexcElem::Invert(Box::new(inner))).parse(input)
}

fn c_elem_matcher(input: &str) -> IResult<&str, LexcElem> {
    alt((delimited(tag("("), c_seq_replacer, tag(")")), c_reserved, c_char)).parse(input)
}

fn c_seq_replacer(input: &str) -> IResult<&str, LexcElem> {
    nom::combinator::map(
        many1(alt((c_repeat_replacer, c_alt_replacer, c_inv_replacer, c_elem_replacer))),
        collapse,
    )
    .parse(input)
}

fn c_repeat_replacer(input: &str) -> IResult<&str, LexcElem> {
    nom::combinator::map(
        (alt((c_alt_replacer, c_inv_replacer, c_elem_replacer)), one_of("?*+")),
        |(inner, mark)| repeat(inner, mark),
    )
    .parse(input)
}

fn c_alt_replacer(input: &str) -> IResult<&str, LexcElem> {
    nom::combinator::map(
        (
            tag("{"),
            space0,
            separated_list1((space0, tag(","), space0), c_seq_replacer),
            space0,
            tag("}"),
        ),
        |(_, _, list, _, _)| LexcElem::Alt(list),
    )
    .parse(input)
}

fn c_inv_replacer(input: &str) -> IResult<&str, LexcElem> {
    nom::combinator::map((tag("!"), c_elem_replacer), |(_, inner)| LexcElem::Invert(Box::new(inner))).parse(input)
}

fn c_elem_replacer(input: &str) -> IResult<&str, LexcElem> {
    alt((
        nom::combinator::map(tag("_"), |_| LexcElem::Capture),
        delimited(tag("("), c_seq_replacer, tag(")")),
        c_reserved,
        c_char,
    ))
    .parse(input)
}

fn c_char(input: &str) -> IResult<&str, LexcElem> {
    alt((
        nom::combinator::map(none_of(" \t\n\\>/+*?{}()^#_"), LexcElem::Char),
        nom::combinator::map(preceded(tag("\\"), anychar), LexcElem::Char),
    ))
    .parse(input)
}

fn c_reserved(input: &str) -> IResult<&str, LexcElem> {
    alt((
        nom::combinator::map(tag("."), |_| LexcElem::Wildcard),
        nom::combinator::map(one_of("^#"), |_| LexcElem::WordBoundary),
    ))
    .parse(input)
}

fn c_class(input: &str) -> IResult<&str, Directive> {
    nom::combinator::map(
        (
            space0,
            none_of(" \t\n:"),
            space0,
            tag("::"),
            space0,
            separated_list1(
                (space0, tag(","), space0),
                recognize(many1(none_of(" \t\n,"))),
            ),
            space0,
            (opt(tag("\n")), eof),
        ),
        |(_, name, _, _, _, members, _, _)| {
            Directive::DefineClass(name, members.into_iter().map(String::from).collect())
        },
    )
    .parse(input)
}

fn c_rule(input: &str) -> IResult<&str, Directive> {
    nom::combinator::map(
        (
            space0,
            opt(terminated(c_seq_matcher, space0)),
            alt((tag(">"), tag("/"))),
            space0,
            opt(terminated(c_seq_replacer, space0)),
            opt((
                tag("/"),
                opt(space0),
                opt(c_seq_matcher),
                opt(space0),
                tag("_"),
                opt(space0),
                opt(c_seq_matcher),
                opt(space0),
            )),
            (opt(tag("\n")), eof),
        ),
        |(_, matcher, _, _, replacer, env, _)| {
            Directive::Transform(
                "unassigned".to_string(),
                RuleDef {
                    matcher: matcher.unwrap_or(LexcElem::Null),
                    replacer: replacer.unwrap_or(LexcElem::Null),
                    env: env.map(|(_, _, pre, _, _, _, post, _)| EnvironmentDef { pre, post }),
                },
            )
        },
    )
    .parse(input)
}

fn c_line(input: &str) -> Option<Directive> {
    match alt((c_class, c_rule)).parse(input) {
        Ok((_, directive)) => Some(directive),
        Err(_) => None,
    }
}

const LETTERS: [char; 24] = [
    'a', 'C', '{', '}', ',', '(', ')', '!', '?', '*', '+', '.', '#', '^', '_', '\\', '>', '/', ' ',
    '\t', '\n', ':', 'é', '₁',
];

fn text_of_number(mut number: usize, len: usize) -> String {
    let mut text = String::new();
    for _ in 0..len {
        text.push(LETTERS[number % LETTERS.len()]);
        number /= LETTERS.len();
    }
    text
}

struct Dice(u64);

impl Dice {
    fn roll(&mut self, sides: usize) -> usize {
        self.0 = self.0.wrapping_mul(6364136223846793005).wrapping_add(1442695040888963407);
        ((self.0 >> 33) as usize) % sides
    }

    fn text(&mut self, len: usize) -> String {
        (0..len).map(|_| LETTERS[self.roll(LETTERS.len())]).collect()
    }
}

fn same_element(
    ours: Option<(LexcElem, usize)>,
    theirs: IResult<&str, LexcElem>,
    text: &str,
) {
    let chars = text.chars().count();
    match (ours, theirs) {
        (Some((elem, end)), Ok((rest, expected))) => {
            assert_eq!(elem, expected, "in {:?}", text);
            assert_eq!(chars - end, rest.chars().count(), "in {:?}", text);
        }
        (None, Err(_)) => {}
        (ours, theirs) => panic!("{:?}: {:?} against {:?}", text, ours, theirs),
    }
}

#[test]
fn match_sequences_agree_on_every_short_text() {
    for len in 0..=4 {
        for number in 0..LETTERS.len().pow(len as u32) {
            let text = text_of_number(number, len);
            let chars: Vec<char> = text.chars().collect();
            same_element(seq_matcher(&chars, 0), c_seq_matcher(&text), &text);
        }
    }
}

#[test]
fn replace_sequences_agree_on_every_short_text() {
    for len in 0..=4 {
        for number in 0..LETTERS.len().pow(len as u32) {
            let text = text_of_number(number, len);
            let chars: Vec<char> = text.chars().collect();
            same_element(seq_replacer(&chars, 0), c_seq_replacer(&text), &text);
        }
    }
}

#[test]
fn sequences_agree_on_longer_texts() {
    let mut dice = Dice(7);
    for _ in 0..40000 {
        let len = 5 + dice.roll(12);
        let text = dice.text(len);
        let chars: Vec<char> = text.chars().collect();
        same_element(seq_matcher(&chars, 0), c_seq_matcher(&text), &text);
        same_element(seq_replacer(&chars, 0), c_seq_replacer(&text), &text);
    }
}

#[test]
fn sequences_agree_in_the_middle_of_a_text() {
    let mut dice = Dice(11);
    for _ in 0..20000 {
        let len = 3 + dice.roll(10);
        let text = dice.text(len);
        let chars: Vec<char> = text.chars().collect();
        let at = dice.roll(len);
        let tail: String = chars[at..].iter().collect();
        match (seq_matcher(&chars, at), c_seq_matcher(&tail)) {
            (Some((elem, end)), Ok((rest, expected))) => {
                assert_eq!(elem, expected, "in {:?} at {}", text, at);
                assert_eq!(chars.len() - end, rest.chars().count());
            }
            (None, Err(_)) => {}
            (ours, theirs) => panic!("{:?} at {}: {:?} against {:?}", text, at, ours, theirs),
        }
    }
}

#[test]
fn lines_agree_on_every_short_text() {
    for len in 0..=4 {
        for number in 0..LETTERS.len().pow(len as u32) {
            let text = text_of_number(number, len);
            assert_eq!(parse_lexc_line(&text), c_line(&text), "in {:?}", text);
        }
    }
}

#[test]
fn lines_agree_on_longer_texts() {
    let mut dice = Dice(3);
    for _ in 0..40000 {
        let len = 5 + dice.roll(14);
        let text = dice.text(len);
        assert_eq!(parse_lexc_line(&text), c_line(&text), "in {:?}", text);
    }
}

#[test]
fn lines_agree_on_texts_shaped_like_lines() {
    let parts = [
        "C", "a", "é", " ", "  ", "\t", "::", ":", ",", ", ", " ,", ">", "/", "_", " / ", " > ",
        "{", "}", "(", ")", "?", "*", "+", "!", ".", "#", "^", "\\", "\n", "ab", "p, t, k",
    ];
    let mut dice = Dice(5);
    for _ in 0..40000 {
        let count = 1 + dice.roll(9);
        let text: String = (0..count).map(|_| parts[dice.roll(parts.len())]).collect();
        assert_eq!(parse_lexc_line(&text), c_line(&text), "in {:?}", text);
    }
}
