use tadpole_lexc::elem::LexcElem;
use tadpole_lexc::parse::{
    alt_matcher, alt_replacer, elem_matcher, elem_replacer, inv_matcher, inv_replacer, lexc_char,
    lexc_reserved, repeat_matcher, repeat_replacer, seq_matcher, seq_replacer,
};

fn chars(text: &str) -> Vec<char> {
    text.chars().collect()
}

fn lit(c: char) -> LexcElem {
    LexcElem::Char(c)
}

fn boxed(elem: LexcElem) -> Box<LexcElem> {
    Box::new(elem)
}

#[test]
fn literal_characters() {
    assert_eq!(lexc_char(&chars("a"), 0), Some((lit('a'), 1)));
    assert_eq!(lexc_char(&chars("é"), 0), Some((lit('é'), 1)));
    assert_eq!(lexc_char(&chars(","), 0), Some((lit(','), 1)));
    assert_eq!(lexc_char(&chars(":"), 0), Some((lit(':'), 1)));
    assert_eq!(lexc_char(&chars("ab"), 1), Some((lit('b'), 2)));
}

#[test]
fn reserved_characters_are_no_literals() {
    for c in " \t\n>/+*?{}()^#_".chars() {
        let text = c.to_string();
        assert_eq!(lexc_char(&chars(&text), 0), None, "{:?}", c);
    }
}

#[test]
fn a_backslash_makes_any_character_literal() {
    for c in " \t\n\\>/+*?{}()^#_a".chars() {
        let text = format!("\\{}", c);
        assert_eq!(lexc_char(&chars(&text), 0), Some((lit(c), 2)), "{:?}", c);
    }
    assert_eq!(lexc_char(&chars("\\"), 0), None);
}

#[test]
fn marks_with_a_meaning() {
    assert_eq!(lexc_reserved(&chars("."), 0), Some((LexcElem::Wildcard, 1)));
    assert_eq!(lexc_reserved(&chars("^"), 0), Some((LexcElem::WordBoundary, 1)));
    assert_eq!(lexc_reserved(&chars("#"), 0), Some((LexcElem::WordBoundary, 1)));
    assert_eq!(lexc_reserved(&chars("a"), 0), None);
    assert_eq!(lexc_reserved(&chars(""), 0), None);
}

#[test]
fn nothing_is_read_at_or_behind_the_end() {
    let text = chars("ab");
    assert_eq!(seq_matcher(&text, 2), None);
    assert_eq!(seq_matcher(&text, 3), None);
    assert_eq!(seq_replacer(&text, 2), None);
    assert_eq!(seq_replacer(&text, usize::MAX), None);
    assert_eq!(lexc_char(&text, usize::MAX), None);
    assert_eq!(lexc_reserved(&text, 2), None);
    assert_eq!(alt_matcher(&text, 2), None);
    assert_eq!(inv_matcher(&text, 2), None);
    assert_eq!(elem_matcher(&text, 2), None);
    assert_eq!(repeat_matcher(&text, 2), None);
}

#[test]
fn the_underscore_is_an_atom_of_the_replace_side_only() {
    assert_eq!(elem_replacer(&chars("_"), 0), Some((LexcElem::Capture, 1)));
    assert_eq!(elem_matcher(&chars("_"), 0), None);
    assert_eq!(seq_replacer(&chars("a_b"), 0), Some((
        LexcElem::Sequence(vec![lit('a'), LexcElem::Capture, lit('b')]),
        3
    )));
    assert_eq!(seq_matcher(&chars("a_b"), 0), Some((lit('a'), 1)));
}

#[test]
fn parentheses_hold_the_replace_grammar_on_both_sides() {
    assert_eq!(elem_matcher(&chars("(_)"), 0), Some((LexcElem::Capture, 3)));
    assert_eq!(elem_replacer(&chars("(_)"), 0), Some((LexcElem::Capture, 3)));
    assert_eq!(seq_matcher(&chars("(a_)b"), 0), Some((
        LexcElem::Sequence(vec![
            LexcElem::Sequence(vec![lit('a'), LexcElem::Capture]),
            lit('b'),
        ]),
        5
    )));
    assert_eq!(elem_matcher(&chars("(a"), 0), None);
    assert_eq!(elem_matcher(&chars("()"), 0), None);
}

#[test]
fn negation() {
    assert_eq!(inv_matcher(&chars("!a"), 0), Some((LexcElem::Invert(boxed(lit('a'))), 2)));
    assert_eq!(inv_replacer(&chars("!_"), 0), Some((LexcElem::Invert(boxed(LexcElem::Capture)), 2)));
    assert_eq!(inv_matcher(&chars("!_"), 0), None);
    assert_eq!(inv_matcher(&chars("a"), 0), None);
    // an exclamation mark that denies nothing stands for itself
    assert_eq!(seq_matcher(&chars("!"), 0), Some((lit('!'), 1)));
    assert_eq!(seq_matcher(&chars("!>"), 0), Some((lit('!'), 1)));
    // a negation takes an atom, not an alternation
    assert_eq!(inv_matcher(&chars("!{a}"), 0), None);
}

#[test]
fn repeats() {
    assert_eq!(repeat_matcher(&chars("a?"), 0), Some((LexcElem::Optional(boxed(lit('a'))), 2)));
    assert_eq!(repeat_matcher(&chars("a*"), 0), Some((LexcElem::RepeatAny(boxed(lit('a'))), 2)));
    assert_eq!(repeat_matcher(&chars("a+"), 0), Some((LexcElem::RepeatOne(boxed(lit('a'))), 2)));
    assert_eq!(repeat_replacer(&chars("_*"), 0), Some((
        LexcElem::RepeatAny(boxed(LexcElem::Capture)),
        2
    )));
    assert_eq!(repeat_matcher(&chars("a"), 0), None);
    assert_eq!(repeat_matcher(&chars("ab?"), 0), None);
    assert_eq!(repeat_matcher(&chars("!a+"), 0), Some((
        LexcElem::RepeatOne(boxed(LexcElem::Invert(boxed(lit('a'))))),
        3
    )));
    assert_eq!(repeat_matcher(&chars("{a}*"), 0), Some((
        LexcElem::RepeatAny(boxed(LexcElem::Alt(vec![lit('a')]))),
        4
    )));
}

#[test]
fn one_repeat_mark_and_no_more() {
    assert_eq!(seq_matcher(&chars("a??"), 0), Some((LexcElem::Optional(boxed(lit('a'))), 2)));
    assert_eq!(seq_matcher(&chars("?a"), 0), None);
}

#[test]
fn alternations() {
    assert_eq!(alt_matcher(&chars("{a}"), 0), Some((LexcElem::Alt(vec![lit('a')]), 3)));
    assert_eq!(alt_matcher(&chars("{a ,b}"), 0), Some((
        LexcElem::Alt(vec![lit('a'), lit('b')]),
        6
    )));
    assert_eq!(alt_matcher(&chars("{ ab , c? ,\t. }x"), 0), Some((
        LexcElem::Alt(vec![
            LexcElem::Sequence(vec![lit('a'), lit('b')]),
            LexcElem::Optional(boxed(lit('c'))),
            LexcElem::Wildcard,
        ]),
        15
    )));
    assert_eq!(alt_replacer(&chars("{_ , a}"), 0), Some((
        LexcElem::Alt(vec![LexcElem::Capture, lit('a')]),
        7
    )));
    assert_eq!(alt_matcher(&chars("{}"), 0), None);
    assert_eq!(alt_matcher(&chars("{a"), 0), None);
    assert_eq!(alt_matcher(&chars("{a ,}"), 0), None);
    assert_eq!(alt_matcher(&chars("a"), 0), None);
}

#[test]
fn a_comma_right_behind_a_branch_belongs_to_the_branch() {
    // the comma is no reserved character: a sequence reads on over it
    assert_eq!(alt_matcher(&chars("{a,b}"), 0), Some((
        LexcElem::Alt(vec![LexcElem::Sequence(vec![lit('a'), lit(','), lit('b')])]),
        5
    )));
    assert_eq!(alt_matcher(&chars("{a, b}"), 0), None);
}

#[test]
fn nested_alternations() {
    assert_eq!(seq_matcher(&chars("{{a ,b} ,c}d"), 0), Some((
        LexcElem::Sequence(vec![
            LexcElem::Alt(vec![LexcElem::Alt(vec![lit('a'), lit('b')]), lit('c')]),
            lit('d'),
        ]),
        12
    )));
}

#[test]
fn a_sequence_of_one_member_is_the_member() {
    assert_eq!(seq_matcher(&chars("a"), 0), Some((lit('a'), 1)));
    assert_eq!(seq_replacer(&chars("_"), 0), Some((LexcElem::Capture, 1)));
    assert_eq!(seq_matcher(&chars("(a)"), 0), Some((lit('a'), 3)));
    assert_eq!(seq_matcher(&chars("((a))"), 0), Some((lit('a'), 5)));
    assert_eq!(seq_matcher(&chars("ab"), 0), Some((
        LexcElem::Sequence(vec![lit('a'), lit('b')]),
        2
    )));
}

#[test]
fn a_sequence_ends_where_no_member_starts() {
    assert_eq!(seq_matcher(&chars("ab>c"), 0), Some((
        LexcElem::Sequence(vec![lit('a'), lit('b')]),
        2
    )));
    assert_eq!(seq_matcher(&chars("a b"), 0), Some((lit('a'), 1)));
    assert_eq!(seq_matcher(&chars("xxab cd"), 2), Some((
        LexcElem::Sequence(vec![lit('a'), lit('b')]),
        4
    )));
    assert_eq!(seq_matcher(&chars(" a"), 0), None);
    assert_eq!(seq_matcher(&chars(""), 0), None);
}

#[test]
fn every_kind_of_member_in_one_sequence() {
    assert_eq!(seq_matcher(&chars("a.^#!b\\+(c)*{d}?"), 0), Some((
        LexcElem::Sequence(vec![
            lit('a'),
            LexcElem::Wildcard,
            LexcElem::WordBoundary,
            LexcElem::WordBoundary,
            LexcElem::Invert(boxed(lit('b'))),
            lit('+'),
            LexcElem::RepeatAny(boxed(lit('c'))),
            LexcElem::Optional(boxed(LexcElem::Alt(vec![lit('d')]))),
        ]),
        16
    )));
}
