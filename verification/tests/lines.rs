use tadpole_lexc::directive::{Directive, EnvironmentDef, RuleDef};
use tadpole_lexc::elem::LexcElem;
use tadpole_lexc::line::{parse_lexc_class, parse_lexc_line, parse_lexc_rule};
use tadpole_lexc::script::TadpoleLexc;

fn lit(c: char) -> LexcElem {
    LexcElem::Char(c)
}

fn class(name: char, members: &[&str]) -> Option<Directive> {
    Some(Directive::DefineClass(name, members.iter().map(|m| m.to_string()).collect()))
}

fn rule(matcher: LexcElem, replacer: LexcElem, env: Option<EnvironmentDef>) -> Option<Directive> {
    Some(Directive::Transform("unassigned".to_string(), RuleDef { matcher, replacer, env }))
}

fn written(name: char, members: &[String]) -> String {
    format!("{} :: {}", name, members.join(", "))
}

#[test]
fn class_line_keeps_members_in_order() {
    assert_eq!(parse_lexc_class("C :: p, b, t\n"), class('C', &["p", "b", "t"]));
    assert_eq!(parse_lexc_class("C :: t, b, p"), class('C', &["t", "b", "p"]));
    assert_eq!(parse_lexc_class("C :: p, p"), class('C', &["p", "p"]));
}

#[test]
fn class_line_with_and_without_blanks() {
    assert_eq!(parse_lexc_class("C::p,t,k"), class('C', &["p", "t", "k"]));
    assert_eq!(parse_lexc_class(" \t C \t :: \t p \t , \t t \t \n"), class('C', &["p", "t"]));
    assert_eq!(parse_lexc_class("C :: p"), class('C', &["p"]));
    assert_eq!(parse_lexc_class("C :: p\n"), class('C', &["p"]));
}

#[test]
fn class_members_are_whole_strings() {
    assert_eq!(
        parse_lexc_class("T :: \u{304}\u{301}, \u{304}\u{300}, abc, a:b, :: , >"),
        class('T', &["\u{304}\u{301}", "\u{304}\u{300}", "abc", "a:b", "::", ">"])
    );
}

#[test]
fn class_names_are_single_characters() {
    assert_eq!(parse_lexc_class("$ :: a"), class('$', &["a"]));
    assert_eq!(parse_lexc_class("0 :: a"), class('0', &["a"]));
    assert_eq!(parse_lexc_class("> :: a"), class('>', &["a"]));
    assert_eq!(parse_lexc_class("ŋ :: a"), class('ŋ', &["a"]));
    assert_eq!(parse_lexc_class("CC :: a"), None);
    assert_eq!(parse_lexc_class(": :: a"), None);
    assert_eq!(parse_lexc_class(":: a"), None);
    assert_eq!(parse_lexc_class("\n :: a"), None);
}

#[test]
fn class_lines_that_are_none() {
    assert_eq!(parse_lexc_class(""), None);
    assert_eq!(parse_lexc_class("C"), None);
    assert_eq!(parse_lexc_class("C ::"), None);
    assert_eq!(parse_lexc_class("C :: "), None);
    assert_eq!(parse_lexc_class("C : : a"), None);
    assert_eq!(parse_lexc_class("C :: a b"), None);
    assert_eq!(parse_lexc_class("C :: a,"), None);
    assert_eq!(parse_lexc_class("C :: a,, b"), None);
    assert_eq!(parse_lexc_class("C :: , a"), None);
    assert_eq!(parse_lexc_class("C :: a\n\n"), None);
    assert_eq!(parse_lexc_class("C :: a\nb"), None);
    assert_eq!(parse_lexc_class("\nC :: a"), None);
}

#[test]
fn a_class_written_out_again_reads_the_same() {
    let lines = [
        "C :: p, b, t\n",
        "  V::a ,i,  u  ",
        "T :: \u{304}\u{301}, \u{304}\u{300}, \u{304}",
        "$ :: ₄",
        "x :: ::, a:b, >",
    ];
    for line in lines {
        match parse_lexc_class(line) {
            Some(Directive::DefineClass(name, members)) => {
                let again = written(name, &members);
                assert_eq!(
                    parse_lexc_class(&again),
                    Some(Directive::DefineClass(name, members)),
                    "{:?}",
                    line
                );
            }
            other => panic!("{:?} gave {:?}", line, other),
        }
    }
    assert_eq!(written('C', &["p".to_string(), "b".to_string()]), "C :: p, b");
}

#[test]
fn rule_lines() {
    assert_eq!(parse_lexc_rule("a > b"), rule(lit('a'), lit('b'), None));
    assert_eq!(parse_lexc_rule("a>b"), rule(lit('a'), lit('b'), None));
    assert_eq!(parse_lexc_rule(" \ta \t> \tb \t\n"), rule(lit('a'), lit('b'), None));
    assert_eq!(
        parse_lexc_rule("ab > _c"),
        rule(
            LexcElem::Sequence(vec![lit('a'), lit('b')]),
            LexcElem::Sequence(vec![LexcElem::Capture, lit('c')]),
            None
        )
    );
}

#[test]
fn a_rule_carries_the_placeholder_identifier() {
    match parse_lexc_rule("a > b") {
        Some(Directive::Transform(id, _)) => assert_eq!(id, "unassigned"),
        other => panic!("{:?}", other),
    }
    match parse_lexc_line("a > b") {
        Some(Directive::Transform(id, _)) => assert_eq!(id, "unassigned"),
        other => panic!("{:?}", other),
    }
}

#[test]
fn absent_sides_are_the_empty_element() {
    assert_eq!(parse_lexc_rule(">"), rule(LexcElem::Null, LexcElem::Null, None));
    assert_eq!(parse_lexc_rule("/"), rule(LexcElem::Null, LexcElem::Null, None));
    assert_eq!(parse_lexc_rule("> b"), rule(LexcElem::Null, lit('b'), None));
    assert_eq!(parse_lexc_rule("a >"), rule(lit('a'), LexcElem::Null, None));
    assert_eq!(parse_lexc_rule("\\( > \n"), rule(lit('('), LexcElem::Null, None));
}

#[test]
fn the_slash_separates_as_the_arrow_does() {
    assert_eq!(parse_lexc_rule("a / b"), rule(lit('a'), lit('b'), None));
    assert_eq!(
        parse_lexc_rule("a / b / c_d"),
        rule(
            lit('a'),
            lit('b'),
            Some(EnvironmentDef { pre: Some(lit('c')), post: Some(lit('d')) })
        )
    );
}

#[test]
fn rule_line_with_environment() {
    assert_eq!(
        parse_lexc_rule("C > K / _V"),
        rule(lit('C'), lit('K'), Some(EnvironmentDef { pre: None, post: Some(lit('V')) }))
    );
    assert_eq!(
        parse_lexc_rule("C > K / V_"),
        rule(lit('C'), lit('K'), Some(EnvironmentDef { pre: Some(lit('V')), post: None }))
    );
    assert_eq!(
        parse_lexc_rule("C > K/_"),
        rule(lit('C'), lit('K'), Some(EnvironmentDef { pre: None, post: None }))
    );
    assert_eq!(
        parse_lexc_rule("> x /  a b? \t_\t # \n"),
        None
    );
    assert_eq!(
        parse_lexc_rule("> x /  ab? \t_\t #. \n"),
        rule(
            LexcElem::Null,
            lit('x'),
            Some(EnvironmentDef {
                pre: Some(LexcElem::Sequence(vec![
                    lit('a'),
                    LexcElem::Optional(Box::new(lit('b'))),
                ])),
                post: Some(LexcElem::Sequence(vec![LexcElem::WordBoundary, LexcElem::Wildcard])),
            })
        )
    );
}

#[test]
fn the_environment_is_read_by_the_match_grammar() {
    // behind the underscore of the clause a second one is no atom
    assert_eq!(parse_lexc_rule("a > b / _ _"), None);
    assert_eq!(
        parse_lexc_rule("a > b / (_) _"),
        rule(
            lit('a'),
            lit('b'),
            Some(EnvironmentDef { pre: Some(LexcElem::Capture), post: None })
        )
    );
}

#[test]
fn a_broken_environment_clause_spoils_the_line() {
    assert_eq!(parse_lexc_rule("a > b / c"), None);
    assert_eq!(parse_lexc_rule("a > b / c _ d e"), None);
    assert_eq!(parse_lexc_rule("a > b / { _"), None);
    assert_eq!(parse_lexc_rule("a > b / _ / _"), None);
    assert_eq!(parse_lexc_line("a > b / c"), None);
}

#[test]
fn unrecognised_lines_give_nothing() {
    assert_eq!(parse_lexc_line(""), None);
    assert_eq!(parse_lexc_line("\n"), None);
    assert_eq!(parse_lexc_line("   \n"), None);
    assert_eq!(parse_lexc_line("just words"), None);
    assert_eq!(parse_lexc_line("a > b ) trailing"), None);
    assert_eq!(parse_lexc_line("a > b\nc > d"), None);
    assert_eq!(parse_lexc_line("a ? > b"), None);
    assert_eq!(parse_lexc_line("a > b > c"), None);
}

#[test]
fn a_line_is_a_class_before_it_is_a_rule() {
    assert_eq!(parse_lexc_line("C :: p, t"), class('C', &["p", "t"]));
    assert_eq!(parse_lexc_line("> :: /"), class('>', &["/"]));
    assert_eq!(parse_lexc_line("a > b"), rule(lit('a'), lit('b'), None));
    // two colons are literal characters of a rule
    assert_eq!(
        parse_lexc_line(":: > a"),
        rule(LexcElem::Sequence(vec![lit(':'), lit(':')]), lit('a'), None)
    );
}

#[test]
fn a_line_ends_with_or_without_a_newline() {
    assert_eq!(parse_lexc_line("a > b"), rule(lit('a'), lit('b'), None));
    assert_eq!(parse_lexc_line("a > b\n"), rule(lit('a'), lit('b'), None));
    assert_eq!(
        parse_lexc_line("a > b\r\n"),
        rule(lit('a'), LexcElem::Sequence(vec![lit('b'), lit('\r')]), None)
    );
}

fn ids(directives: &[Directive]) -> Vec<String> {
    directives
        .iter()
        .filter_map(|d| match d {
            Directive::Transform(id, _) => Some(id.clone()),
            _ => None,
        })
        .collect()
}

fn config() -> Directive {
    Directive::Config("class_as_string".to_string(), true)
}

#[test]
fn script_numbers_rules() {
    let out = TadpoleLexc.parse_spec("C :: p, t\nnonsense\na > b\n\n> c / a_\n");
    assert_eq!(out.len(), 4);
    assert_eq!(out[0], config());
    assert_eq!(Some(&out[1]), class('C', &["p", "t"]).as_ref());
    assert_eq!(
        out[2],
        Directive::Transform(
            "rule_00".to_string(),
            RuleDef { matcher: lit('a'), replacer: lit('b'), env: None }
        )
    );
    assert_eq!(
        out[3],
        Directive::Transform(
            "rule_01".to_string(),
            RuleDef {
                matcher: LexcElem::Null,
                replacer: lit('c'),
                env: Some(EnvironmentDef { pre: Some(lit('a')), post: None }),
            }
        )
    );
}

#[test]
fn an_empty_script_gives_the_configuration_alone() {
    assert_eq!(TadpoleLexc.parse_spec(""), vec![config()]);
    assert_eq!(TadpoleLexc.parse_spec("\n\n\n"), vec![config()]);
    assert_eq!(TadpoleLexc.parse_spec("no line of this\nmeans anything"), vec![config()]);
}

#[test]
fn every_script_starts_with_one_configuration() {
    let scripts = ["", "a > b", "C :: p\n", "??\nC :: p\na > b\n!!\n> c\n"];
    for script in scripts {
        let out = TadpoleLexc.parse_spec(script);
        assert_eq!(out[0], config(), "{:?}", script);
        let configs = out.iter().filter(|d| matches!(d, Directive::Config(_, _))).count();
        assert_eq!(configs, 1, "{:?}", script);
    }
}

#[test]
fn lines_that_give_nothing_take_no_number() {
    let out = TadpoleLexc.parse_spec("a > b\n???\n\nC :: x\nc > d\n a > b / c\ne > f");
    assert_eq!(ids(&out), vec!["rule_00", "rule_01", "rule_02"]);
    assert_eq!(out.len(), 5);
}

#[test]
fn rule_numbers_grow_beyond_two_digits() {
    let script = "a > b\n".repeat(101);
    let out = TadpoleLexc.parse_spec(&script);
    let ids = ids(&out);
    assert_eq!(ids.len(), 101);
    assert_eq!(ids[0], "rule_00");
    assert_eq!(ids[9], "rule_09");
    assert_eq!(ids[10], "rule_10");
    assert_eq!(ids[99], "rule_99");
    assert_eq!(ids[100], "rule_100");
    for (number, id) in ids.iter().enumerate() {
        assert_eq!(id, &format!("rule_{:02}", number));
    }
}

#[test]
fn the_last_line_needs_no_newline() {
    let out = TadpoleLexc.parse_spec("C :: p\na > b");
    assert_eq!(out.len(), 3);
    assert_eq!(ids(&out), vec!["rule_00"]);
}

#[test]
fn directives_keep_the_order_of_the_lines() {
    let out = TadpoleLexc.parse_spec("a > b\nC :: p\nc > d\nV :: a\n");
    assert_eq!(out.len(), 5);
    assert!(matches!(out[1], Directive::Transform(_, _)));
    assert_eq!(Some(&out[2]), class('C', &["p"]).as_ref());
    assert!(matches!(out[3], Directive::Transform(_, _)));
    assert_eq!(Some(&out[4]), class('V', &["a"]).as_ref());
}
