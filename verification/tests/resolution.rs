use tadpole_lexc::directive::{Directive, EnvironmentDef, RuleDef};
use tadpole_lexc::elem::LexcElem;
use tadpole_lexc::line::parse_lexc_rule;
use tadpole_lexc::matcher::{resolve_matchers, MatcherNode};
use tadpole_lexc::names::{binding_name, rule_name, whole_match_name};
use tadpole_lexc::replacer::{resolve_replacers, ReplacerNode};
use tadpole_lexc::resolve::ResolvedRule;
use tadpole_lexc::script::{class_table, TadpoleLexc};
use tadpole_lexc::table::{clone_texts, ClassTable, ResolveError};

fn texts(members: &[&str]) -> Vec<String> {
    members.iter().map(|m| m.to_string()).collect()
}

fn table() -> ClassTable {
    let mut table = ClassTable::new();
    table.define('C', texts(&["p", "t", "k"]));
    table.define('V', texts(&["a", "i", "u"]));
    table
}

fn lit(c: char) -> LexcElem {
    LexcElem::Char(c)
}

fn class_c(binding: Option<usize>) -> MatcherNode {
    MatcherNode::Class { name: 'C', members: texts(&["p", "t", "k"]), binding }
}

fn class_v(binding: Option<usize>) -> MatcherNode {
    MatcherNode::Class { name: 'V', members: texts(&["a", "i", "u"]), binding }
}

fn write_c(binding: usize) -> ReplacerNode {
    ReplacerNode::Class { name: 'C', members: texts(&["p", "t", "k"]), binding }
}

fn write_v(binding: usize) -> ReplacerNode {
    ReplacerNode::Class { name: 'V', members: texts(&["a", "i", "u"]), binding }
}

fn rule_of(line: &str) -> RuleDef {
    match parse_lexc_rule(line) {
        Some(Directive::Transform(_, rule)) => rule,
        other => panic!("{:?} gave {:?}", line, other),
    }
}

#[test]
fn the_table_knows_its_classes() {
    let table = table();
    assert!(table.contains('C'));
    assert!(table.contains('V'));
    assert!(!table.contains('p'));
    assert!(!ClassTable::new().contains('C'));
    assert_eq!(table.members('C'), Ok(texts(&["p", "t", "k"])));
    assert_eq!(table.members('V'), Ok(texts(&["a", "i", "u"])));
}

#[test]
fn an_unknown_class_has_no_members() {
    assert_eq!(table().members('x'), Err(ResolveError::UnknownClass('x')));
    assert_eq!(ClassTable::new().members('C'), Err(ResolveError::UnknownClass('C')));
}

#[test]
fn a_later_definition_takes_the_place_of_an_earlier_one() {
    let mut table = table();
    table.define('C', texts(&["m", "n"]));
    assert_eq!(table.members('C'), Ok(texts(&["m", "n"])));
    assert_eq!(table.members('V'), Ok(texts(&["a", "i", "u"])));
}

#[test]
fn texts_are_copied_one_for_one() {
    assert_eq!(clone_texts(&texts(&["a", "", "bc"])), texts(&["a", "", "bc"]));
    assert_eq!(clone_texts(&Vec::new()), Vec::<String>::new());
}

#[test]
fn a_class_name_resolves_to_the_class_and_a_letter_to_itself() {
    let table = table();
    assert_eq!(lit('C').to_matcher(&table, false), Ok(class_c(Some(0))));
    assert_eq!(lit('p').to_matcher(&table, false), Ok(MatcherNode::Char('p')));
    assert_eq!(lit('C').to_replacer(&table), Ok(write_c(0)));
    assert_eq!(lit('p').to_replacer(&table), Ok(ReplacerNode::Char('p')));
    assert_eq!(lit('C').to_matcher(&ClassTable::new(), false), Ok(MatcherNode::Char('C')));
}

#[test]
fn every_kind_of_element_has_its_matcher() {
    let table = table();
    let boxed = |e: LexcElem| Box::new(e);
    assert_eq!(
        LexcElem::RepeatAny(boxed(lit('a'))).to_matcher(&table, false),
        Ok(MatcherNode::RepeatAny(Box::new(MatcherNode::Char('a'))))
    );
    assert_eq!(
        LexcElem::RepeatOne(boxed(lit('a'))).to_matcher(&table, false),
        Ok(MatcherNode::RepeatOne(Box::new(MatcherNode::Char('a'))))
    );
    assert_eq!(
        LexcElem::Optional(boxed(lit('a'))).to_matcher(&table, false),
        Ok(MatcherNode::Optional(Box::new(MatcherNode::Char('a'))))
    );
    assert_eq!(
        LexcElem::Invert(boxed(lit('C'))).to_matcher(&table, false),
        Ok(MatcherNode::Inverse(Box::new(class_c(Some(0)))))
    );
    assert_eq!(LexcElem::Wildcard.to_matcher(&table, false), Ok(MatcherNode::Wildcard));
    assert_eq!(LexcElem::WordBoundary.to_matcher(&table, false), Ok(MatcherNode::WordBoundary));
    assert_eq!(LexcElem::Null.to_matcher(&table, false), Ok(MatcherNode::Null));
    assert_eq!(
        LexcElem::Sequence(vec![lit('a'), lit('b')]).to_matcher(&table, false),
        Ok(MatcherNode::Sequence(vec![MatcherNode::Char('a'), MatcherNode::Char('b')]))
    );
    assert_eq!(
        LexcElem::Alt(vec![lit('a'), lit('b')]).to_matcher(&table, false),
        Ok(MatcherNode::Alternative {
            branches: vec![MatcherNode::Char('a'), MatcherNode::Char('b')],
            binding: Some(0),
        })
    );
}

#[test]
fn the_capture_marker_matches_as_a_placeholder() {
    assert_eq!(LexcElem::Capture.to_matcher(&table(), false), Ok(MatcherNode::Null));
    let rule = rule_of("(_) > a");
    assert_eq!(rule.matcher, LexcElem::Capture);
    assert_eq!(rule.matcher.to_matcher(&table(), false), Ok(MatcherNode::Null));
}

#[test]
fn the_capture_marker_writes_the_matched_text() {
    assert_eq!(LexcElem::Capture.to_replacer(&table()), Ok(ReplacerNode::Matched));
    assert_eq!(whole_match_name(), "__all");
}

#[test]
fn what_only_a_matcher_can_mean_writes_nothing() {
    let table = table();
    let boxed = |e: LexcElem| Box::new(e);
    assert_eq!(LexcElem::RepeatAny(boxed(lit('C'))).to_replacer(&table), Ok(ReplacerNode::Null));
    assert_eq!(LexcElem::RepeatOne(boxed(lit('C'))).to_replacer(&table), Ok(ReplacerNode::Null));
    assert_eq!(LexcElem::Optional(boxed(lit('C'))).to_replacer(&table), Ok(ReplacerNode::Null));
    assert_eq!(LexcElem::Invert(boxed(lit('C'))).to_replacer(&table), Ok(ReplacerNode::Null));
    assert_eq!(LexcElem::Wildcard.to_replacer(&table), Ok(ReplacerNode::Null));
    assert_eq!(LexcElem::WordBoundary.to_replacer(&table), Ok(ReplacerNode::Null));
    assert_eq!(LexcElem::Null.to_replacer(&table), Ok(ReplacerNode::Null));
    // and what stands inside takes no binding index
    let mut counter = 0;
    let elem = LexcElem::Sequence(vec![LexcElem::Optional(boxed(lit('C'))), lit('V')]);
    assert_eq!(
        elem.resolve_replacer(&table, &mut counter),
        Ok(ReplacerNode::Sequence(vec![ReplacerNode::Null, write_v(0)]))
    );
    assert_eq!(counter, 1);
}

#[test]
fn a_sequence_of_one_member_resolves_as_its_member() {
    let table = table();
    for member in [lit('C'), lit('p'), LexcElem::Alt(vec![lit('C'), lit('V')]), LexcElem::Capture] {
        let expected_matcher = member.to_matcher(&table, false);
        let expected_replacer = member.to_replacer(&table);
        let expected_context = member.to_matcher(&table, true);
        let wrapped = LexcElem::Sequence(vec![member]);
        assert_eq!(wrapped.to_matcher(&table, false), expected_matcher);
        assert_eq!(wrapped.to_replacer(&table), expected_replacer);
        assert_eq!(wrapped.to_matcher(&table, true), expected_context);
    }
    assert_eq!(
        LexcElem::Sequence(vec![LexcElem::Sequence(vec![lit('C')])]).to_matcher(&table, false),
        Ok(class_c(Some(0)))
    );
    assert_eq!(
        LexcElem::Sequence(Vec::new()).to_matcher(&table, false),
        Ok(MatcherNode::Sequence(Vec::new()))
    );
}

#[test]
fn binding_indices_count_up_in_pre_order() {
    let table = table();
    let elem = rule_of("C{V ,Cx}+V!C > ").matcher;
    let mut counter = 0;
    assert_eq!(
        elem.resolve_matcher(&table, &mut counter, false),
        Ok(MatcherNode::Sequence(vec![
            class_c(Some(0)),
            MatcherNode::RepeatOne(Box::new(MatcherNode::Alternative {
                branches: vec![
                    class_v(Some(2)),
                    MatcherNode::Sequence(vec![class_c(Some(3)), MatcherNode::Char('x')]),
                ],
                binding: Some(1),
            })),
            class_v(Some(4)),
            MatcherNode::Inverse(Box::new(class_c(Some(5)))),
        ]))
    );
    assert_eq!(counter, 6);
}

#[test]
fn the_replace_side_counts_on_its_own() {
    let table = table();
    let elem = rule_of("> C{V ,Cx}V").replacer;
    let mut counter = 0;
    assert_eq!(
        elem.resolve_replacer(&table, &mut counter),
        Ok(ReplacerNode::Sequence(vec![
            write_c(0),
            ReplacerNode::Alternative {
                branches: vec![
                    write_v(2),
                    ReplacerNode::Sequence(vec![write_c(3), ReplacerNode::Char('x')]),
                ],
                binding: 1,
            },
            write_v(4),
        ]))
    );
    assert_eq!(counter, 5);
}

#[test]
fn the_counter_goes_on_from_where_it_stands() {
    let table = table();
    let mut counter = 5;
    assert_eq!(lit('C').resolve_matcher(&table, &mut counter, false), Ok(class_c(Some(5))));
    assert_eq!(counter, 6);
    assert_eq!(lit('p').resolve_matcher(&table, &mut counter, false), Ok(MatcherNode::Char('p')));
    assert_eq!(counter, 6);
    assert_eq!(lit('V').resolve_replacer(&table, &mut counter), Ok(write_v(6)));
    assert_eq!(counter, 7);
    let items = vec![lit('C'), lit('x'), lit('V')];
    assert_eq!(
        resolve_matchers(&items, &table, &mut counter, false),
        Ok(vec![class_c(Some(7)), MatcherNode::Char('x'), class_v(Some(8))])
    );
    assert_eq!(counter, 9);
    assert_eq!(
        resolve_replacers(&items, &table, &mut counter),
        Ok(vec![write_c(9), ReplacerNode::Char('x'), write_v(10)])
    );
    assert_eq!(counter, 11);
}

#[test]
fn nothing_is_bound_in_an_environment() {
    let table = table();
    let elem = rule_of("C{V ,C}V > ").matcher;
    let mut counter = 3;
    assert_eq!(
        elem.resolve_matcher(&table, &mut counter, true),
        Ok(MatcherNode::Sequence(vec![
            class_c(None),
            MatcherNode::Alternative { branches: vec![class_v(None), class_c(None)], binding: None },
            class_v(None),
        ]))
    );
    assert_eq!(counter, 3);
}

#[test]
fn a_full_counter_takes_no_binding() {
    let table = table();
    let mut counter = usize::MAX;
    assert_eq!(
        lit('C').resolve_matcher(&table, &mut counter, false),
        Err(ResolveError::TooManyBindings)
    );
    let mut counter = usize::MAX;
    assert_eq!(lit('C').resolve_replacer(&table, &mut counter), Err(ResolveError::TooManyBindings));
    let mut counter = usize::MAX;
    assert_eq!(
        LexcElem::Alt(vec![lit('a')]).resolve_matcher(&table, &mut counter, false),
        Err(ResolveError::TooManyBindings)
    );
    let mut counter = usize::MAX - 1;
    assert_eq!(
        LexcElem::Sequence(vec![lit('C'), lit('x'), lit('V')]).resolve_matcher(
            &table,
            &mut counter,
            false
        ),
        Err(ResolveError::TooManyBindings)
    );
    assert_eq!(counter, usize::MAX);
    let mut counter = usize::MAX - 1;
    assert_eq!(
        LexcElem::Sequence(vec![lit('C'), LexcElem::Alt(vec![lit('x')])])
            .resolve_replacer(&table, &mut counter),
        Err(ResolveError::TooManyBindings)
    );
    assert_eq!(counter, usize::MAX);
}

#[test]
fn a_full_counter_is_no_hindrance_where_nothing_is_bound() {
    let table = table();
    let mut counter = usize::MAX;
    assert_eq!(lit('p').resolve_matcher(&table, &mut counter, false), Ok(MatcherNode::Char('p')));
    assert_eq!(lit('C').resolve_matcher(&table, &mut counter, true), Ok(class_c(None)));
    assert_eq!(lit('p').resolve_replacer(&table, &mut counter), Ok(ReplacerNode::Char('p')));
    assert_eq!(counter, usize::MAX);
    let mut counter = usize::MAX - 1;
    assert_eq!(
        lit('C').resolve_matcher(&table, &mut counter, false),
        Ok(class_c(Some(usize::MAX - 1)))
    );
    assert_eq!(counter, usize::MAX);
}

#[test]
fn a_rule_resolves_each_side_from_zero() {
    let table = table();
    let rule = rule_of("CV > VC / V_C");
    assert_eq!(
        rule.resolve(&table),
        Ok(ResolvedRule {
            matcher: MatcherNode::Sequence(vec![class_c(Some(0)), class_v(Some(1))]),
            replacer: ReplacerNode::Sequence(vec![write_v(0), write_c(1)]),
            pre: Some(class_v(None)),
            post: Some(class_c(None)),
        })
    );
    let plain = RuleDef { matcher: lit('C'), replacer: LexcElem::Null, env: None };
    assert_eq!(
        plain.resolve(&table),
        Ok(ResolvedRule {
            matcher: class_c(Some(0)),
            replacer: ReplacerNode::Null,
            pre: None,
            post: None,
        })
    );
    let open = RuleDef {
        matcher: LexcElem::Null,
        replacer: lit('x'),
        env: Some(EnvironmentDef { pre: None, post: None }),
    };
    assert_eq!(
        open.resolve(&table),
        Ok(ResolvedRule {
            matcher: MatcherNode::Null,
            replacer: ReplacerNode::Char('x'),
            pre: None,
            post: None,
        })
    );
}

#[test]
fn resolving_leaves_the_element_as_it_was() {
    let table = table();
    let rule = rule_of("C{V ,C} > _C");
    let first = rule.resolve(&table);
    let second = rule.resolve(&table);
    assert_eq!(first, second);
    assert_eq!(rule, rule_of("C{V ,C} > _C"));
}

#[test]
fn names_of_rules() {
    assert_eq!(rule_name(0), "rule_00");
    assert_eq!(rule_name(7), "rule_07");
    assert_eq!(rule_name(9), "rule_09");
    assert_eq!(rule_name(10), "rule_10");
    assert_eq!(rule_name(42), "rule_42");
    assert_eq!(rule_name(99), "rule_99");
    assert_eq!(rule_name(100), "rule_100");
    assert_eq!(rule_name(1234567), "rule_1234567");
    assert_eq!(rule_name(usize::MAX), format!("rule_{}", usize::MAX));
}

#[test]
fn names_of_bindings() {
    assert_eq!(binding_name(0), "__0");
    assert_eq!(binding_name(9), "__9");
    assert_eq!(binding_name(10), "__10");
    assert_eq!(binding_name(305), "__305");
    assert_eq!(binding_name(usize::MAX), format!("__{}", usize::MAX));
}

#[test]
fn the_table_keeps_the_order_of_the_definitions() {
    let mut table = ClassTable::new();
    assert_eq!(table.names(), Vec::<char>::new());
    table.define('V', texts(&["a"]));
    table.define('C', texts(&["p"]));
    table.define('V', texts(&["i"]));
    assert_eq!(table.names(), vec!['V', 'C', 'V']);
    assert_eq!(table.members('V'), Ok(texts(&["i"])));
}

#[test]
fn the_classes_of_a_script_make_a_table() {
    let directives = TadpoleLexc.parse_spec("C :: p, t\na > b\nV :: a\nC :: k\n");
    let table = class_table(&directives);
    assert_eq!(table.names(), vec!['C', 'V', 'C']);
    assert_eq!(table.members('C'), Ok(texts(&["k"])));
    assert_eq!(table.members('V'), Ok(texts(&["a"])));
    assert!(!table.contains('a'));
    assert!(!class_table(&Vec::new()).contains('C'));
}

#[test]
fn the_rules_of_a_script_resolve() {
    let script = "C :: p, t\nV :: a, i\nC{V ,C}?!C. > V_C / #C_V^\n> x\n";
    let directives = TadpoleLexc.parse_spec(script);
    let table = class_table(&directives);
    let mut rules = 0;
    for directive in &directives {
        if let Directive::Transform(_, rule) = directive {
            assert!(rule.resolve(&table).is_ok());
            rules += 1;
        }
    }
    assert_eq!(rules, 2);
}
