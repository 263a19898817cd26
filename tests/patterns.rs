use queue_pattern::bag::{Bag, Bag7};
use queue_pattern::condition::Condition;
use queue_pattern::find::{FindError, Optimization};
use queue_pattern::parse::{ParseError, ParseErrorKind};
use queue_pattern::pattern::{FullDedup, Pattern};
use queue_pattern::queue::Queue;
use queue_pattern::simplify::RuleKind;

fn q(s: &str) -> Queue {
    Queue::new(s.chars().collect())
}

fn texts(v: &[Queue]) -> Vec<String> {
    v.iter().map(|x| x.vec().iter().collect::<String>()).collect()
}

fn single(c: char) -> Pattern {
    Pattern::Single(c)
}

fn parse(s: &str) -> Pattern {
    Pattern::new::<Bag7>(s).expect("pattern parses")
}

fn expand(s: &str) -> Vec<String> {
    texts(&parse(s).queues::<Bag7>())
}

#[test]
fn single_denotes_one_queue() {
    assert_eq!(texts(&single('T').queues::<Bag7>()), vec!["T"]);
}

#[test]
fn wildcard_counts_and_enumerates_alphabet() {
    assert_eq!(Pattern::Wildcard.count::<Bag7>(), 7);
    assert_eq!(
        texts(&Pattern::Wildcard.queues::<Bag7>()),
        vec!["T", "I", "L", "J", "O", "S", "Z"]
    );
}

#[test]
fn concat_of_two_singles() {
    let p = Pattern::Concat(Box::new(single('T')), Box::new(single('O')));
    assert_eq!(texts(&p.queues::<Bag7>()), vec!["TO"]);
    assert_eq!(p.count::<Bag7>(), 1);
}

#[test]
fn either_keeps_order_and_simplifies_to_list() {
    let p = Pattern::Either(Box::new(single('T')), Box::new(single('O')));
    assert_eq!(texts(&p.queues::<Bag7>()), vec!["T", "O"]);
    assert_eq!(p.simplify::<Bag7>().render(), "[TO]");
}

#[test]
fn before_condition() {
    let c = Condition::Before(single('T'), single('O'));
    assert!(c.has::<Bag7>(&q("TIO")));
    assert!(!c.has::<Bag7>(&q("OIT")));
}

#[test]
fn find_exhaustive_two_symbols() {
    let universe = Pattern::Wildcard.queues::<Bag7>();
    let target = vec![q("T"), q("O")];
    let found = Pattern::find::<Bag7>(&universe, &target, Optimization::Exhaustive)
        .expect("target is usable")
        .expect("a pattern is found");
    assert_eq!(found.render(), "[TO]");
    assert!(found.check::<Bag7>(&universe, &target));
    assert!(!found.check::<Bag7>(&universe, &[q("T"), q("O"), q("I")]));
}

#[test]
fn find_rejects_empty_target() {
    let universe = Pattern::Wildcard.queues::<Bag7>();
    let r = Pattern::find::<Bag7>(&universe, &[], Optimization::Exhaustive);
    assert!(matches!(r, Err(FindError::EmptyTarget)));
}

#[test]
fn find_rejects_target_outside_universe() {
    let universe = vec![q("T")];
    let r = Pattern::find_exhaustive::<Bag7>(&universe, &[q("O")]);
    assert!(matches!(r, Err(FindError::NotInUniverse)));
}

#[test]
fn find_fast_gives_literal_chain() {
    let universe = Pattern::Wildcard.queues::<Bag7>();
    let found = Pattern::find::<Bag7>(&universe, &[q("TO"), q("I")], Optimization::Fast)
        .unwrap()
        .unwrap();
    assert_eq!(found.render(), "TO;I");
}

#[test]
fn count_matches_queue_list_length() {
    for s in ["T", "*", "TO", "T;O", "[TIL]", "(T;O)*", "[TO]{T<O}", "[TO]2?", "*;*", "[TT]2", "[TO]!"] {
        let p = parse(s);
        assert_eq!(p.count::<Bag7>(), p.queues::<Bag7>().len(), "{}", s);
    }
}

#[test]
fn count_of_repeating_selection_is_list_length() {
    let p = parse("[TT]2");
    assert_eq!(p.count::<Bag7>(), 1);
    assert_eq!(parse("(T;T)1").count::<Bag7>(), 1);
    assert_eq!(texts(&p.queues::<Bag7>()), vec!["TT"]);
}

#[test]
fn take_beyond_size_is_empty() {
    let p = parse("[TO]3");
    assert_eq!(p.count::<Bag7>(), 0);
    assert!(p.queues::<Bag7>().is_empty());
}

#[test]
fn take_all_equals_permutations() {
    let take = parse("[TIO]3");
    let all = parse("[TIO]!");
    assert_eq!(texts(&take.queues::<Bag7>()), texts(&all.queues::<Bag7>()));
    assert_eq!(all.count::<Bag7>(), 6);
    assert_eq!(
        texts(&all.queues::<Bag7>()),
        vec!["TIO", "TOI", "ITO", "IOT", "OTI", "OIT"]
    );
}

#[test]
fn take_selects_ordered_pairs() {
    assert_eq!(expand("[TO]2"), vec!["TO", "OT"]);
    assert_eq!(expand("[TO]p2"), vec!["TO", "OT"]);
    assert_eq!(parse("[TIO]2").count::<Bag7>(), 6);
}

#[test]
fn take_zero_gives_empty_queue() {
    assert_eq!(expand("T0"), vec![""]);
}

#[test]
fn unique_keeps_first_of_each_multiset() {
    assert_eq!(expand("[TO]![TO]!?"), vec!["TOTO"]);
    assert_eq!(expand("[TOI]2?"), vec!["TO", "TI", "OI"]);
}

#[test]
fn concat_order_is_positional() {
    assert_eq!(expand("[TO][IL]"), vec!["TI", "TL", "OI", "OL"]);
    assert_eq!(expand("T,O"), vec!["TO"]);
}

#[test]
fn either_keeps_duplicates() {
    assert_eq!(expand("T;T"), vec!["T", "T"]);
    assert_eq!(expand("T\nO"), vec!["T", "O"]);
}

#[test]
fn condition_filters() {
    assert_eq!(expand("[TO]!{T<O}"), vec!["TO"]);
    assert_eq!(expand("[TO]!{T>O}"), vec!["OT"]);
    assert_eq!(expand("[TOI]!{@T=0}"), vec!["TOI", "TIO"]);
    assert_eq!(expand("[TOI]!{@T=0&O<I}"), vec!["TOI"]);
    assert_eq!(expand("[TOI]!{@T=0|@T=2}"), vec!["TOI", "TIO", "OIT", "IOT"]);
    assert_eq!(expand("[TOI]!{(@I=0)}"), vec!["ITO", "IOT"]);
}

#[test]
fn before_holds_when_second_is_absent() {
    let c = Condition::Before(single('T'), single('O'));
    assert!(c.has::<Bag7>(&q("TI")));
    assert!(!c.has::<Bag7>(&q("I")));
}

#[test]
fn count_condition_is_greedy() {
    let c = Condition::Count(parse("T;TT"), 3);
    assert!(c.has::<Bag7>(&q("TTT")));
    let c = Condition::Count(parse("TT;T"), 2);
    assert!(c.has::<Bag7>(&q("TTT")));
    let c = Condition::Count(single('T'), 0);
    assert!(c.has::<Bag7>(&q("OIL")));
}

#[test]
fn count_condition_with_empty_match_terminates() {
    let c = Condition::Count(parse("T0"), 3);
    assert!(c.has::<Bag7>(&q("OIL")));
}

#[test]
fn location_condition() {
    let c = Condition::Location(parse("IO"), 1);
    assert!(c.has::<Bag7>(&q("TIO")));
    assert!(!c.has::<Bag7>(&q("IOT")));
    let c = Condition::Location(parse("T0"), 3);
    assert!(c.has::<Bag7>(&q("TIO")));
    let c = Condition::Location(parse("T0"), 4);
    assert!(!c.has::<Bag7>(&q("TIO")));
}

#[test]
fn simplify_examples() {
    assert_eq!(parse("TO;TI").simplify::<Bag7>().render(), "T[OI]");
    assert_eq!(parse("TO;IO").simplify::<Bag7>().render(), "[TI]O");
    assert_eq!(parse("T;T").simplify::<Bag7>().render(), "T");
    assert_eq!(parse("(T)").simplify::<Bag7>().render(), "T");
    assert_eq!(parse("[TO];[IL]").simplify::<Bag7>().render(), "[TOIL]");
    assert_eq!(parse("T;[OI]").simplify::<Bag7>().render(), "[TOI]");
    assert_eq!(parse("[TO]2").simplify::<Bag7>().render(), "[TO]!");
    assert_eq!(parse("[TO]1").simplify::<Bag7>().render(), "[TO]1");
}

#[test]
fn simplify_is_idempotent() {
    for s in ["TO;TI;TL", "T;O;I", "(T;O)(I;L)", "[TO]2;[TO]2", "TO;IO?", "*{T<O};*", "(T)!"] {
        let once = parse(s).simplify::<Bag7>();
        let twice = once.simplify::<Bag7>();
        assert_eq!(once.render(), twice.render(), "{}", s);
        assert!(once.same(&twice));
    }
}

#[test]
fn simplify_keeps_queue_set() {
    for s in ["TO;TI;TL", "T;O;I;T", "(T;O)(I;L)", "TZ;IZ;O"] {
        let p = parse(s);
        let universe = p.queues::<Bag7>();
        let s2 = p.simplify::<Bag7>();
        assert!(s2.check::<Bag7>(&universe, &universe), "{}", s);
    }
}

#[test]
fn render_round_trip() {
    for s in ["T;O", "[TO]!", "T2", "(TO)?", "[TO]{#T=1&@O=0|T<O}", "*{(T>O)}"] {
        assert_eq!(parse(s).render(), s);
    }
}

#[test]
fn parse_errors_carry_position() {
    let e = Pattern::new::<Bag7>("TX").unwrap_err();
    assert_eq!(e, ParseError { kind: ParseErrorKind::Unexpected('X'), position: 1 });
    let e = Pattern::new::<Bag7>("(T").unwrap_err();
    assert_eq!(e.kind, ParseErrorKind::UnexpectedEnd);
    assert_eq!(e.position, 2);
    let e = Pattern::new::<Bag7>("T99999999999999999999999").unwrap_err();
    assert_eq!(e.kind, ParseErrorKind::NumberTooLarge);
    assert!(Pattern::new::<Bag7>("").is_err());
    assert!(Pattern::new::<Bag7>("T;").is_err());
}

#[test]
fn queue_primitives() {
    let a = q("TIO");
    assert_eq!(a.len(), 3);
    assert_eq!(a.nth(1), Some('I'));
    assert_eq!(a.nth(3), None);
    assert_eq!(a.join(q("L")), q("TIOL"));
    assert_eq!(a.slice(1, 3), q("IO"));
    let (x, y) = a.clone().par(1);
    assert_eq!((x, y), (q("T"), q("IO")));
    assert!(a.loose_eq(&q("OTI")));
    assert!(!a.loose_eq(&q("OTT")));
    assert!(!a.loose_eq(&q("TIOO")));
    assert!(a.same(&q("TIO")));
}

#[test]
fn bag_membership() {
    assert!(Bag7::has('T'));
    assert!(!Bag7::has('X'));
    assert_eq!(Bag7::wildcard().len(), 7);
}

#[test]
fn rule_names_in_order() {
    let names: Vec<&str> = Pattern::rules().iter().map(|r| r.name()).collect();
    assert_eq!(
        names,
        vec![
            "shared_prefix",
            "shared_suffix",
            "dedup_either",
            "join_any_any",
            "join_single_any",
            "join_single_single",
            "take_max",
            "unused_group"
        ]
    );
    assert_eq!(RuleKind::UnusedGroup.apply::<Bag7>(&parse("(T)")).render(), "T");
}

#[test]
fn sizes() {
    assert_eq!(parse("[TOI]").size(), 4);
    assert_eq!(parse("T;O").size(), 3);
    assert_eq!(Condition::Before(single('T'), single('O')).size(), 3);
}

#[test]
fn count_checked_reports_overflow() {
    assert_eq!(parse("[TO]!").count_checked::<Bag7>(), Some(2));
    let big = parse("***********************");
    assert_eq!(big.count_checked::<Bag7>(), None);
}

#[test]
fn set_removes_repeats() {
    assert_eq!(texts(&parse("T;O;T").set::<Bag7>()), vec!["T", "O"]);
}

#[test]
fn full_dedup_keeps_first_occurrences() {
    let v = vec![q("TO"), q("I"), q("TO"), q("OT"), q("I")];
    assert_eq!(texts(&v.full_dedup()), vec!["TO", "I", "OT"]);
}

#[test]
fn parsers_report_where_they_stop() {
    let t: Vec<char> = "T;O)".chars().collect();
    let (p, end) = Pattern::parser::<Bag7>(&t, 0).unwrap();
    assert_eq!(end, 3);
    assert_eq!(p.render(), "T;O");
    let t: Vec<char> = "T<O&@I=2}".chars().collect();
    let (c, end) = Condition::parser::<Bag7>(&t, 0).unwrap();
    assert_eq!(end, 8);
    assert_eq!(c.render(), "T<O&@I=2");
}

#[test]
fn parse_renders_canonical_text() {
    assert_eq!(parse("T,O").render(), "TO");
    assert_eq!(parse("T\nO").render(), "T;O");
    assert_eq!(parse("[TO]p02").render(), "[TO]2");
    assert_eq!(parse("T00").render(), "T0");
    assert_eq!(parse("[TO]{#T=007}").render(), "[TO]{#T=7}");
    assert_eq!(parse("T10").render(), "T10");
}

#[test]
fn find_spells_the_empty_queue_as_empty_selection() {
    let universe = parse("T0;T").queues::<Bag7>();
    let found = Pattern::find_exhaustive::<Bag7>(&universe, &[q("")]).unwrap().unwrap();
    assert_eq!(found.render(), "*0");
    assert_eq!(texts(&found.queues::<Bag7>()), vec![""]);
}

#[test]
fn find_exhaustive_longer_target() {
    let universe = parse("[TOI]2").queues::<Bag7>();
    let target = vec![q("TO"), q("TI"), q("OI")];
    let found = Pattern::find_exhaustive::<Bag7>(&universe, &target).unwrap().unwrap();
    assert!(found.check::<Bag7>(&universe, &target));
    assert_eq!(found.render(), "T[OI];OI");
}

#[test]
fn simplify_reaches_under_full_permutation() {
    assert_eq!(parse("(T)!").simplify::<Bag7>().render(), "T!");
}

#[test]
fn parse_tree_follows_precedence() {
    let expected = Pattern::Either(
        Box::new(Pattern::Concat(Box::new(single('T')), Box::new(single('O')))),
        Box::new(single('I')),
    );
    assert!(parse("TO;I").same(&expected));
    let cond = Condition::Or(
        Box::new(Condition::Count(single('T'), 1)),
        Box::new(Condition::And(
            Box::new(Condition::Count(single('O'), 1)),
            Box::new(Condition::Count(single('I'), 0)),
        )),
    );
    let expected = Pattern::Condition(Box::new(single('T')), Box::new(cond));
    assert!(parse("T{#T=1|#O=1&#I=0}").same(&expected));
}

#[test]
fn parse_rejects_text_outside_grammar() {
    for s in ["[T", "X", "T!!", "T;", "T{T}", "(T", "T??", ""] {
        assert!(Pattern::new::<Bag7>(s).is_err(), "{}", s);
    }
}
